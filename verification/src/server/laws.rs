//! What the answers of the servers promise.
use vstd::prelude::*;
use vstd::utf8::*;

use crate::index::json::{JsonNumber, JsonView};
use crate::index::json;
use crate::index::query;
use crate::index::secondary;
use crate::index::secondary::IndexView;
use crate::proto::command::CommandView;
use crate::proto::reply;
use crate::server::access;
use crate::server::http;
use crate::server::outside::World;
use crate::server::tcp;
use crate::server::tcp::{SessionView, StepView};
use crate::storage::engine::EngineView;
use crate::storage::sstable::FileView;
use crate::storage::{documents, engine, order, sstable};
use crate::table::manager::{ManagerView, TableState};
use crate::table::manager;
use crate::table::names;
use crate::text;
use crate::types::{ErrorView, PlayerId};

verus! {

// ---------------------------------------------------------------------------------------------
// Rankings
// ---------------------------------------------------------------------------------------------
/// A table of scores as indices hold it: finitely many players, each score a number.
pub open spec fn are_scores(scores: Map<u128, u64>) -> bool {
    scores.dom().finite() && forall|p: u128| #[trigger]
        scores.contains_key(p) ==> !json::is_nan(scores[p])
}

/// The rank of a player, counted from 1.
pub open spec fn rank_in(scores: Map<u128, u64>, player: u128) -> int {
    secondary::place_in(secondary::standings(scores), player) + 1
}

proof fn lemma_ranked(scores: Map<u128, u64>, player: u128)
    requires
        are_scores(scores),
        scores.contains_key(player),
    ensures
        secondary::standings(scores).len() == scores.len(),
        1 <= rank_in(scores, player) <= scores.len(),
        secondary::standings(scores)[rank_in(scores, player) - 1] == (player, scores[player]),
{
    secondary::lemma_standings_exist(scores);
    let s = secondary::standings(scores);
    assert(exists|k: int| 0 <= k < s.len() && (#[trigger] s[k]).0 == player);
    secondary::law_every_player_has_one_place(scores, player, 0);
}

/// Ranks go by score: a player's rank is below another's exactly where its score is higher, or where
/// the scores are the same and its key is larger; and the ranks are those from 1 to the number of
/// players.
pub proof fn law_ranks_go_by_score(scores: Map<u128, u64>, player: u128, other: u128)
    requires
        are_scores(scores),
        scores.contains_key(player),
        scores.contains_key(other),
    ensures
        1 <= rank_in(scores, player) <= scores.len(),
        rank_in(scores, player) < rank_in(scores, other) <==> json::float_less(
            scores[other],
            scores[player],
        ) || !json::float_less(scores[player], scores[other]) && player > other,
        rank_in(scores, player) == rank_in(scores, other) ==> player == other,
{
    lemma_ranked(scores, player);
    lemma_ranked(scores, other);
    crate::index::laws::law_higher_scores_stand_first(scores, player, other);
}

/// `TOP` lists the players whose rank is not above the limit, each at its rank and with its score, and
/// no others.
pub proof fn law_top_lists_the_best(x: IndexView, limit: usize, player: u128)
    requires
        are_scores(x.scores),
        x.scores.contains_key(player),
    ensures
        ({
            let rows = tcp::top_rows(x, limit);
            let rank = rank_in(x.scores, player);
            &&& rows.len() == if limit < x.scores.len() { limit as nat } else { x.scores.len() }
            &&& rank <= limit ==> rows[rank - 1] == (player, x.scores[player], rank as nat)
            &&& forall|i: int| #![trigger rows[i]] 0 <= i < rows.len() ==> rows[i].2 == i + 1
        }),
{
    lemma_ranked(x.scores, player);
}

/// `RANK.KEY` lists the player itself with its rank and score, and around it as many players as the
/// limit asks for or as there are, ranks one after the other, half of the limit before the player unless
/// the ranking ends there.
pub proof fn law_rows_around_a_key_show_it(x: IndexView, key: u128, limit: usize, other: u128)
    requires
        are_scores(x.scores),
        x.scores.contains_key(key),
        x.scores.contains_key(other),
        limit > 0,
    ensures
        ({
            let rows = tcp::rows_around_key(x, key, limit);
            let rank = rank_in(x.scores, key);
            &&& rows.contains((key, x.scores[key], rank as nat))
            &&& rows.len() == if limit < x.scores.len() { limit as nat } else { x.scores.len() }
            &&& forall|i: int|
                #![trigger rows[i]]
                0 <= i < rows.len() ==> rows[i].2 == rows[0].2 + i
            &&& rows[0].2 <= rank_in(x.scores, other) < rows[0].2 + rows.len() ==> rows.contains(
                (other, x.scores[other], rank_in(x.scores, other) as nat),
            )
            &&& rank - rows[0].2 == limit / 2 || rows[0].2 == 1 || rows[0].2 + rows.len()
                == x.scores.len() + 1
        }),
{
    lemma_ranked(x.scores, key);
    lemma_ranked(x.scores, other);
    let s = secondary::standings(x.scores);
    let rank = rank_in(x.scores, key);
    lemma_window_rows(s, rank, limit as int);
    let rows = tcp::rows_around_key(x, key, limit);
    let (first, last) = secondary::around(rank, s.len() as int, limit as int);
    assert(rows[rank - first] == (key, x.scores[key], rank as nat));
    let far = rank_in(x.scores, other);
    if first <= far <= last {
        assert(rows[far - first] == (other, x.scores[other], far as nat));
    }
}

/// The rows of the ranks around a rank.
proof fn lemma_window_rows(s: Seq<(u128, u64)>, rank: int, limit: int)
    requires
        1 <= rank <= s.len(),
        limit > 0,
    ensures
        ({
            let (first, last) = secondary::around(rank, s.len() as int, limit);
            let rows = secondary::rank_rows(s, first, last);
            &&& 1 <= first <= rank <= last <= s.len()
            &&& last - first + 1 == if limit < s.len() { limit } else { s.len() as int }
            &&& rank - first == limit / 2 || first == 1 || last == s.len()
            &&& rows.len() == last - first + 1
            &&& rows[0].2 == first
            &&& forall|i: int|
                #![trigger rows[i]]
                0 <= i < rows.len() ==> rows[i] == (
                    s[first - 1 + i].0,
                    s[first - 1 + i].1,
                    (first + i) as nat,
                )
        }),
{
    crate::index::laws::law_ranks_around_a_rank(rank, s.len() as int, limit);
    let (first, last) = secondary::around(rank, s.len() as int, limit);
    crate::index::laws::law_rows_of_ranks(s, first, last);
    assert(s[first - 1] == s[first - 1]);
}

/// `RANK.SCORE` lists players around the place of a score: where some are not above it, the first of
/// those is listed, and where some are above it and more than one is asked for, the last of those.
#[verifier::rlimit(40)]
pub proof fn law_rows_around_a_score_show_its_place(
    x: IndexView,
    score: u64,
    limit: usize,
    player: u128,
)
    requires
        are_scores(x.scores),
        x.scores.contains_key(player),
        limit > 0,
    ensures
        ({
            let rows = tcp::rows_around_score(x, score, limit);
            let above = secondary::above_score(secondary::standings(x.scores), score);
            let rank = rank_in(x.scores, player);
            &&& rank <= above <==> json::float_less(score, x.scores[player])
            &&& rows.len() == if limit < x.scores.len() { limit as nat } else { x.scores.len() }
            &&& forall|i: int|
                #![trigger rows[i]]
                0 <= i < rows.len() ==> rows[i].2 == rows[0].2 + i
            &&& rank == above + 1 ==> rows.contains((player, x.scores[player], rank as nat))
            &&& rank == above && (limit > 1 || rank == x.scores.len()) ==> rows.contains(
                (player, x.scores[player], rank as nat),
            )
        }),
{
    lemma_ranked(x.scores, player);
    secondary::lemma_standings_exist(x.scores);
    let s = secondary::standings(x.scores);
    let rank = rank_in(x.scores, player);
    assert forall|j: int| 0 <= j < s.len() implies !json::is_nan((#[trigger] s[j]).1) by {
        assert(x.scores.contains_key(s[j].0));
    }
    crate::index::laws::law_those_above_a_score_stand_first(s, score, rank - 1);
    let above = secondary::above_score(s, score) as int;
    let mid = secondary::capped(above + 1, s.len() as int);
    lemma_window_rows(s, mid, limit as int);
    let rows = tcp::rows_around_score(x, score, limit);
    let (first, last) = secondary::around(mid, s.len() as int, limit as int);
    if first <= rank <= last {
        assert(rows[rank - first] == (player, x.scores[player], rank as nat));
    }
}

/// `RANK.RANGE_SCORE` lists the best players whose score is not below the first bound and not above the
/// second, each with its rank, best first, no more than the limit; and none that has such a score is
/// left out unless as many as the limit stand before it.
pub proof fn law_rows_between_scores_are_those(
    x: IndexView,
    min: u64,
    max: u64,
    limit: usize,
    player: u128,
)
    requires
        are_scores(x.scores),
        x.scores.contains_key(player),
        !json::is_nan(min),
        !json::is_nan(max),
    ensures
        ({
            let rows = tcp::rows_between(x, min, max, limit);
            let row = (player, x.scores[player], rank_in(x.scores, player) as nat);
            let fits = json::float_at_most(min, x.scores[player]) && json::float_at_most(
                x.scores[player],
                max,
            );
            &&& rows.len() <= limit
            &&& forall|i: int, j: int|
                #![trigger rows[i], rows[j]]
                0 <= i < j < rows.len() ==> rows[i].2 < rows[j].2
            &&& rows.contains(row) ==> fits
            &&& fits && rows.len() < limit ==> rows.contains(row)
            &&& fits && rows.len() > 0 && row.2 <= rows.last().2 ==> rows.contains(row)
        }),
{
    lemma_ranked(x.scores, player);
    secondary::lemma_standings_exist(x.scores);
    let s = secondary::standings(x.scores);
    let n = s.len() as int;
    let rank = rank_in(x.scores, player);
    assert forall|j: int| 0 <= j < s.len() implies !json::is_nan((#[trigger] s[j]).1) by {
        assert(x.scores.contains_key(s[j].0));
    }
    crate::index::laws::law_rows_between_scores(s, min, max, n, rank);
    let all = secondary::score_rows(s, min, max, n);
    let rows = tcp::rows_between(x, min, max, limit);
    let row = (player, x.scores[player], rank as nat);
    if rows.contains(row) {
        let i = choose|i: int| 0 <= i < rows.len() && rows[i] == row;
        assert(all[i] == row);
    }
    let fits = json::float_at_most(min, x.scores[player]) && json::float_at_most(
        x.scores[player],
        max,
    );
    if fits {
        assert(all.contains(row));
        let i = choose|i: int| 0 <= i < all.len() && all[i] == row;
        if i < rows.len() {
            assert(rows[i] == row);
        } else if rows.len() > 0 {
            assert(rows.last() == all[rows.len() - 1]);
            assert(all[rows.len() - 1].2 < all[i].2);
        }
    }
}

// ---------------------------------------------------------------------------------------------
// Commands that read
// ---------------------------------------------------------------------------------------------
/// The `i`-th table of a server has a name.
pub open spec fn table_is(m: ManagerView, name: Seq<char>, i: int) -> bool {
    manager::names_ascend(m.tables) && 0 <= i < m.tables.len() && m.tables[i].name == name
}

/// No table of a server has a name.
pub open spec fn table_is_missing(m: ManagerView, name: Seq<char>) -> bool {
    forall|i: int| 0 <= i < m.tables.len() ==> (#[trigger] m.tables[i]).name != name
}

proof fn lemma_table(m: ManagerView, name: Seq<char>, i: int)
    requires
        table_is(m, name, i),
    ensures
        manager::table_place(m.tables, name) == Some(i),
        access::table_of(m, name) == Some(m.tables[i]),
{
    manager::lemma_place_is(m.tables, name, i);
}

proof fn lemma_no_table(m: ManagerView, name: Seq<char>)
    requires
        table_is_missing(m, name),
    ensures
        manager::table_place(m.tables, name) is None,
        access::table_of(m, name) is None,
{
    manager::lemma_table_place(m.tables, name);
}

/// `GET` changes nothing, and answers what a read of the key in the table with the name gives: the value
/// with its length, nothing, or the error.
pub proof fn law_get_answers_what_is_read(
    before: ManagerView,
    table: Seq<char>,
    i: int,
    key: u128,
    now_ms: u64,
    w: World,
    after: ManagerView,
    step: StepView,
)
    requires
        table_is(before, table, i),
        tcp::runs(before, CommandView::Get { table, key }, now_ms, w, after, step),
    ensures
        after == before,
        exists|got: core::result::Result<Option<Seq<u8>>, ErrorView>| #[trigger]
            access::read_gives(before.tables[i], w, key, now_ms / 1000, got) && step
                == StepView::Reply(
                match got {
                    Ok(Some(value)) => reply::bulk(value),
                    Ok(None) => reply::nil(),
                    Err(e) => reply::failure(e),
                },
            ),
{
    lemma_table(before, table, i);
    let b = step->Reply_0;
    assert(tcp::get_replies(before.tables[i], w, key, now_ms / 1000, b));
    let got = choose|got: core::result::Result<Option<Seq<u8>>, ErrorView>| #[trigger]
        access::read_gives(before.tables[i], w, key, now_ms / 1000, got) && b == access::get_reply(
            got,
        );
    assert(access::read_gives(before.tables[i], w, key, now_ms / 1000, got));
}

/// Of values one after the other, those of two lists are those of the first and then those of the
/// second; a value is shown with its length, what could not be read or is not there by nothing.
pub proof fn law_values_are_answered_in_order(
    a: Seq<core::result::Result<Option<Seq<u8>>, ErrorView>>,
    b: Seq<core::result::Result<Option<Seq<u8>>, ErrorView>>,
    got: core::result::Result<Option<Seq<u8>>, ErrorView>,
)
    ensures
        access::values_reply(a + b) == access::values_reply(a) + access::values_reply(b),
        access::values_reply(seq![got]) == (match got {
            Ok(Some(value)) => reply::bulk(value),
            _ => reply::nil(),
        }),
        access::existing(a + b) == access::existing(a) + access::existing(b),
        access::existing(seq![got]) == if got matches Ok(Some(_)) {
            1nat
        } else {
            0nat
        },
    decreases b.len(),
{
    reveal_with_fuel(access::values_reply, 2);
    reveal_with_fuel(access::existing, 2);
    assert(seq![got].drop_last() =~= Seq::empty());
    assert(Seq::<u8>::empty() + reply::nil() =~= reply::nil());
    if let Ok(Some(value)) = got {
        assert(Seq::<u8>::empty() + reply::bulk(value) =~= reply::bulk(value));
    }
    assert(access::values_reply(seq![got]) =~= (match got {
        Ok(Some(value)) => reply::bulk(value),
        _ => reply::nil(),
    }));
    if b.len() == 0 {
        assert(a + b =~= a);
        assert(access::values_reply(a) + access::values_reply(b) =~= access::values_reply(a));
    } else {
        law_values_are_answered_in_order(a, b.drop_last(), got);
        assert((a + b).drop_last() =~= a + b.drop_last());
        assert(access::values_reply(a + b) =~= access::values_reply(a) + access::values_reply(b));
    }
}

/// `MGET` changes nothing, and answers the number of keys and then, key by key in their order, what reads
/// of them in the table with the name give; `EXISTS` answers how many of them hold a value.
pub proof fn law_mget_and_exists_answer_what_is_read(
    before: ManagerView,
    table: Seq<char>,
    i: int,
    keys: Seq<u128>,
    c: CommandView,
    now_ms: u64,
    w: World,
    after: ManagerView,
    step: StepView,
)
    requires
        table_is(before, table, i),
        c == (CommandView::Mget { table, keys }) || c == (CommandView::Exists { table, keys }),
        tcp::runs(before, c, now_ms, w, after, step),
    ensures
        after == before,
        exists|got: Seq<core::result::Result<Option<Seq<u8>>, ErrorView>>|
            #![trigger access::values_reply(got)]
            got.len() == keys.len() && (forall|k: int|
                0 <= k < keys.len() ==> access::read_gives(
                    before.tables[i],
                    w,
                    #[trigger] keys[k],
                    now_ms / 1000,
                    got[k],
                )) && step == StepView::Reply(
                if c is Mget {
                    reply::line(seq!['*'] + text::dec_text(keys.len())) + access::values_reply(got)
                } else {
                    reply::number(access::existing(got) as int)
                },
            ),
{
    lemma_table(before, table, i);
    reveal_strlit("*");
    assert("*"@ =~= seq!['*']);
    let b = step->Reply_0;
    let t = before.tables[i];
    let now_secs = now_ms / 1000;
    let got = if c is Mget {
        assert(tcp::mget_replies(t, w, keys, now_secs, b));
        choose|got: Seq<core::result::Result<Option<Seq<u8>>, ErrorView>>| #[trigger]
            access::keys_give(t, w, keys, now_secs, got) && b == access::mget_reply(got)
    } else {
        assert(tcp::exists_replies(t, w, keys, now_secs, b));
        choose|got: Seq<core::result::Result<Option<Seq<u8>>, ErrorView>>| #[trigger]
            access::keys_give(t, w, keys, now_secs, got) && b == reply::number(
                access::existing(got) as int,
            )
    };
    assert(access::keys_give(t, w, keys, now_secs, got));
    assert forall|k: int| 0 <= k < keys.len() implies access::read_gives(
        t,
        w,
        #[trigger] keys[k],
        now_secs,
        got[k],
    ) by {
        assert(access::read_gives(t, w, keys[k], now_secs, got[k]));
    }
    let shown = access::values_reply(got);
}

/// `TTL` changes nothing, and answers -2 where a read of the key gives no value, -1 where the key holds
/// one and does not expire, and else the seconds from now until it does.
pub proof fn law_ttl_answers_the_seconds_left(
    before: ManagerView,
    table: Seq<char>,
    i: int,
    key: u128,
    now_ms: u64,
    w: World,
    after: ManagerView,
    step: StepView,
)
    requires
        table_is(before, table, i),
        tcp::runs(before, CommandView::Ttl { table, key }, now_ms, w, after, step),
        before.tables[i].engine.ttls.contains_key(key)
            ==> before.tables[i].engine.ttls[key] <= i64::MAX,
    ensures
        after == before,
        exists|got: core::result::Result<Option<Seq<u8>>, ErrorView>| #[trigger]
            access::read_gives(before.tables[i], w, key, now_ms / 1000, got) && step
                == StepView::Reply(
                reply::number(
                    if !(got matches Ok(Some(_))) {
                        -2
                    } else if !before.tables[i].engine.ttls.contains_key(key) {
                        -1
                    } else {
                        before.tables[i].engine.ttls[key] - now_ms / 1000
                    },
                ),
            ),
{
    lemma_table(before, table, i);
    let b = step->Reply_0;
    let t = before.tables[i];
    let now_secs = now_ms / 1000;
    assert(tcp::ttl_replies(t, w, key, now_secs, b));
    let left = choose|left: int| #[trigger]
        access::ttl_gives(t, w, key, now_secs, left) && b == reply::number(left);
    let there = choose|there: bool| #[trigger]
        access::there_gives(t, w, key, now_secs, there) && left == engine::time_left(
            t.engine.ttls,
            key,
            now_secs,
            there,
        );
    let got = choose|got: core::result::Result<Option<Seq<u8>>, ErrorView>| #[trigger]
        engine::value_gives(w.reads_of(t.name), t.engine, key, now_secs, got) && there
            == engine::is_there(got);
    assert(access::read_gives(t, w, key, now_secs, got));
}

/// A command that reads a table that is missing changes nothing, and answers that there is no such table.
pub proof fn law_missing_table_is_told(
    before: ManagerView,
    table: Seq<char>,
    c: CommandView,
    now_ms: u64,
    w: World,
    after: ManagerView,
    step: StepView,
)
    requires
        table_is_missing(before, table),
        match c {
            CommandView::Get { table: t, .. } => t == table,
            CommandView::Mget { table: t, .. } => t == table,
            CommandView::Exists { table: t, .. } => t == table,
            CommandView::Ttl { table: t, .. } => t == table,
            CommandView::Scan { table: t, .. } => t == table,
            CommandView::Filter { table: t, .. } => t == table,
            CommandView::Count { table: t, .. } => t == table,
            CommandView::Delete { table: t, .. } => t == table,
            CommandView::Expire { table: t, .. } => t == table,
            CommandView::IndexCreate { table: t, .. } => t == table,
            _ => false,
        },
        tcp::runs(before, c, now_ms, w, after, step),
    ensures
        after == before,
        step == StepView::Reply(reply::no_table(table)),
{
    lemma_no_table(before, table);
}

/// A command that writes to a table that is missing changes nothing, and answers that there is no such
/// table.
pub proof fn law_missing_table_is_not_written(
    before: ManagerView,
    table: Seq<char>,
    c: CommandView,
    now_ms: u64,
    w: World,
    after: ManagerView,
    step: StepView,
)
    requires
        table_is_missing(before, table),
        match c {
            CommandView::Put { table: t, .. } => t == table,
            CommandView::Mset { table: t, .. } => t == table,
            CommandView::JsonSet { table: t, .. } => t == table,
            _ => false,
        },
        tcp::runs(before, c, now_ms, w, after, step),
    ensures
        after == before,
        step == StepView::Reply(reply::no_table_to_write(table)),
{
    lemma_no_table(before, table);
}

/// Where reads of files give what the files hold, `SCAN` changes nothing and lists records of the table
/// with the name in the order of their keys: as many as the limit at most, none whose key is below the
/// start or above the end, each with the value that a read of its key gives; and of the keys between the
/// bounds that a read finds, none is left out before the last that is listed, and none at all where fewer
/// than the limit are listed and no key expires.
#[verifier::rlimit(40)]
pub proof fn law_scan_lists_the_records_between(
    before: ManagerView,
    table: Seq<char>,
    i: int,
    start: Option<PlayerId>,
    end: Option<PlayerId>,
    limit: usize,
    now_ms: u64,
    w: World,
    files: spec_fn(u64) -> FileView,
    after: ManagerView,
    step: StepView,
    key: u128,
    value: Seq<u8>,
)
    requires
        table_is(before, table, i),
        tcp::runs(before, CommandView::Scan { table, start, end, limit }, now_ms, w, after, step),
        sstable::within(w.reads_of(table), sstable::fixed(files)),
        order::newest_first(before.tables[i].engine, files),
    ensures
        after == before,
        exists|s: Seq<(u128, Seq<u8>)>|
            #![trigger access::record_list(s, before.tables[i].names)]
            {
                let is_read = engine::value_of(
                    before.tables[i].engine,
                    files,
                    key,
                    now_ms / 1000,
                ) == Ok::<Option<Seq<u8>>, ErrorView>(Some(value));
                let from_start = start is None || start->Some_0.0 <= key;
                let to_end = end is None || key <= end->Some_0.0;
                &&& step == StepView::Reply(
                    reply::document(access::record_list(s, before.tables[i].names)),
                )
                &&& s.len() <= limit
                &&& forall|a: int, b: int|
                    #![trigger s[a], s[b]]
                    0 <= a < b < s.len() ==> s[a].0 < s[b].0
                &&& s.contains((key, value)) ==> from_start && to_end && is_read
                &&& from_start && to_end && is_read && s.len() > 0 && key <= s.last().0
                    ==> s.contains((key, value))
                &&& from_start && to_end && is_read && s.len() < limit
                    && before.tables[i].engine.ttls == Map::<u128, u64>::empty() ==> s.contains(
                    (key, value),
                )
            },
{
    lemma_table(before, table, i);
    let t = before.tables[i];
    let now_secs = now_ms / 1000;
    let b = step->Reply_0;
    assert(tcp::scan_replies(t, w, start, end, limit, now_secs, b));
    let got = choose|got: core::result::Result<Seq<(u128, Seq<u8>)>, ErrorView>| #[trigger]
        access::scan_gives(t, w, start, end, limit as nat, now_secs, got) && b == tcp::scan_reply(
            got,
            t.names,
        );
    engine::lemma_scan_fixed(
        w.reads_of(t.name),
        files,
        t.engine,
        start,
        end,
        limit as nat,
        now_secs,
        got,
    );
    order::law_scan_gives_what_reads_give(
        t.engine,
        files,
        start,
        end,
        limit as nat,
        now_secs,
        key,
        value,
    );
    let s = got->Ok_0;
    let listed = access::record_list(s, t.names);
}

/// Of a list of records, those that meet a filter are listed in their order, exactly those; without a
/// filter all are.
pub proof fn law_matching_records_are_listed(
    s: Seq<(u128, Seq<u8>)>,
    filter: query::ExpressionView,
    near: spec_fn(u64, u64) -> Option<bool>,
    i: int,
)
    requires
        0 <= i < s.len(),
        forall|a: int, b: int|
            #![trigger s[a], s[b]]
            0 <= a < b < s.len() ==> s[a].0 < s[b].0,
    ensures
        ({
            let listed = documents::matching(s, Some(filter), near);
            let met = json::parsed_json(s[i].1) matches Some(v) && query::meets(filter, v, near);
            &&& documents::matching(s, None, near) == s
            &&& listed.contains(s[i]) <==> met
            &&& listed.len() <= s.len()
            &&& forall|a: int, b: int|
                #![trigger listed[a], listed[b]]
                0 <= a < b < listed.len() ==> listed[a].0 < listed[b].0
            &&& forall|a: int| #![trigger listed[a]] 0 <= a < listed.len() ==> s.contains(listed[a])
        }),
    decreases s.len(),
{
    lemma_matching_all(s, near);
    lemma_matching_some(s, filter, near);
    let listed = documents::matching(s, Some(filter), near);
    if listed.contains(s[i]) {
        let a = choose|a: int| 0 <= a < listed.len() && listed[a] == s[i];
        assert(query::bytes_meet(filter, listed[a].1, near));
    }
    if query::bytes_meet(filter, s[i].1, near) {
        lemma_matching_has(s, filter, near, i);
    }
}

proof fn lemma_matching_all(
    s: Seq<(u128, Seq<u8>)>,
    near: spec_fn(u64, u64) -> Option<bool>,
)
    ensures
        documents::matching(s, None, near) == s,
    decreases s.len(),
{
    if s.len() > 0 {
        lemma_matching_all(s.drop_last(), near);
        assert(s.drop_last().push(s.last()) =~= s);
    } else {
        assert(s =~= Seq::empty());
    }
}

proof fn lemma_matching_some(
    s: Seq<(u128, Seq<u8>)>,
    filter: query::ExpressionView,
    near: spec_fn(u64, u64) -> Option<bool>,
)
    requires
        forall|a: int, b: int|
            #![trigger s[a], s[b]]
            0 <= a < b < s.len() ==> s[a].0 < s[b].0,
    ensures
        ({
            let listed = documents::matching(s, Some(filter), near);
            &&& listed.len() <= s.len()
            &&& forall|a: int|
                #![trigger listed[a]]
                0 <= a < listed.len() ==> s.contains(listed[a]) && query::bytes_meet(
                    filter,
                    listed[a].1,
                    near,
                )
            &&& forall|a: int, b: int|
                #![trigger listed[a], listed[b]]
                0 <= a < b < listed.len() ==> listed[a].0 < listed[b].0
        }),
    decreases s.len(),
{
    if s.len() > 0 {
        let rest = s.drop_last();
        assert forall|a: int, b: int|
            #![trigger rest[a], rest[b]]
            0 <= a < b < rest.len() implies rest[a].0 < rest[b].0 by {
            assert(s[a].0 < s[b].0);
        }
        lemma_matching_some(rest, filter, near);
        let fewer = documents::matching(rest, Some(filter), near);
        let listed = documents::matching(s, Some(filter), near);
        assert forall|a: int| #![trigger listed[a]] 0 <= a < listed.len() implies s.contains(
            listed[a],
        ) && query::bytes_meet(filter, listed[a].1, near) by {
            if a < fewer.len() {
                assert(listed[a] == fewer[a]);
                let k = choose|k: int| 0 <= k < rest.len() && rest[k] == fewer[a];
                assert(s[k] == fewer[a]);
            } else {
                assert(listed[a] == s[s.len() - 1]);
            }
        }
        assert forall|a: int, b: int|
            #![trigger listed[a], listed[b]]
            0 <= a < b < listed.len() implies listed[a].0 < listed[b].0 by {
            assert(listed[a] == fewer[a]);
            if b < fewer.len() {
                assert(listed[b] == fewer[b]);
            } else {
                assert(listed[b] == s[s.len() - 1]);
                let k = choose|k: int| 0 <= k < rest.len() && rest[k] == fewer[a];
                assert(s[k].0 < s[s.len() - 1].0);
            }
        }
    }
}

proof fn lemma_matching_has(
    s: Seq<(u128, Seq<u8>)>,
    filter: query::ExpressionView,
    near: spec_fn(u64, u64) -> Option<bool>,
    i: int,
)
    requires
        0 <= i < s.len(),
        query::bytes_meet(filter, s[i].1, near),
    ensures
        documents::matching(s, Some(filter), near).contains(s[i]),
    decreases s.len(),
{
    let rest = s.drop_last();
    let fewer = documents::matching(rest, Some(filter), near);
    let listed = documents::matching(s, Some(filter), near);
    if i < rest.len() {
        lemma_matching_has(rest, filter, near, i);
        let k = choose|k: int| 0 <= k < fewer.len() && fewer[k] == rest[i];
        assert(listed[k] == s[i]);
    } else {
        assert(listed[fewer.len() as int] == s[i]);
    }
}

/// Where reads of files give what the files hold, `FILTER` changes nothing and lists the first of the
/// records that meet the filter, as many as the limit; `COUNT` answers how many there are, of all records
/// where it has no filter. Both look at the records that a scan of the whole table gives.
pub proof fn law_filter_and_count_answer_what_matches(
    before: ManagerView,
    table: Seq<char>,
    i: int,
    c: CommandView,
    input: Option<Seq<char>>,
    filter: Option<query::ExpressionView>,
    limit: usize,
    now_ms: u64,
    w: World,
    files: spec_fn(u64) -> FileView,
    after: ManagerView,
    step: StepView,
)
    requires
        table_is(before, table, i),
        c == (CommandView::Count { table, query: input }) || input is Some && c == (
        CommandView::Filter { table, query: input.unwrap(), limit }),
        match input {
            None => filter is None,
            Some(q) => filter is Some && query::filter_of(q) == Ok::<
                query::ExpressionView,
                ErrorView,
            >(filter.unwrap()),
        },
        tcp::runs(before, c, now_ms, w, after, step),
        sstable::within(w.reads_of(table), sstable::fixed(files)),
    ensures
        after == before,
        match engine::scan_of(
            before.tables[i].engine,
            files,
            None,
            None,
            1000000,
            now_ms / 1000,
        ) {
            Err(e) => step == StepView::Reply(reply::failure(e)),
            Ok(s) => {
                let listed = documents::matching(s, filter, w.near);
                if c is Count {
                    step == StepView::Reply(reply::number(listed.len() as int))
                } else {
                    step == StepView::Reply(
                        reply::document(
                            access::record_list(
                                if listed.len() <= limit {
                                    listed
                                } else {
                                    listed.take(limit as int)
                                },
                                before.tables[i].names,
                            ),
                        ),
                    )
                }
            },
        },
{
    lemma_table(before, table, i);
    let t = before.tables[i];
    let now_secs = now_ms / 1000;
    let b = step->Reply_0;
    let n: nat = 1000000;
    if c is Count {
        assert(tcp::count_replies(t, w, input, now_secs, b));
        assert(tcp::counted(t, w, filter, now_secs, b));
        let got = choose|got: core::result::Result<Seq<(u128, Seq<u8>)>, ErrorView>| #[trigger]
            access::records_give(t, w, now_secs, got) && b == tcp::count_reply(got, filter, w.near);
        engine::lemma_scan_fixed(w.reads_of(t.name), files, t.engine, None, None, n, now_secs, got);
    } else {
        assert(tcp::filter_replies(t, w, input.unwrap(), limit, now_secs, b));
        let f = filter.unwrap();
        let got = choose|got: core::result::Result<Seq<(u128, Seq<u8>)>, ErrorView>| #[trigger]
            access::records_give(t, w, now_secs, got) && b == tcp::filter_reply(
                got,
                f,
                w.near,
                limit,
                t.names,
            );
        engine::lemma_scan_fixed(w.reads_of(t.name), files, t.engine, None, None, n, now_secs, got);
    }
}

// ---------------------------------------------------------------------------------------------
// Commands that write
// ---------------------------------------------------------------------------------------------
/// A server of which the `i`-th table may have changed, and nothing else.
pub open spec fn only_table_changed(before: ManagerView, after: ManagerView, i: int) -> bool {
    &&& after.dir == before.dir
    &&& after.config == before.config
    &&& after.tables.len() == before.tables.len()
    &&& forall|j: int|
        0 <= j < before.tables.len() && j != i ==> #[trigger] after.tables[j] == before.tables[j]
}

/// `SET` on a key that no other write holds asks for its record to be logged; once that is done it is
/// answered `+OK`, the value is what a read of the key in the table may give, unless the key has expired,
/// every index on a number in the value ranks the key with that number, and no other table has changed.
#[verifier::rlimit(40)]
pub proof fn law_set_is_answered_and_read(
    before: ManagerView,
    table: Seq<char>,
    i: int,
    key: u128,
    value: Seq<u8>,
    now_ms: u64,
    w: World,
    mid: ManagerView,
    asked: StepView,
    later_ms: u64,
    after: ManagerView,
    step: StepView,
    now_secs: u64,
    got: core::result::Result<Option<Seq<u8>>, ErrorView>,
    k: int,
)
    requires
        table_is(before, table, i),
        before.tables[i].engine.memory.dom().finite(),
        !before.tables[i].held.contains(key),
        tcp::runs(before, CommandView::Put { table, key, value }, now_ms, w, mid, asked),
        asked matches StepView::Log(p) ==> tcp::write_goes_on(mid, p, Ok(()), later_ms, after, step),
        0 <= k < before.tables[i].indices.len(),
    ensures
        asked is Log,
        step == StepView::Reply(reply::line("+OK"@)),
        only_table_changed(before, after, i),
        access::read_gives(after.tables[i], w, key, now_secs, got) && !engine::expired(
            before.tables[i].engine.ttls,
            key,
            now_secs,
        ) ==> got == Ok::<Option<Seq<u8>>, ErrorView>(Some(value)),
        ({
            let scores = before.tables[i].indices[k].scores;
            after.tables[i].indices[k].scores == (match secondary::extracted(
                before.tables[i].indices[k].path,
                value,
            ) {
                Some(bits) if !json::is_nan(bits) => scores.insert(key, bits),
                _ => scores,
            })
        }),
{
    lemma_table(before, table, i);
    let t = before.tables[i];
    let p = asked->Log_0;
    let started = tcp::put_started(t, key, value);
    assert(mid.tables =~= before.tables.update(i, started));
    assert(manager::names_ascend(mid.tables)) by {
        assert forall|a: int, b: int| 0 <= a < b < mid.tables.len() implies text::text_before(
            (#[trigger] mid.tables[a]).name,
            (#[trigger] mid.tables[b]).name,
        ) by {
            assert(text::text_before(before.tables[a].name, before.tables[b].name));
        }
    }
    lemma_table(mid, table, i);
    assert(after.tables[i] == tcp::batch_applied(started, p));
    if access::read_gives(after.tables[i], w, key, now_secs, got) && !engine::expired(
        t.engine.ttls,
        key,
        now_secs,
    ) {
        let ops = engine::put_ops(key, value);
        assert(crate::storage::laws::last_op(ops, key) == Some(ops.last()));
        crate::storage::laws::law_batch_is_read_from_memory(
            started.engine,
            ops,
            t.engine.next_seq,
            now_ms,
            w.reads_of(t.name),
            key,
            now_secs,
            got,
        );
    }
}

/// `DEL` on a key that no other write holds asks for its record to be logged; once that is done it is
/// answered `:1`, a read of the key in the table gives nothing, no index ranks the key, all other players
/// are ranked as before, and no other table has changed.
pub proof fn law_delete_is_answered_and_read(
    before: ManagerView,
    table: Seq<char>,
    i: int,
    key: u128,
    now_ms: u64,
    w: World,
    mid: ManagerView,
    asked: StepView,
    later_ms: u64,
    after: ManagerView,
    step: StepView,
    now_secs: u64,
    got: core::result::Result<Option<Seq<u8>>, ErrorView>,
    k: int,
)
    requires
        table_is(before, table, i),
        before.tables[i].engine.memory.dom().finite(),
        !before.tables[i].held.contains(key),
        tcp::runs(before, CommandView::Delete { table, key }, now_ms, w, mid, asked),
        asked matches StepView::Log(p) ==> tcp::write_goes_on(mid, p, Ok(()), later_ms, after, step),
        0 <= k < before.tables[i].indices.len(),
    ensures
        asked is Log,
        step == StepView::Reply(reply::number(1)),
        only_table_changed(before, after, i),
        access::read_gives(after.tables[i], w, key, now_secs, got) ==> got == Ok::<
            Option<Seq<u8>>,
            ErrorView,
        >(None),
        after.tables[i].indices[k].scores == before.tables[i].indices[k].scores.remove(key),
{
    lemma_table(before, table, i);
    let t = before.tables[i];
    let p = asked->Log_0;
    let started = tcp::delete_started(t, key);
    assert(mid.tables =~= before.tables.update(i, started));
    assert(manager::names_ascend(mid.tables)) by {
        assert forall|a: int, b: int| 0 <= a < b < mid.tables.len() implies text::text_before(
            (#[trigger] mid.tables[a]).name,
            (#[trigger] mid.tables[b]).name,
        ) by {
            assert(text::text_before(before.tables[a].name, before.tables[b].name));
        }
    }
    lemma_table(mid, table, i);
    assert(after.tables[i] == tcp::batch_applied(started, p));
    if access::read_gives(after.tables[i], w, key, now_secs, got) {
        let ops = engine::delete_ops(key);
        assert(crate::storage::laws::last_op(ops, key) == Some(ops.last()));
        crate::storage::laws::law_batch_is_read_from_memory(
            started.engine,
            ops,
            t.engine.next_seq,
            now_ms,
            w.reads_of(t.name),
            key,
            now_secs,
            got,
        );
    }
}

/// `MSET` puts its entries one after the other: the first, where no other write holds its key, asks for
/// its record to be logged; once that is done its value is what a read of the key in the table may give,
/// unless the key has expired, and the rest goes on as an `MSET` of the rest does. Without entries it is
/// answered `+OK`.
#[verifier::rlimit(40)]
pub proof fn law_mset_puts_one_after_the_other(
    before: ManagerView,
    table: Seq<char>,
    i: int,
    entries: Seq<(u128, Seq<u8>)>,
    now_ms: u64,
    w: World,
    mid: ManagerView,
    asked: StepView,
    later_ms: u64,
    after: ManagerView,
    step: StepView,
    now_secs: u64,
    got: core::result::Result<Option<Seq<u8>>, ErrorView>,
)
    requires
        table_is(before, table, i),
        before.tables[i].engine.memory.dom().finite(),
        entries.len() > 0 ==> !before.tables[i].held.contains(entries[0].0),
        tcp::runs(before, CommandView::Mset { table, entries }, now_ms, w, mid, asked),
        asked matches StepView::Log(p) ==> tcp::write_goes_on(mid, p, Ok(()), later_ms, after, step),
    ensures
        entries.len() == 0 ==> mid == before && asked == StepView::Reply(reply::line("+OK"@)),
        entries.len() > 0 ==> asked is Log && exists|done: ManagerView|
            {
                &&& only_table_changed(before, done, i)
                &&& table_is(done, table, i)
                &&& access::read_gives(done.tables[i], w, entries[0].0, now_secs, got)
                    && !engine::expired(before.tables[i].engine.ttls, entries[0].0, now_secs)
                    ==> got == Ok::<Option<Seq<u8>>, ErrorView>(Some(entries[0].1))
                &&& #[trigger] tcp::runs(
                    done,
                    CommandView::Mset { table, entries: entries.skip(1) },
                    later_ms,
                    w,
                    after,
                    step,
                )
            },
{
    lemma_table(before, table, i);
    let t = before.tables[i];
    if entries.len() == 0 {
        assert(mid.tables =~= before.tables);
    } else {
        let key = entries[0].0;
        let value = entries[0].1;
        let p = asked->Log_0;
        let started = tcp::put_started(t, key, value);
        assert(mid.tables =~= before.tables.update(i, started));
        let applied = tcp::batch_applied(started, p);
        let done = tcp::with_state(mid, i, applied);
        assert(manager::names_ascend(mid.tables) && manager::names_ascend(done.tables)) by {
            assert forall|a: int, b: int| 0 <= a < b < mid.tables.len() implies text::text_before(
                (#[trigger] mid.tables[a]).name,
                (#[trigger] mid.tables[b]).name,
            ) by {
                assert(text::text_before(before.tables[a].name, before.tables[b].name));
            }
            assert forall|a: int, b: int| 0 <= a < b < done.tables.len() implies text::text_before(
                (#[trigger] done.tables[a]).name,
                (#[trigger] done.tables[b]).name,
            ) by {
                assert(text::text_before(before.tables[a].name, before.tables[b].name));
            }
        }
        lemma_table(mid, table, i);
        lemma_table(done, table, i);
        let rest = entries.skip(1);
        assert(after.tables =~= tcp::with_state(done, i, tcp::mset_started(applied, rest)).tables);
        assert(tcp::runs(
            done,
            CommandView::Mset { table, entries: rest },
            later_ms,
            w,
            after,
            step,
        ));
        if access::read_gives(done.tables[i], w, key, now_secs, got) && !engine::expired(
            t.engine.ttls,
            key,
            now_secs,
        ) {
            let ops = engine::put_ops(key, value);
            assert(crate::storage::laws::last_op(ops, key) == Some(ops.last()));
            crate::storage::laws::law_batch_is_read_from_memory(
                started.engine,
                ops,
                t.engine.next_seq,
                now_ms,
                w.reads_of(t.name),
                key,
                now_secs,
                got,
            );
        }
    }
}

/// `EXPIRE` answers `:1` where a read of the key gives a value, and then the key is read as before until
/// that many seconds have passed, and gives nothing from then on; else it answers `:0` and changes
/// nothing. No other key is touched, and no other table.
pub proof fn law_expire_lets_a_key_go_in_time(
    before: ManagerView,
    table: Seq<char>,
    i: int,
    key: u128,
    seconds: u64,
    now_ms: u64,
    w: World,
    after: ManagerView,
    step: StepView,
    files: spec_fn(u64) -> FileView,
    other: u128,
    now_secs: u64,
)
    requires
        table_is(before, table, i),
        tcp::runs(before, CommandView::Expire { table, key, seconds }, now_ms, w, after, step),
        sstable::within(w.reads_of(table), sstable::fixed(files)),
        now_ms / 1000 + seconds <= u64::MAX,
        !engine::expired(before.tables[i].engine.ttls, key, now_secs),
    ensures
        only_table_changed(before, after, i),
        ({
            let was = before.tables[i].engine;
            let there = engine::value_of(was, files, key, now_ms / 1000) matches Ok(Some(_));
            &&& step == StepView::Reply(
                reply::number(
                    if there {
                        1
                    } else {
                        0
                    },
                ),
            )
            &&& !there ==> after == before
            &&& there ==> engine::value_of(after.tables[i].engine, files, other, now_secs) == (
            if other == key && now_secs >= now_ms / 1000 + seconds {
                Ok::<Option<Seq<u8>>, ErrorView>(None)
            } else {
                engine::value_of(was, files, other, now_secs)
            })
            &&& there ==> after.tables[i].engine.ttls.contains_key(key)
                && after.tables[i].engine.ttls[key] == now_ms / 1000 + seconds
        }),
{
    lemma_table(before, table, i);
    let t = before.tables[i];
    let at_secs = now_ms / 1000;
    let there = choose|there: bool| #[trigger]
        access::there_gives(t, w, key, at_secs, there) && (if there {
            after == tcp::with_state(before, i, access::expiring(t, key, seconds, at_secs)) && step
                == StepView::Reply(reply::number(1))
        } else {
            after == before && step == StepView::Reply(reply::number(0))
        });
    let got = choose|got: core::result::Result<Option<Seq<u8>>, ErrorView>| #[trigger]
        engine::value_gives(w.reads_of(t.name), t.engine, key, at_secs, got) && there
            == engine::is_there(got);
    engine::lemma_value_fixed(w.reads_of(t.name), files, t.engine, key, at_secs, got);
    if there {
        let at = at_secs.wrapping_add(seconds);
        assert(at == at_secs + seconds);
        crate::storage::laws::law_expiring_key_is_read_until_then(
            t.engine,
            key,
            at,
            files,
            other,
            now_secs,
        );
        assert(after.tables[i].engine == (EngineView {
            ttls: t.engine.ttls.insert(key, at),
            ..t.engine
        }));
    }
}

/// `FLUSH`, of one table or of all, is answered `+OK` and changes no read of any key, no index and no
/// name.
pub proof fn law_flush_changes_no_read(
    before: ManagerView,
    table: Option<Seq<char>>,
    now_ms: u64,
    w: World,
    after: ManagerView,
    step: StepView,
    i: int,
    files: spec_fn(u64) -> FileView,
    key: u128,
    now_secs: u64,
)
    requires
        manager::names_ascend(before.tables),
        tcp::runs(before, CommandView::Flush { table }, now_ms, w, after, step),
        0 <= i < before.tables.len(),
        before.tables[i].engine.memory.dom().finite(),
    ensures
        step == StepView::Reply(reply::line("+OK"@)),
        after.tables.len() == before.tables.len(),
        after.tables[i].name == before.tables[i].name,
        after.tables[i].indices == before.tables[i].indices,
        engine::value_of(after.tables[i].engine, files, key, now_secs) == engine::value_of(
            before.tables[i].engine,
            files,
            key,
            now_secs,
        ),
        table is None || table == Some(before.tables[i].name) ==> after.tables[i].engine.memory
            == Map::<u128, crate::types::EntryView>::empty(),
{
    crate::storage::laws::law_rotation_keeps_reads(
        before.tables[i].engine,
        files,
        key,
        now_secs,
    );
    if let Some(name) = table {
        manager::lemma_table_place(before.tables, name);
        if name == before.tables[i].name {
            manager::lemma_place_is(before.tables, name, i);
        }
    }
    let v = before.tables[i].engine;
    if v.memory.len() == 0 {
        assert(v.memory.dom() =~= Set::empty());
        assert(v.memory =~= Map::<u128, crate::types::EntryView>::empty());
    }
}

/// `TABLES` lists the name of every table once, in order; `CREATE TABLE` asks for the table to be opened,
/// and `BACKUP` for the tables to be copied; none of them changes anything by itself.
pub proof fn law_tables_are_listed_and_asked_for(
    before: ManagerView,
    c: CommandView,
    now_ms: u64,
    w: World,
    after: ManagerView,
    step: StepView,
)
    requires
        c is Tables || c is CreateTable || c is Backup,
        tcp::runs(before, c, now_ms, w, after, step),
    ensures
        after == before,
        match c {
            CommandView::CreateTable { table } => step == StepView::Create(table),
            CommandView::Backup { target_dir } => step == StepView::Backup(target_dir),
            _ => step == StepView::Reply(
                reply::document(
                    JsonView::Array(
                        Seq::new(
                            before.tables.len(),
                            |i: int| JsonView::String(before.tables[i].name),
                        ),
                    ),
                ),
            ),
        },
{
    assert(Seq::new(
        manager::names_of(before.tables).len(),
        |i: int| JsonView::String(manager::names_of(before.tables)[i]),
    ) =~= Seq::new(before.tables.len(), |i: int| JsonView::String(before.tables[i].name)));
}

// ---------------------------------------------------------------------------------------------
// Sessions
// ---------------------------------------------------------------------------------------------
/// The right password opens a session, and then every command that is none of the session's own is run;
/// a wrong one is refused and opens nothing.
pub proof fn law_password_opens_a_session(s: SessionView, input: Seq<char>, password: Seq<char>)
    requires
        text::trimmed(input).len() > 0,
    ensures
        crate::proto::codec::command_of(text::trimmed(input)) == Ok::<CommandView, ErrorView>(
            CommandView::Auth { password },
        ) && !s.authenticated && s.pass == Some(password) ==> tcp::line_step(s, input) == (
            SessionView { authenticated: true, pass: s.pass },
            tcp::LineView::Reply(reply::line("+OK"@)),
        ),
        crate::proto::codec::command_of(text::trimmed(input)) == Ok::<CommandView, ErrorView>(
            CommandView::Auth { password },
        ) && !s.authenticated && s.pass is Some && s.pass != Some(password) ==> tcp::line_step(
            s,
            input,
        ) == (s, tcp::LineView::Reply(reply::line("-ERR invalid password"@))),
        s.authenticated ==> match crate::proto::codec::command_of(text::trimmed(input)) {
            Ok(CommandView::Ping) => tcp::line_step(s, input).1 == tcp::LineView::Reply(
                reply::line("+PONG"@),
            ),
            Ok(CommandView::Auth { .. }) => tcp::line_step(s, input).1 == tcp::LineView::Reply(
                reply::line("+OK"@),
            ),
            Ok(CommandView::Quit) => tcp::line_step(s, input).1 == tcp::LineView::Close(
                reply::line("+OK"@),
            ),
            Ok(c) => tcp::line_step(s, input).1 == tcp::LineView::Run(c),
            Err(e) => tcp::line_step(s, input).1 == tcp::LineView::Reply(reply::failure(e)),
        },
{
}

// ---------------------------------------------------------------------------------------------
// Requests
// ---------------------------------------------------------------------------------------------
/// Text without a character.
pub open spec fn lacks(s: Seq<char>, c: char) -> bool {
    !s.contains(c)
}

proof fn lemma_lacks(s: Seq<char>, c: char)
    requires
        lacks(s, c),
    ensures
        text::place_of(s, seq![c], 0) is None,
{
    text::lemma_place_of(s, seq![c], 0);
    if let Some(i) = text::place_of(s, seq![c], 0) {
        assert(s.subrange(i, i + 1)[0] == s[i]);
        assert(s.contains(s[i]));
    }
}

proof fn lemma_parted(a: Seq<char>, c: char, b: Seq<char>)
    requires
        lacks(a, c),
    ensures
        text::place_of(a + seq![c] + b, seq![c], 0) == Some(a.len() as int),
        (a + seq![c] + b).take(a.len() as int) == a,
        (a + seq![c] + b).skip(a.len() as int + 1) == b,
{
    let all = a + seq![c] + b;
    let at = a.len() as int;
    assert(all.subrange(at, at + 1) =~= seq![c]);
    assert forall|i: int| 0 <= i < at implies !(#[trigger] text::occurs_at(all, seq![c], i)) by {
        if text::occurs_at(all, seq![c], i) {
            assert(all.subrange(i, i + 1)[0] == all[i]);
            assert(all[i] == a[i]);
            assert(a.contains(a[i]));
        }
    }
    text::lemma_place_is_first(all, seq![c], 0, at);
    assert(all.take(at) =~= a);
    assert(all.skip(at + 1) =~= b);
}

/// The target of a request is the second word of its first line, whatever follows that line.
pub proof fn law_request_line_names_the_target(
    method: Seq<char>,
    target: Seq<char>,
    version: Seq<char>,
    rest: Seq<char>,
)
    requires
        crate::proto::laws::is_word(method),
        crate::proto::laws::is_word(target),
        crate::proto::laws::is_word(version),
    ensures
        http::target_of(
            crate::proto::laws::spaced(seq![method, target, version]) + seq!['\r', '\n'] + rest,
        ) == target,
{
    let words = seq![method, target, version];
    let line = crate::proto::laws::spaced(words);
    let first = line + seq!['\r'];
    let all = line + seq!['\r', '\n'] + rest;
    reveal_strlit("\n");
    assert("\n"@ =~= seq!['\n']);
    assert(all =~= first + seq!['\n'] + rest);
    crate::proto::laws::lemma_spaced_chars(words, '\n');
    assert(lacks(first, '\n')) by {
        if first.contains('\n') {
            let i = choose|i: int| 0 <= i < first.len() && first[i] == '\n';
            assert(line[i] == first[i]);
            assert(line.contains(line[i]));
        }
    }
    lemma_parted(first, '\n', rest);
    crate::proto::laws::lemma_words_then_space(words, seq!['\r']);
}

/// A target is a path and, behind a question mark, its parameters.
pub proof fn law_target_is_path_and_parameters(path: Seq<char>, query: Seq<char>)
    requires
        lacks(path, '?'),
    ensures
        http::request_of(path + seq!['?'] + query) == (http::RequestView { path, query }),
        http::request_of(path) == (http::RequestView { path, query: Seq::empty() }),
{
    reveal_strlit("?");
    assert("?"@ =~= seq!['?']);
    lemma_parted(path, '?', query);
    lemma_lacks(path, '?');
}

/// A parameter is found by its name: the first with the name, whatever its value and whatever stands
/// before it under other names.
pub proof fn law_parameter_is_found_by_name(
    name: Seq<char>,
    value: Seq<char>,
    more: Seq<char>,
    key: Seq<char>,
)
    requires
        lacks(name, '='),
        lacks(name, '&'),
        lacks(value, '&'),
    ensures
        http::param(name + seq!['='] + value, key) == (if name == key {
            Some(value)
        } else {
            None
        }),
        http::param(name + seq!['='] + value + seq!['&'] + more, key) == (if name == key {
            Some(value)
        } else {
            http::param(more, key)
        }),
        lacks(key, '=') && lacks(key, '&') ==> http::param(key, key) is None,
{
    reveal_strlit("=");
    reveal_strlit("&");
    assert("="@ =~= seq!['=']);
    assert("&"@ =~= seq!['&']);
    let pair = name + seq!['='] + value;
    lemma_parted(name, '=', value);
    assert(text::pieces_up_to(value, "="@, 1) == seq![value]);
    assert(text::pieces_up_to(pair, "="@, 2) =~= seq![name, value]);
    assert(lacks(pair, '&')) by {
        if pair.contains('&') {
            let i = choose|i: int| 0 <= i < pair.len() && pair[i] == '&';
            if i < name.len() {
                assert(name[i] == '&');
            } else if i > name.len() {
                assert(value[i - name.len() - 1] == '&');
            }
        }
    }
    lemma_lacks(pair, '&');
    assert(text::pieces(pair, "&"@) =~= seq![pair]);
    lemma_parted(pair, '&', more);
    let rest = text::pieces(more, "&"@);
    let all = text::pieces(pair + seq!['&'] + more, "&"@);
    assert(all =~= seq![pair] + rest);
    assert(all.skip(1) =~= rest);
    assert(seq![pair].skip(1) =~= Seq::<Seq<char>>::empty());
    reveal_with_fuel(http::param_in, 3);
    if lacks(key, '=') && lacks(key, '&') {
        lemma_lacks(key, '=');
        lemma_lacks(key, '&');
        assert(text::pieces(key, "&"@) =~= seq![key]);
        assert(seq![key].skip(1) =~= Seq::<Seq<char>>::empty());
    }
}

/// The paths below the interface for programs are those that start with its name, and only those.
pub proof fn law_api_paths_start_with_its_name(rest: Seq<char>, path: Seq<char>)
    ensures
        http::is_api("/api/"@ + rest),
        http::is_api(path) ==> exists|more: Seq<char>| #[trigger] ("/api/"@ + more) == path,
{
    reveal_strlit("/api/");
    assert(("/api/"@ + rest).take("/api/"@.len() as int) =~= "/api/"@);
    if http::is_api(path) {
        assert("/api/"@ + path.skip("/api/"@.len() as int) =~= path);
    }
}

/// A response tells its status, the kind of its body and the number of its bytes, and then, behind an
/// empty line, the body itself.
pub proof fn law_responses_are_framed(r: http::ResponseView)
    ensures
        http::response_bytes(r) == encode_utf8(
            "HTTP/1.1 "@ + r.status + "\r\nContent-Type: "@ + r.content_type
                + "\r\nContent-Length: "@ + text::dec_text(encode_utf8(r.body).len())
                + "\r\nAccess-Control-Allow-Origin: *\r\nConnection: close\r\n\r\n"@,
        ) + encode_utf8(r.body),
{
}

/// Bytes that spell a document are shown as the document, other text as a text.
pub proof fn law_records_are_shown_as_documents(bytes: Seq<u8>, key: u128, texts: Map<u128, Seq<char>>)
    requires
        valid_utf8(bytes),
    ensures
        json::parsed_json(bytes) matches Some(v) ==> access::data_of(bytes) == v,
        json::parsed_json(bytes) is None ==> access::data_of(bytes) == JsonView::String(
            decode_utf8(bytes),
        ),
        query::value_at(
            access::record_row((key, bytes), texts),
            seq!["uuid"@],
        ) == Some(JsonView::String(names::shown(texts, key))),
        query::value_at(access::record_row((key, bytes), texts), seq!["data"@]) == Some(
            access::data_of(bytes),
        ),
{
    decode_utf8_encode_utf8(bytes);
    reveal_strlit("uuid");
    reveal_strlit("data");
    assert("uuid"@[0] != "data"@[0]);
    reveal_with_fuel(query::value_at, 3);
    assert(seq!["uuid"@].skip(1) =~= Seq::<Seq<char>>::empty());
    assert(seq!["data"@].skip(1) =~= Seq::<Seq<char>>::empty());
}

/// A request that is not refused: no password is set, it lies outside the interface for programs, or it
/// carries the password as its token.
pub open spec fn is_let_in(r: http::RequestView, pass: Option<Seq<char>>) -> bool {
    pass is None || !http::is_api(r.path) || http::param(r.query, "token"@) == pass
}

proof fn lemma_let_in(r: http::RequestView, pass: Option<Seq<char>>)
    requires
        is_let_in(r, pass),
    ensures
        !http::refused(r, pass),
{
}

proof fn lemma_paths()
    ensures
        "/api/get"@ != "/"@,
        "/api/get"@ != "/index.html"@,
        "/api/get"@ != "/api/table/create"@,
        "/api/get"@ != "/api/expire"@,
        "/api/get"@ != "/api/flush"@,
        "/api/get"@ != "/api/backup"@,
        "/api/get"@ != "/api/index/create"@,
        "/api/get"@ != "/api/tables"@,
        "/api/get"@ != "/api/stats"@,
        "/api/exists"@ != "/"@,
        "/api/exists"@ != "/index.html"@,
        "/api/exists"@ != "/api/table/create"@,
        "/api/exists"@ != "/api/expire"@,
        "/api/exists"@ != "/api/flush"@,
        "/api/exists"@ != "/api/backup"@,
        "/api/exists"@ != "/api/index/create"@,
        "/api/exists"@ != "/api/tables"@,
        "/api/exists"@ != "/api/stats"@,
        "/api/exists"@ != "/api/get"@,
        "/api/top"@ != "/"@,
        "/api/top"@ != "/index.html"@,
        "/api/top"@ != "/api/table/create"@,
        "/api/top"@ != "/api/expire"@,
        "/api/top"@ != "/api/flush"@,
        "/api/top"@ != "/api/backup"@,
        "/api/top"@ != "/api/index/create"@,
        "/api/top"@ != "/api/tables"@,
        "/api/top"@ != "/api/stats"@,
        "/api/top"@ != "/api/get"@,
        "/api/top"@ != "/api/exists"@,
        "/api/expire"@ != "/"@,
        "/api/expire"@ != "/index.html"@,
        "/api/expire"@ != "/api/table/create"@,
        "/api/table/create"@ != "/"@,
        "/api/table/create"@ != "/index.html"@,
        "/api/backup"@ != "/"@,
        "/api/backup"@ != "/index.html"@,
        "/api/backup"@ != "/api/table/create"@,
        "/api/backup"@ != "/api/expire"@,
        "/api/backup"@ != "/api/flush"@,
        "/api/flush"@ != "/"@,
        "/api/flush"@ != "/index.html"@,
        "/api/flush"@ != "/api/table/create"@,
        "/api/flush"@ != "/api/expire"@,
        "/api/index/create"@ != "/"@,
        "/api/index/create"@ != "/index.html"@,
        "/api/index/create"@ != "/api/table/create"@,
        "/api/index/create"@ != "/api/expire"@,
        "/api/index/create"@ != "/api/flush"@,
        "/api/index/create"@ != "/api/backup"@,
{
    reveal_strlit("/");
    reveal_strlit("/index.html");
    reveal_strlit("/api/table/create");
    reveal_strlit("/api/expire");
    reveal_strlit("/api/flush");
    reveal_strlit("/api/backup");
    reveal_strlit("/api/index/create");
    reveal_strlit("/api/tables");
    reveal_strlit("/api/stats");
    reveal_strlit("/api/get");
    reveal_strlit("/api/exists");
    reveal_strlit("/api/top");
    assert("/"@.len() == 1);
    assert("/index.html"@.len() == 11);
    assert("/api/table/create"@.len() == 17);
    assert("/api/expire"@.len() == 11);
    assert("/api/flush"@.len() == 10);
    assert("/api/backup"@.len() == 11);
    assert("/api/index/create"@.len() == 17);
    assert("/api/tables"@.len() == 11);
    assert("/api/stats"@.len() == 10);
    assert("/api/get"@.len() == 8);
    assert("/api/exists"@.len() == 11);
    assert("/api/top"@.len() == 8);
    assert("/api/get"@[5] != "/api/top"@[5]);
    assert("/index.html"@[1] != "/api/exists"@[1]);
    assert("/index.html"@[1] != "/api/expire"@[1]);
    assert("/index.html"@[1] != "/api/backup"@[1]);
    assert("/index.html"@[1] != "/api/tables"@[1]);
    assert("/api/exists"@[7] != "/api/expire"@[7]);
    assert("/api/exists"@[5] != "/api/backup"@[5]);
    assert("/api/exists"@[5] != "/api/tables"@[5]);
    assert("/api/expire"@[5] != "/api/backup"@[5]);
    assert("/api/expire"@[5] != "/api/tables"@[5]);
    assert("/api/table/create"@[5] != "/api/index/create"@[5]);
    assert("/api/flush"@[5] != "/api/stats"@[5]);
}

/// A response shows the value under a key: as a document, with the table and the key; or that there is
/// none, or that it could not be read.
pub open spec fn shows_read(
    r: http::ResponseView,
    t: TableState,
    w: World,
    key: u128,
    now_secs: u64,
    got: core::result::Result<Option<Seq<u8>>, ErrorView>,
) -> bool {
    match got {
        Ok(Some(value)) => exists|left: int| #[trigger]
            access::ttl_gives(t, w, key, now_secs, left) && r == (http::ResponseView {
                status: "200 OK"@,
                content_type: "application/json"@,
                body: json::json_text(found_document(t.name, key, value, left)),
            }),
        Ok(None) => r.status == "404 Not Found"@,
        Err(_) => r.status == "500 Internal Error"@,
    }
}

/// The document that shows the value under a key, and the seconds until the key expires.
pub open spec fn found_document(
    table: Seq<char>,
    key: u128,
    value: Seq<u8>,
    left: int,
) -> JsonView {
    JsonView::Object(
        map!["found"@ => JsonView::Bool(true), "table"@ => JsonView::String(table), "uuid"@
            => JsonView::String(crate::types::uuid_text(key)), "ttl_seconds"@ => reply::signed(left),
            "data"@ => access::data_of(value)],
    )
}

/// `/api/get` changes nothing, and shows the value under the key of its parameter `uuid` in the table of
/// its parameter `table`: as a document, with the key and the seconds until it expires; where a read
/// gives none, that there is none, and where it fails, the error.
pub proof fn law_get_request_shows_what_is_read(
    before: ManagerView,
    query: Seq<char>,
    pass: Option<Seq<char>>,
    table: Seq<char>,
    i: int,
    name: Seq<char>,
    key: u128,
    now_ms: u64,
    w: World,
    after: ManagerView,
    step: http::HttpStepView,
)
    requires
        is_let_in(http::RequestView { path: "/api/get"@, query }, pass),
        http::param(query, "table"@) == Some(table),
        http::param(query, "uuid"@) == Some(name),
        crate::types::key_of_text(name) == Ok::<u128, ErrorView>(key),
        table_is(before, table, i),
        http::handles(
            before,
            http::RequestView { path: "/api/get"@, query },
            pass,
            now_ms,
            w,
            after,
            step,
        ),
    ensures
        after == before,
        step is Respond,
        exists|got: core::result::Result<Option<Seq<u8>>, ErrorView>| #[trigger]
            access::read_gives(before.tables[i], w, key, now_ms / 1000, got) && shows_read(
                step->Respond_0,
                before.tables[i],
                w,
                key,
                now_ms / 1000,
                got,
            ),
{
    lemma_let_in(http::RequestView { path: "/api/get"@, query }, pass);
    lemma_paths();
    lemma_table(before, table, i);
    let t = before.tables[i];
    let r = step->Respond_0;
    assert(http::get_responds(t, w, key, now_ms / 1000, r));
    let got = choose|got: core::result::Result<Option<Seq<u8>>, ErrorView>| #[trigger]
        access::read_gives(t, w, key, now_ms / 1000, got) && http::shows_record(
            t,
            w,
            key,
            now_ms / 1000,
            got,
            r,
        );
    assert(access::read_gives(t, w, key, now_ms / 1000, got));
    if let Ok(Some(value)) = got {
        let left = choose|left: int| #[trigger]
            access::ttl_gives(t, w, key, now_ms / 1000, left) && r == http::record_response(
                t,
                key,
                value,
                left,
            );
        let fields = reply::no_fields().insert("found"@, JsonView::Bool(true)).insert(
            "table"@,
            JsonView::String(t.name),
        ).insert("uuid"@, JsonView::String(crate::types::uuid_text(key))).insert(
            "ttl_seconds"@,
            reply::signed(left),
        ).insert("data"@, access::data_of(value));
        assert(fields =~= found_document(table, key, value, left)->Object_0);
        assert(r.body == json::json_text(found_document(table, key, value, left)));
    }
}

/// `/api/exists` changes nothing, and tells whether a read of the key gives a value.
pub proof fn law_exists_request_tells_what_is_read(
    before: ManagerView,
    query: Seq<char>,
    pass: Option<Seq<char>>,
    table: Seq<char>,
    i: int,
    name: Seq<char>,
    key: u128,
    now_ms: u64,
    w: World,
    after: ManagerView,
    step: http::HttpStepView,
)
    requires
        is_let_in(http::RequestView { path: "/api/exists"@, query }, pass),
        http::param(query, "table"@) == Some(table),
        http::param(query, "uuid"@) == Some(name),
        crate::types::key_of_text(name) == Ok::<u128, ErrorView>(key),
        table_is(before, table, i),
        http::handles(
            before,
            http::RequestView { path: "/api/exists"@, query },
            pass,
            now_ms,
            w,
            after,
            step,
        ),
    ensures
        after == before,
        step is Respond,
        exists|got: core::result::Result<Option<Seq<u8>>, ErrorView>| #[trigger]
            access::read_gives(before.tables[i], w, key, now_ms / 1000, got) && step->Respond_0 == (
            http::ResponseView {
                status: "200 OK"@,
                content_type: "application/json"@,
                body: json::json_text(
                    JsonView::Object(
                        map!["uuid"@ => JsonView::String(crate::types::uuid_text(key)), "exists"@
                            => JsonView::Bool(got matches Ok(Some(_)))],
                    ),
                ),
            }),
{
    lemma_let_in(http::RequestView { path: "/api/exists"@, query }, pass);
    lemma_paths();
    lemma_table(before, table, i);
    let t = before.tables[i];
    let now_secs = now_ms / 1000;
    let r = step->Respond_0;
    assert(http::exists_responds(t, w, key, now_secs, r));
    let there = choose|there: bool| #[trigger]
        access::there_gives(t, w, key, now_secs, there) && r == http::exists_response(key, there);
    let got = choose|got: core::result::Result<Option<Seq<u8>>, ErrorView>| #[trigger]
        engine::value_gives(w.reads_of(t.name), t.engine, key, now_secs, got) && there
            == engine::is_there(got);
    assert(access::read_gives(t, w, key, now_secs, got));
    assert(reply::no_fields().insert(
        "uuid"@,
        JsonView::String(crate::types::uuid_text(key)),
    ).insert("exists"@, JsonView::Bool(there))
        =~= map!["uuid"@ => JsonView::String(crate::types::uuid_text(key)), "exists"@
        => JsonView::Bool(got matches Ok(Some(_)))]);
}

/// `/api/top` changes nothing, and shows the best players of the field of its parameter `field`: as many
/// as its parameter `limit` says, or 50.
#[verifier::rlimit(40)]
pub proof fn law_top_request_shows_the_best(
    before: ManagerView,
    query: Seq<char>,
    pass: Option<Seq<char>>,
    table: Seq<char>,
    i: int,
    field: Seq<char>,
    k: int,
    n: usize,
    now_ms: u64,
    w: World,
    after: ManagerView,
    step: http::HttpStepView,
)
    requires
        is_let_in(http::RequestView { path: "/api/top"@, query }, pass),
        http::param(query, "table"@) == Some(table),
        http::param(query, "field"@) == Some(field),
        http::param(query, "limit"@) == Some(text::dec_text(n as nat)) || http::param(
            query,
            "limit"@,
        ) is None && n == 50,
        table_is(before, table, i),
        secondary::distinct_paths(before.tables[i].indices),
        0 <= k < before.tables[i].indices.len(),
        before.tables[i].indices[k].path == field,
        http::handles(
            before,
            http::RequestView { path: "/api/top"@, query },
            pass,
            now_ms,
            w,
            after,
            step,
        ),
    ensures
        after == before,
        ({
            let rows = tcp::top_rows(before.tables[i].indices[k], n);
            step == http::HttpStepView::Respond(
                http::ResponseView {
                    status: "200 OK"@,
                    content_type: "application/json"@,
                    body: json::json_text(
                        JsonView::Object(
                            map!["table"@ => JsonView::String(table), "field"@
                                => JsonView::String(field), "count"@ => reply::count(rows.len()),
                                "rankings"@ => reply::rank_list(rows, before.tables[i].names)],
                        ),
                    ),
                },
            )
        }),
{
    lemma_let_in(http::RequestView { path: "/api/top"@, query }, pass);
    lemma_paths();
    lemma_table(before, table, i);
    crate::proto::laws::law_number_text_reads_back(n as nat, usize::MAX as nat);
    let t = before.tables[i];
    law_index_is_found_by_its_field(t.indices, k);
    let r = step->Respond_0;
    assert(r == http::top_response(t, field, n));
    let rows = tcp::top_rows(t.indices[k], n);
    assert(reply::no_fields().insert("table"@, JsonView::String(t.name)).insert(
        "field"@,
        JsonView::String(field),
    ).insert("count"@, reply::count(rows.len())).insert(
        "rankings"@,
        reply::rank_list(rows, t.names),
    ) =~= map!["table"@ => JsonView::String(table), "field"@ => JsonView::String(field), "count"@
        => reply::count(rows.len()), "rankings"@ => reply::rank_list(rows, t.names)]);
}

/// An index is found by its field.
pub proof fn law_index_is_found_by_its_field(s: Seq<IndexView>, k: int)
    requires
        secondary::distinct_paths(s),
        0 <= k < s.len(),
    ensures
        secondary::index_place(s, s[k].path) == Some(k),
    decreases s.len(),
{
    if k < s.len() - 1 {
        let rest = s.drop_last();
        assert(s[k].path != s[s.len() - 1].path);
        assert forall|i: int, j: int| 0 <= i < j < rest.len() implies (#[trigger] rest[i]).path != (
        #[trigger] rest[j]).path by {
            assert(s[i].path != s[j].path);
        }
        law_index_is_found_by_its_field(rest, k);
    }
}

/// `/api/expire` lets a key go after the seconds of its parameter `seconds`, or 60, just as the command
/// does; `/api/table/create` asks for the table of its parameter `name`, without white space around it
/// and in lower case; `/api/backup` asks for a copy.
#[verifier::rlimit(40)]
pub proof fn law_requests_ask_for_what_commands_do(
    before: ManagerView,
    r: http::RequestView,
    pass: Option<Seq<char>>,
    table: Seq<char>,
    i: int,
    name: Seq<char>,
    key: u128,
    n: u64,
    now_ms: u64,
    w: World,
    after: ManagerView,
    step: http::HttpStepView,
)
    requires
        is_let_in(r, pass),
        http::handles(before, r, pass, now_ms, w, after, step),
        table_is(before, table, i),
        crate::types::key_of_text(name) == Ok::<u128, ErrorView>(key),
    ensures
        r.path == "/api/expire"@ && http::param(r.query, "table"@) == Some(table) && http::param(
            r.query,
            "uuid"@,
        ) == Some(name) && (http::param(r.query, "seconds"@) == Some(text::dec_text(n as nat))
            || http::param(r.query, "seconds"@) is None && n == 60) ==> exists|b: Seq<u8>| #[trigger]
            tcp::runs(
                before,
                CommandView::Expire { table, key, seconds: n },
                now_ms,
                w,
                after,
                StepView::Reply(b),
            ),
        r.path == "/api/flush"@ && http::param(r.query, "table"@) == Some(table) ==> tcp::runs(
            before,
            CommandView::Flush { table: Some(table) },
            now_ms,
            w,
            after,
            StepView::Reply(reply::line("+OK"@)),
        ),
        r.path == "/api/backup"@ ==> after == before && step == http::HttpStepView::Backup,
        r.path == "/api/table/create"@ && http::param(r.query, "name"@) == Some(name) && text::trimmed(
            name,
        ) == name && text::lower_text(name).len() > 0 ==> after == before && step
            == http::HttpStepView::Create(text::lower_text(name)),
        r.path == "/api/index/create"@ && http::param(r.query, "table"@) == Some(table)
            && http::param(r.query, "field"@) == Some(name) && name.len() > 0 ==> exists|
            b: Seq<u8>,
        | #[trigger]
            tcp::runs(
                before,
                CommandView::IndexCreate { table, path: name },
                now_ms,
                w,
                after,
                StepView::Reply(b),
            ),
{
    lemma_let_in(r, pass);
    lemma_paths();
    lemma_table(before, table, i);
    let t = before.tables[i];
    let now_secs = now_ms / 1000;
    if r.path == "/api/expire"@ && http::param(r.query, "table"@) == Some(table) && http::param(
        r.query,
        "uuid"@,
    ) == Some(name) && (http::param(r.query, "seconds"@) == Some(text::dec_text(n as nat))
        || http::param(r.query, "seconds"@) is None && n == 60) {
        crate::proto::laws::law_number_text_reads_back(n as nat, u64::MAX as nat);
        assert(http::expire_runs(before, r.query, now_secs, w, after, step));
        let done = choose|done: bool| #[trigger]
            access::there_gives(t, w, key, now_secs, done) && step == http::HttpStepView::Respond(
                http::expire_response(key, done, n as nat),
            ) && after == (if done {
                tcp::with_state(before, i, access::expiring(t, key, n, now_secs))
            } else {
                before
            });
        let b = reply::number(
            if done {
                1
            } else {
                0
            },
        );
        assert(tcp::expire_runs(before, i, key, n, now_secs, w, after, StepView::Reply(b)));
        assert(tcp::runs(
            before,
            CommandView::Expire { table, key, seconds: n },
            now_ms,
            w,
            after,
            StepView::Reply(b),
        ));
    }
    if r.path == "/api/index/create"@ && http::param(r.query, "table"@) == Some(table)
        && http::param(r.query, "field"@) == Some(name) && name.len() > 0 {
        assert(http::index_runs(before, r.query, now_secs, w, after, step));
        let made = choose|made: core::result::Result<TableState, ErrorView>| #[trigger]
            access::index_gives(t, w, name, now_secs, made) && match made {
                Err(e) => after == before && step == http::HttpStepView::Respond(
                    http::shows_document(
                        "500 Internal Error"@,
                        http::error_document(crate::types::error_text(e)),
                    ),
                ),
                Ok(x) => after == tcp::with_state(before, i, x) && step
                    == http::HttpStepView::Respond(
                    http::shows_document(
                        "200 OK"@,
                        JsonView::Object(
                            reply::no_fields().insert("success"@, JsonView::Bool(true)).insert(
                                "table"@,
                                JsonView::String(table),
                            ).insert("created"@, JsonView::String(name)),
                        ),
                    ),
                ),
            };
        let b = match made {
            Err(e) => reply::failure(e),
            Ok(_) => reply::line("+INDEX CREATED "@ + table + ":"@ + name),
        };
        assert(tcp::index_runs(before, i, table, name, now_secs, w, after, StepView::Reply(b)));
        assert(tcp::runs(
            before,
            CommandView::IndexCreate { table, path: name },
            now_ms,
            w,
            after,
            StepView::Reply(b),
        ));
    }
}

// ---------------------------------------------------------------------------------------------
// Commands on rankings
// ---------------------------------------------------------------------------------------------
/// The `k`-th index of a table is on a field.
pub open spec fn index_is(t: TableState, path: Seq<char>, k: int) -> bool {
    secondary::distinct_paths(t.indices) && 0 <= k < t.indices.len() && t.indices[k].path == path
}

/// Each command on a ranking changes nothing and answers, from the index of its field, the rows that it
/// asks for: the best, those around a key, those around a score, those between two scores, or those
/// between two ranks, from the first to the last.
#[verifier::rlimit(40)]
pub proof fn law_ranking_commands_answer_their_rows(
    before: ManagerView,
    table: Seq<char>,
    i: int,
    path: Seq<char>,
    k: int,
    c: CommandView,
    now_ms: u64,
    w: World,
    after: ManagerView,
    step: StepView,
)
    requires
        table_is(before, table, i),
        index_is(before.tables[i], path, k),
        tcp::runs(before, c, now_ms, w, after, step),
    ensures
        ({
            let x = before.tables[i].indices[k];
            let texts = before.tables[i].names;
            let s = secondary::standings(x.scores);
            let answers = |rows: Seq<(u128, u64, nat)>|
                after == before && step == StepView::Reply(
                    reply::document(reply::rank_list(rows, texts)),
                );
            match c {
                CommandView::Top { table: t, path: p, limit } => t == table && p == path ==> answers(
                    tcp::top_rows(x, limit),
                ),
                CommandView::RankKey { table: t, path: p, key, limit } => t == table && p == path
                    ==> if x.scores.contains_key(key) {
                    answers(tcp::rows_around_key(x, key, limit))
                } else {
                    after == before && step == StepView::Reply(reply::nil())
                },
                CommandView::RankScore { table: t, path: p, score, limit } => t == table && p == path
                    ==> answers(tcp::rows_around_score(x, score, limit)),
                CommandView::RankRangeScore { table: t, path: p, min, max, limit } => t == table && p
                    == path ==> answers(tcp::rows_between(x, min, max, limit)),
                CommandView::RankRange { table: t, path: p, start, end } => t == table && p == path
                    ==> exists|rows: Seq<(u128, u64, nat)>|
                    {
                        let last = if end < s.len() { end as int } else { s.len() as int };
                        &&& after == before
                        &&& step == StepView::Reply(
                            reply::document(#[trigger] reply::rank_list(rows, texts)),
                        )
                        &&& rows.len() == if 1 <= start && start <= last { last - start + 1 } else { 0 }
                        &&& forall|rank: int|
                            #![trigger s[rank - 1]]
                            1 <= start <= rank <= last ==> rows[rank - start] == (
                                s[rank - 1].0,
                                s[rank - 1].1,
                                rank as nat,
                            )
                    },
                _ => true,
            }
        }),
{
    lemma_table(before, table, i);
    law_index_is_found_by_its_field(before.tables[i].indices, k);
    if let CommandView::RankRange { table: t, path: p, start, end } = c {
        if t == table && p == path {
            let s = secondary::standings(before.tables[i].indices[k].scores);
            let rows = secondary::rank_rows(s, start as int, end as int);
            crate::index::laws::law_rows_of_ranks(s, start as int, end as int);
            assert(step == StepView::Reply(
                reply::document(reply::rank_list(rows, before.tables[i].names)),
            ));
        }
    }
}

/// `RANK` changes nothing and answers the player as it was written, with its rank, its score, and the
/// number of players; a player without a score is answered by nothing.
pub proof fn law_rank_answers_rank_and_score(
    before: ManagerView,
    table: Seq<char>,
    i: int,
    path: Seq<char>,
    k: int,
    key: u128,
    now_ms: u64,
    w: World,
    after: ManagerView,
    step: StepView,
)
    requires
        table_is(before, table, i),
        index_is(before.tables[i], path, k),
        tcp::runs(before, CommandView::Rank { table, path, key }, now_ms, w, after, step),
    ensures
        after == before,
        ({
            let scores = before.tables[i].indices[k].scores;
            step == StepView::Reply(
                if scores.contains_key(key) {
                    reply::document(
                        JsonView::Object(
                            map!["uuid"@ => JsonView::String(
                                names::shown(before.tables[i].names, key),
                            ), "table"@ => JsonView::String(table), "rank"@ => reply::count(
                                rank_in(scores, key) as nat,
                            ), "score"@ => json::float_json(scores[key]), "total_ranked"@
                                => reply::count(scores.len())],
                        ),
                    )
                } else {
                    reply::nil()
                },
            )
        }),
{
    lemma_table(before, table, i);
    law_index_is_found_by_its_field(before.tables[i].indices, k);
    let scores = before.tables[i].indices[k].scores;
    let texts = before.tables[i].names;
    assert(reply::no_fields().insert("uuid"@, JsonView::String(names::shown(texts, key))).insert(
        "table"@,
        JsonView::String(table),
    ).insert("rank"@, reply::count(rank_in(scores, key) as nat)).insert(
        "score"@,
        json::float_json(scores[key]),
    ).insert("total_ranked"@, reply::count(scores.len())) =~= map!["uuid"@ => JsonView::String(
        names::shown(texts, key),
    ), "table"@ => JsonView::String(table), "rank"@ => reply::count(
        rank_in(scores, key) as nat,
    ), "score"@ => json::float_json(scores[key]), "total_ranked"@ => reply::count(scores.len())]);
}

/// A command on a ranking whose table or index is missing is answered that there is no such index.
pub proof fn law_missing_index_is_told(
    before: ManagerView,
    table: Seq<char>,
    path: Seq<char>,
    c: CommandView,
    now_ms: u64,
    w: World,
    after: ManagerView,
    step: StepView,
)
    requires
        forall|i: int, k: int|
            #![trigger before.tables[i].indices[k]]
            0 <= i < before.tables.len() && before.tables[i].name == table && 0 <= k
                < before.tables[i].indices.len() ==> before.tables[i].indices[k].path != path,
        match c {
            CommandView::Top { table: t, path: p, .. } => t == table && p == path,
            CommandView::Rank { table: t, path: p, .. } => t == table && p == path,
            CommandView::RankKey { table: t, path: p, .. } => t == table && p == path,
            CommandView::RankScore { table: t, path: p, .. } => t == table && p == path,
            CommandView::RankRangeScore { table: t, path: p, .. } => t == table && p == path,
            CommandView::RankRange { table: t, path: p, .. } => t == table && p == path,
            _ => false,
        },
        tcp::runs(before, c, now_ms, w, after, step),
    ensures
        after == before,
        step == StepView::Reply(reply::no_index(table, path)),
{
    manager::lemma_table_place(before.tables, table);
    if let Some(i) = manager::table_place(before.tables, table) {
        lemma_no_index(before.tables[i].indices, path);
    }
}

proof fn lemma_no_index(s: Seq<IndexView>, path: Seq<char>)
    requires
        forall|k: int| 0 <= k < s.len() ==> (#[trigger] s[k]).path != path,
    ensures
        secondary::index_place(s, path) is None,
    decreases s.len(),
{
    if s.len() > 0 {
        assert(s[s.len() - 1].path != path);
        assert forall|k: int| 0 <= k < s.drop_last().len() implies (
        #[trigger] s.drop_last()[k]).path != path by {
            assert(s[k].path != path);
        }
        lemma_no_index(s.drop_last(), path);
    }
}

/// The rows of a ranking are shown in their order, each by its rank, the player as it was written, and
/// the score: a number where it is finite, else nothing.
pub proof fn law_rows_show_rank_player_and_score(
    rows: Seq<(u128, u64, nat)>,
    texts: Map<u128, Seq<char>>,
    i: int,
)
    requires
        0 <= i < rows.len(),
        rows[i].2 <= u64::MAX,
    ensures
        reply::rank_list(rows, texts) matches JsonView::Array(items) && items.len() == rows.len()
            && items[i] == JsonView::Object(
            map!["rank"@ => JsonView::Number(JsonNumber::PosInt(rows[i].2 as u64)), "uuid"@
                => JsonView::String(names::shown(texts, rows[i].0)), "score"@ => if rows[i].1
                % 0x8000_0000_0000_0000 < 0x7ff0_0000_0000_0000 {
                JsonView::Number(JsonNumber::Float(rows[i].1))
            } else {
                JsonView::Null
            }],
        ),
{
    let row = rows[i];
    assert(reply::no_fields().insert("rank"@, reply::count(row.2)).insert(
        "uuid"@,
        JsonView::String(names::shown(texts, row.0)),
    ).insert("score"@, json::float_json(row.1)) =~= map!["rank"@ => JsonView::Number(
        JsonNumber::PosInt(row.2 as u64),
    ), "uuid"@ => JsonView::String(names::shown(texts, row.0)), "score"@ => json::float_json(
        row.1,
    )]);
}

/// `INDEX LIST` changes nothing, and lists the fields of the table's indices in their order; of a table
/// that is missing, an empty list.
pub proof fn law_index_list_names_the_fields(
    before: ManagerView,
    table: Seq<char>,
    i: int,
    now_ms: u64,
    w: World,
    after: ManagerView,
    step: StepView,
)
    requires
        table_is(before, table, i),
        tcp::runs(before, CommandView::IndexList { table }, now_ms, w, after, step),
    ensures
        after == before,
        step == StepView::Reply(
            reply::document(
                JsonView::Array(
                    Seq::new(
                        before.tables[i].indices.len(),
                        |k: int| JsonView::String(before.tables[i].indices[k].path),
                    ),
                ),
            ),
        ),
{
    lemma_table(before, table, i);
    let paths = secondary::index_paths(before.tables[i].indices);
    assert(Seq::new(paths.len(), |k: int| JsonView::String(paths[k])) =~= Seq::new(
        before.tables[i].indices.len(),
        |k: int| JsonView::String(before.tables[i].indices[k].path),
    ));
}

/// `STATS` of a table changes nothing, and tells the table's name, the number of its records, of the
/// entries in its memory table and of those that wait, of its tables on disk, the size of its files, and
/// its indexed fields.
#[verifier::rlimit(40)]
pub proof fn law_stats_tell_the_figures(
    before: ManagerView,
    table: Seq<char>,
    i: int,
    now_ms: u64,
    w: World,
    after: ManagerView,
    step: StepView,
)
    requires
        table_is(before, table, i),
        tcp::runs(before, CommandView::Stats { table: Some(table) }, now_ms, w, after, step),
    ensures
        after == before,
        exists|records: Option<u64>, size: u64| #[trigger]
            access::total_gives(before.tables[i], w, records) && #[trigger] w.tells_size(table, size)
                && step == StepView::Reply(
                reply::pretty_document(
                    JsonView::Object(
                        map!["table"@ => JsonView::String(table), "total_records"@
                            => match records {
                            Some(n) => JsonView::Number(JsonNumber::PosInt(n)),
                            None => JsonView::Null,
                        }, "active_memtable_entries"@ => reply::count(
                            before.tables[i].engine.memory.len(),
                        ), "immutable_memtables"@ => reply::count(
                            engine::waiting_total(
                                before.tables[i].engine.waiting,
                                before.tables[i].engine.waiting.len() as int,
                            ) as nat,
                        ), "sstable_count"@ => reply::count(before.tables[i].engine.tables.len()),
                            "disk_size_bytes"@ => JsonView::Number(JsonNumber::PosInt(size)),
                            "indexed_fields"@ => reply::text_items(
                            secondary::index_paths(before.tables[i].indices),
                        )],
                    ),
                ),
            ),
{
    lemma_table(before, table, i);
    let t = before.tables[i];
    let b = step->Reply_0;
    assert(tcp::stats_replies(before, w, Some(table), b));
    let fields = choose|fields: Map<Seq<char>, JsonView>| #[trigger]
        tcp::stats_give(t, w, fields) && b == reply::pretty_document(
            JsonView::Object(
                fields.insert(
                    "indexed_fields"@,
                    reply::text_items(secondary::index_paths(t.indices)),
                ),
            ),
        );
    let (records, size) = choose|records: Option<u64>, size: u64| #[trigger]
        access::total_gives(t, w, records) && #[trigger] w.tells_size(t.name, size) && fields
            == tcp::table_stats(t, records, size);
    assert(access::total_gives(t, w, records) && w.tells_size(table, size));
    assert(fields.insert(
        "indexed_fields"@,
        reply::text_items(secondary::index_paths(t.indices)),
    ) =~= map!["table"@ => JsonView::String(table), "total_records"@ => match records {
        Some(n) => JsonView::Number(JsonNumber::PosInt(n)),
        None => JsonView::Null,
    }, "active_memtable_entries"@ => reply::count(t.engine.memory.len()), "immutable_memtables"@
        => reply::count(
        engine::waiting_total(t.engine.waiting, t.engine.waiting.len() as int) as nat,
    ), "sstable_count"@ => reply::count(t.engine.tables.len()), "disk_size_bytes"@
        => JsonView::Number(JsonNumber::PosInt(size)), "indexed_fields"@ => reply::text_items(
        secondary::index_paths(t.indices),
    )]);
}

// ---------------------------------------------------------------------------------------------
// Fields of documents
// ---------------------------------------------------------------------------------------------
/// `JSON.SET` on a key that no other write holds, whose value can be read, asks for a record to be logged;
/// once that is done it is answered `+OK`, and what a read of the key may give, unless the key has
/// expired, is the document that was there, or an empty object, with the value that the text stands for
/// at the path; all that parts from the path stays.
#[verifier::rlimit(40)]
pub proof fn law_json_set_is_answered_and_read(
    before: ManagerView,
    table: Seq<char>,
    i: int,
    key: u128,
    path: Seq<char>,
    raw: Seq<char>,
    now_ms: u64,
    w: World,
    mid: ManagerView,
    asked: StepView,
    later_ms: u64,
    after: ManagerView,
    step: StepView,
    now_secs: u64,
    got: core::result::Result<Option<Seq<u8>>, ErrorView>,
    other: Seq<Seq<char>>,
    fork: int,
)
    requires
        table_is(before, table, i),
        before.tables[i].engine.memory.dom().finite(),
        !before.tables[i].held.contains(key),
        forall|e: ErrorView|
            !(#[trigger] access::read_gives(before.tables[i], w, key, now_ms / 1000, Err(e))),
        tcp::runs(
            before,
            CommandView::JsonSet { table, key, path, value: raw },
            now_ms,
            w,
            mid,
            asked,
        ),
        asked matches StepView::Log(p) ==> tcp::write_goes_on(mid, p, Ok(()), later_ms, after, step),
        !engine::expired(before.tables[i].engine.ttls, key, now_secs),
        access::read_gives(after.tables[i], w, key, now_secs, got),
        0 <= fork < query::path_parts(path).len(),
        fork < other.len(),
        forall|k: int| 0 <= k < fork ==> query::path_parts(path)[k] == #[trigger] other[k],
        query::path_parts(path)[fork] != other[fork],
    ensures
        asked is Log,
        step == StepView::Reply(reply::line("+OK"@)),
        only_table_changed(before, after, i),
        exists|was: Option<Seq<u8>>, d: JsonView|
            {
                let old_document = match was {
                    Some(bytes) => match json::parsed_json(bytes) {
                        Some(v) => v,
                        None => JsonView::Object(Map::empty()),
                    },
                    None => JsonView::Object(Map::empty()),
                };
                &&& #[trigger] access::read_gives(
                    before.tables[i],
                    w,
                    key,
                    now_ms / 1000,
                    Ok::<Option<Seq<u8>>, ErrorView>(was),
                )
                &&& got == Ok::<Option<Seq<u8>>, ErrorView>(
                    Some(encode_utf8(#[trigger] json::json_text(d))),
                )
                &&& query::value_at(d, query::path_parts(path)) == Some(query::raw_value(raw))
                &&& query::value_at(d, other) == query::value_at(old_document, other)
                &&& json::whole(d, 127) ==> json::parsed_json(encode_utf8(json::json_text(d)))
                    == Some(d)
            },
{
    lemma_table(before, table, i);
    let t = before.tables[i];
    assert(tcp::json_set_runs(
        before,
        CommandView::JsonSet { table, key, path, value: raw },
        t,
        table,
        key,
        path,
        raw,
        now_ms,
        w,
        mid,
        asked,
    ));
    let c = CommandView::JsonSet { table, key, path, value: raw };
    let read = choose|read: core::result::Result<Option<Seq<u8>>, ErrorView>| #[trigger]
        access::read_gives(t, w, key, now_ms / 1000, read) && match read {
            Err(e) => mid == before && asked == StepView::Reply(reply::failure(e)),
            Ok(v) => documents::parses_back(v, path, raw) && tcp::put_runs(
                before,
                c,
                table,
                key,
                documents::updated_bytes(v, path, raw),
                now_ms,
                mid,
                asked,
            ),
        };
    assert(read is Ok) by {
        if let Err(e) = read {
            assert(access::read_gives(t, w, key, now_ms / 1000, Err(e)));
        }
    }
    let was = read->Ok_0;
    let parts = query::path_parts(path);
    let d = documents::updated_document(was, path, raw);
    let value = documents::updated_bytes(was, path, raw);
    let started = tcp::put_started(t, key, value);
    let p = asked->Log_0;
    assert(mid.tables =~= before.tables.update(i, started));
    assert(manager::names_ascend(mid.tables)) by {
        assert forall|a: int, b: int| 0 <= a < b < mid.tables.len() implies text::text_before(
            (#[trigger] mid.tables[a]).name,
            (#[trigger] mid.tables[b]).name,
        ) by {
            assert(text::text_before(before.tables[a].name, before.tables[b].name));
        }
    }
    lemma_table(mid, table, i);
    assert(after.tables[i] == tcp::batch_applied(started, p));
    let ops = engine::put_ops(key, value);
    assert(crate::storage::laws::last_op(ops, key) == Some(ops.last()));
    crate::storage::laws::law_batch_is_read_from_memory(
        started.engine,
        ops,
        t.engine.next_seq,
        now_ms,
        w.reads_of(t.name),
        key,
        now_secs,
        got,
    );
    query::law_set_value_is_found(documents::document_of(was), parts, query::raw_value(raw));
    query::law_set_value_keeps_the_rest(
        documents::document_of(was),
        parts,
        query::raw_value(raw),
        other,
        fork,
    );
    assert(access::read_gives(
        t,
        w,
        key,
        now_ms / 1000,
        Ok::<Option<Seq<u8>>, ErrorView>(was),
    ));
    assert(got == Ok::<Option<Seq<u8>>, ErrorView>(Some(encode_utf8(json::json_text(d)))));
}

// ---------------------------------------------------------------------------------------------
// Measures and figures
// ---------------------------------------------------------------------------------------------
/// The measures of a field tell the field, how many numbers there are, their sum and mean as given, and
/// the least and the greatest of them, which are 0 where there are none.
pub proof fn law_measures_tell_the_figures(
    field: Seq<char>,
    numbers: Seq<u64>,
    sum: u64,
    avg: u64,
)
    ensures
        documents::measures(field, numbers, sum, avg) == JsonView::Object(
            map!["field"@ => JsonView::String(field), "count"@ => reply::count(numbers.len()), "sum"@
                => json::float_json(sum), "avg"@ => json::float_json(avg), "min"@
                => json::float_json(
                if numbers.len() == 0 {
                    0
                } else {
                    documents::least(numbers)
                },
            ), "max"@ => json::float_json(
                if numbers.len() == 0 {
                    0
                } else {
                    documents::greatest(numbers)
                },
            )],
        ),
{
    let low = if numbers.len() == 0 {
        0
    } else {
        documents::least(numbers)
    };
    let high = if numbers.len() == 0 {
        0
    } else {
        documents::greatest(numbers)
    };
    assert(reply::no_fields().insert("field"@, JsonView::String(field)).insert(
        "count"@,
        reply::count(numbers.len()),
    ).insert("sum"@, json::float_json(sum)).insert("avg"@, json::float_json(avg)).insert(
        "min"@,
        json::float_json(low),
    ).insert("max"@, json::float_json(high)) =~= map!["field"@ => JsonView::String(field), "count"@
        => reply::count(numbers.len()), "sum"@ => json::float_json(sum), "avg"@ => json::float_json(
        avg,
    ), "min"@ => json::float_json(low), "max"@ => json::float_json(high)]);
}

/// The numbers of some records are those of the first and then those of the rest: of each record that
/// spells a document that meets the filter, the number at the field, where there is one.
pub proof fn law_numbers_are_taken_record_by_record(
    a: Seq<(u128, Seq<u8>)>,
    b: Seq<(u128, Seq<u8>)>,
    record: (u128, Seq<u8>),
    field: Seq<char>,
    filter: query::ExpressionView,
    near: spec_fn(u64, u64) -> Option<bool>,
)
    ensures
        documents::numbers_in(a + b, field, Some(filter), near) == documents::numbers_in(
            a,
            field,
            Some(filter),
            near,
        ) + documents::numbers_in(b, field, Some(filter), near),
        documents::numbers_in(seq![record], field, Some(filter), near) == (
        match json::parsed_json(record.1) {
            Some(v) => if query::meets(filter, v, near) && query::number_at(v, field) is Some {
                seq![query::number_at(v, field).unwrap()]
            } else {
                Seq::empty()
            },
            None => Seq::empty(),
        }),
    decreases b.len(),
{
    reveal_with_fuel(documents::numbers_in, 2);
    let f = Some(filter);
    assert(seq![record].drop_last() =~= Seq::empty());
    assert(documents::numbers_in(seq![record], field, f, near) =~= (match json::parsed_json(
        record.1,
    ) {
        Some(v) => if query::meets(filter, v, near) && query::number_at(v, field) is Some {
            seq![query::number_at(v, field).unwrap()]
        } else {
            Seq::empty()
        },
        None => Seq::empty(),
    }));
    if b.len() == 0 {
        assert(a + b =~= a);
        assert(documents::numbers_in(a, field, f, near) + documents::numbers_in(b, field, f, near)
            =~= documents::numbers_in(a, field, f, near));
    } else {
        law_numbers_are_taken_record_by_record(a, b.drop_last(), record, field, filter, near);
        assert((a + b).drop_last() =~= a + b.drop_last());
        assert(documents::numbers_in(a + b, field, f, near) =~= documents::numbers_in(
            a,
            field,
            f,
            near,
        ) + documents::numbers_in(b, field, f, near));
    }
}

/// A label's value is shown character by character: a quote, a backslash and a line feed behind a
/// backslash, the line feed as `n`, and all others as they are.
pub proof fn law_labels_are_escaped(a: Seq<char>, b: Seq<char>, c: char)
    ensures
        http::label(a + b) == http::label(a) + http::label(b),
        http::label(seq![c]) == (if c == '"' || c == '\\' {
            seq!['\\', c]
        } else if c == '\n' {
            seq!['\\', 'n']
        } else {
            seq![c]
        }),
    decreases b.len(),
{
    reveal_with_fuel(http::label, 2);
    assert(seq![c].drop_last() =~= Seq::empty());
    assert(http::label(seq![c]) =~= (if c == '"' || c == '\\' {
        seq!['\\', c]
    } else if c == '\n' {
        seq!['\\', 'n']
    } else {
        seq![c]
    }));
    if b.len() == 0 {
        assert(a + b =~= a);
        assert(http::label(a) + http::label(b) =~= http::label(a));
    } else {
        law_labels_are_escaped(a, b.drop_last(), c);
        assert((a + b).drop_last() =~= a + b.drop_last());
        assert(http::label(a + b) =~= http::label(a) + http::label(b));
    }
}

/// The figures of some tables are those of each, one after the other; of a table the number of its
/// records, where it can be read, of its tables on disk, and of the entries in its memory table.
pub proof fn law_figures_go_table_by_table(
    s: Seq<TableState>,
    records: Seq<Option<u64>>,
    t: TableState,
    n: Option<u64>,
)
    ensures
        http::table_figures(s.push(t), records.push(n)) == http::table_figures(s, records) + (match n {
            Some(k) => http::table_figure("fluxdb_table_records"@, t.name, k as nat),
            None => Seq::empty(),
        }) + http::table_figure("fluxdb_table_sstable_count"@, t.name, t.engine.tables.len())
            + http::table_figure("fluxdb_table_memtable_records"@, t.name, t.engine.memory.len()),
        http::table_figures(Seq::empty(), Seq::empty()) == Seq::<char>::empty(),
{
    assert(s.push(t).drop_last() =~= s);
    assert(records.push(n).drop_last() =~= records);
}

// ---------------------------------------------------------------------------------------------
// Tables
// ---------------------------------------------------------------------------------------------
/// A table that was emptied gives no value for any key, ranks nobody, and shows keys by their UUIDs.
pub proof fn law_emptied_table_gives_nothing(
    t: TableState,
    files: spec_fn(u64) -> FileView,
    key: u128,
    now_secs: u64,
)
    ensures
        manager::truncated(t).name == t.name,
        engine::value_of(manager::truncated(t).engine, files, key, now_secs) == Ok::<
            Option<Seq<u8>>,
            ErrorView,
        >(None),
        manager::truncated(t).indices.len() == 0,
        names::shown(manager::truncated(t).names, key) == crate::types::uuid_text(key),
{
}

/// A backup goes to the directory that was asked for, else to one below the server's own that is named
/// after the time, so that backups of different times do not meet.
pub proof fn law_backups_of_different_times_differ(
    dir: Seq<char>,
    target: Seq<char>,
    a: u64,
    b: u64,
)
    ensures
        manager::backup_dir(dir, Some(target), a) == target,
        a != b ==> manager::backup_dir(dir, None, a) != manager::backup_dir(dir, None, b),
        manager::backup_dir(dir, None, a).len() > dir.len(),
        manager::backup_dir(dir, None, a).take(dir.len() as int) == dir,
{
    reveal_strlit("/");
    reveal_strlit("backups");
    reveal_strlit("backup_");
    let base = engine::joined(dir, "backups"@);
    assert(base.last() == 's');
    let head = base + "/"@ + "backup_"@;
    let x = text::dec_text(a as nat);
    let y = text::dec_text(b as nat);
    assert(manager::backup_dir(dir, None, a) =~= head + x);
    assert(manager::backup_dir(dir, None, b) =~= head + y);
    crate::proto::laws::lemma_dec_text(a as nat);
    crate::proto::laws::lemma_dec_text(b as nat);
    if manager::backup_dir(dir, None, a) == manager::backup_dir(dir, None, b) {
        assert((head + x).skip(head.len() as int) =~= x);
        assert((head + y).skip(head.len() as int) =~= y);
    }
    assert((head + x).take(dir.len() as int) =~= dir);
}

/// Tables with different names lie in different directories below the server's own.
pub proof fn law_tables_have_their_own_directories(dir: Seq<char>, a: Seq<char>, b: Seq<char>)
    ensures
        a != b ==> manager::table_dir(dir, a) != manager::table_dir(dir, b),
        manager::table_dir(dir, a).len() > dir.len(),
        manager::table_dir(dir, a).take(dir.len() as int) == dir,
{
    reveal_strlit("/");
    reveal_strlit("tables");
    let base = engine::joined(dir, "tables"@);
    assert(base.last() == 's');
    let head = base + "/"@;
    assert(manager::table_dir(dir, a) =~= head + a);
    assert(manager::table_dir(dir, b) =~= head + b);
    if manager::table_dir(dir, a) == manager::table_dir(dir, b) {
        assert((head + a).skip(head.len() as int) =~= a);
        assert((head + b).skip(head.len() as int) =~= b);
    }
    assert((head + a).take(dir.len() as int) =~= dir);
}

/// Sizes of files are summed up, as far as 64 bits go.
pub proof fn law_sizes_are_summed(sizes: Seq<u64>, size: u64)
    ensures
        tcp::sum(Seq::empty()) == 0,
        tcp::sum(sizes) + size <= u64::MAX ==> tcp::sum(sizes.push(size)) == tcp::sum(sizes) + size,
{
    assert(sizes.push(size).drop_last() =~= sizes);
}

// ---------------------------------------------------------------------------------------------
// Writes that fail
// ---------------------------------------------------------------------------------------------
/// A write whose record could not be logged is not applied: every key reads as before, the keys of the
/// write are free again, and the error is answered, except that a delete is answered `:1`.
pub proof fn law_unlogged_write_is_not_applied(
    before: ManagerView,
    p: tcp::PendingView,
    i: int,
    e: crate::types::DbError,
    now_ms: u64,
    after: ManagerView,
    step: StepView,
    k: int,
)
    requires
        table_is(before, p.table, i),
        tcp::write_goes_on(before, p, Err(e), now_ms, after, step),
        0 <= k < p.ops.len(),
    ensures
        only_table_changed(before, after, i),
        after.tables[i].engine == before.tables[i].engine,
        after.tables[i].indices == before.tables[i].indices,
        !after.tables[i].held.contains(p.ops[k].key),
        step == StepView::Reply(
            if p.next is Delete {
                reply::number(1)
            } else {
                reply::failure(e@)
            },
        ),
{
    lemma_table(before, p.table, i);
    lemma_freed(before.tables[i].held, p.ops, k);
}

proof fn lemma_freed(held: Set<u128>, ops: Seq<engine::OpView>, k: int)
    requires
        0 <= k < ops.len(),
    ensures
        !tcp::freed(held, ops).contains(ops[k].key),
    decreases ops.len(),
{
    if k < ops.len() - 1 {
        lemma_freed(held, ops.drop_last(), k);
    }
}

/// `INDEX CREATE` on a field that is indexed changes nothing; on another it adds an index of that field
/// behind those that there are, which stay as they are; where the records cannot be read it changes
/// nothing and answers the error. No record and no other table changes.
#[verifier::rlimit(40)]
pub proof fn law_index_create_adds_an_index(
    before: ManagerView,
    table: Seq<char>,
    i: int,
    path: Seq<char>,
    now_ms: u64,
    w: World,
    after: ManagerView,
    step: StepView,
    k: int,
)
    requires
        table_is(before, table, i),
        tcp::runs(before, CommandView::IndexCreate { table, path }, now_ms, w, after, step),
        0 <= k < before.tables[i].indices.len(),
    ensures
        only_table_changed(before, after, i),
        after.tables[i].engine == before.tables[i].engine,
        after.tables[i].name == before.tables[i].name,
        after.tables[i].indices[k] == before.tables[i].indices[k],
        before.tables[i].indices[k].path == path ==> after == before,
        step == StepView::Reply(reply::line("+INDEX CREATED "@ + table + ":"@ + path)) || after
            == before && exists|e: ErrorView| #[trigger] reply::failure(e) == step->Reply_0,
        after != before ==> after.tables[i].indices.len() == before.tables[i].indices.len() + 1
            && after.tables[i].indices.last().path == path,
{
    lemma_table(before, table, i);
    let t = before.tables[i];
    assert(tcp::index_runs(before, i, table, path, now_ms / 1000, w, after, step));
    let made = choose|made: core::result::Result<TableState, ErrorView>| #[trigger]
        access::index_gives(t, w, path, now_ms / 1000, made) && match made {
            Err(e) => after == before && step == StepView::Reply(reply::failure(e)),
            Ok(x) => after == tcp::with_state(before, i, x) && step == StepView::Reply(
                reply::line("+INDEX CREATED "@ + table + ":"@ + path),
            ),
        };
    assert(secondary::index_place(t.indices, path) is None ==> t.indices[k].path != path) by {
        if t.indices[k].path == path {
            lemma_some_index(t.indices, path, k);
        }
    }
    match secondary::index_place(t.indices, path) {
        Some(_) => {
            assert(before.tables.update(i, t) =~= before.tables);
        },
        None => {
            let got = choose|got: core::result::Result<Seq<(u128, Seq<u8>)>, ErrorView>| #[trigger]
                access::scan_gives(t, w, None, None, usize::MAX as nat, now_ms / 1000, got) && made
                    == access::indexed(t, path, got);
            if let Ok(s) = got {
                lemma_filled_path(path, s);
                assert(t.indices.push(secondary::filled(path, s)).last() == secondary::filled(
                    path,
                    s,
                ));
            }
        },
    }
    if let Err(e) = made {
        assert(reply::failure(e) == step->Reply_0);
    }
}

proof fn lemma_some_index(s: Seq<IndexView>, path: Seq<char>, k: int)
    requires
        0 <= k < s.len(),
        s[k].path == path,
    ensures
        secondary::index_place(s, path) is Some,
    decreases s.len(),
{
    if s.last().path != path {
        lemma_some_index(s.drop_last(), path, k);
    }
}

proof fn lemma_filled_path(path: Seq<char>, records: Seq<(u128, Seq<u8>)>)
    ensures
        secondary::filled(path, records).path == path,
    decreases records.len(),
{
    if records.len() > 0 {
        lemma_filled_path(path, records.drop_last());
    }
}

/// A line of white space is passed over, whoever sent it.
pub proof fn law_empty_lines_are_passed_over(s: SessionView, input: Seq<char>)
    requires
        forall|i: int| 0 <= i < input.len() ==> text::is_space(#[trigger] input[i]),
    ensures
        tcp::line_step(s, input) == (s, tcp::LineView::Skip),
{
    let none = Seq::<char>::empty();
    text::law_trimming_drops_white_space_around(input, none, none);
    assert(input + none + none =~= input);
}

// ---------------------------------------------------------------------------------------------
// Lists of tables
// ---------------------------------------------------------------------------------------------
/// The details of a table are its name, the number of its records, of the entries in its memory table and
/// of those that wait, of its tables on disk, the size of its files, how it is compressed, and its
/// indexed fields.
#[verifier::rlimit(40)]
pub proof fn law_details_tell_the_figures(t: TableState, records: Option<u64>, size: u64)
    ensures
        tcp::table_info(t, records, size) == JsonView::Object(
            map!["name"@ => JsonView::String(t.name), "total_records"@ => match records {
                Some(n) => JsonView::Number(JsonNumber::PosInt(n)),
                None => JsonView::Null,
            }, "memtable_records"@ => reply::count(t.engine.memory.len()), "imm_memtable_records"@
                => reply::count(
                engine::waiting_total(t.engine.waiting, t.engine.waiting.len() as int) as nat,
            ), "sstable_count"@ => reply::count(t.engine.tables.len()), "disk_size_bytes"@
                => JsonView::Number(JsonNumber::PosInt(size)), "compression"@ => JsonView::String(
                match t.compression {
                    sstable::CompressionType::Raw => "NONE"@,
                    sstable::CompressionType::Lz4 => "LZ4"@,
                    sstable::CompressionType::Zstd => "ZSTD"@,
                },
            ), "indexes"@ => JsonView::Array(
                Seq::new(t.indices.len(), |k: int| JsonView::String(t.indices[k].path)),
            )],
        ),
{
    let paths = secondary::index_paths(t.indices);
    assert(Seq::new(paths.len(), |k: int| JsonView::String(paths[k])) =~= Seq::new(
        t.indices.len(),
        |k: int| JsonView::String(t.indices[k].path),
    ));
    assert(tcp::table_info(t, records, size)->Object_0 =~= map!["name"@ => JsonView::String(t.name),
        "total_records"@ => match records {
        Some(n) => JsonView::Number(JsonNumber::PosInt(n)),
        None => JsonView::Null,
    }, "memtable_records"@ => reply::count(t.engine.memory.len()), "imm_memtable_records"@
        => reply::count(
        engine::waiting_total(t.engine.waiting, t.engine.waiting.len() as int) as nat,
    ), "sstable_count"@ => reply::count(t.engine.tables.len()), "disk_size_bytes"@
        => JsonView::Number(JsonNumber::PosInt(size)), "compression"@ => JsonView::String(
        match t.compression {
            sstable::CompressionType::Raw => "NONE"@,
            sstable::CompressionType::Lz4 => "LZ4"@,
            sstable::CompressionType::Zstd => "ZSTD"@,
        },
    ), "indexes"@ => JsonView::Array(
        Seq::new(t.indices.len(), |k: int| JsonView::String(t.indices[k].path)),
    )]);
}

/// `/api/tables` changes nothing, and lists the name of every table in order, with the size of all files
/// together, as a number and as people read it.
#[verifier::rlimit(40)]
pub proof fn law_tables_request_lists_the_names(
    before: ManagerView,
    query: Seq<char>,
    pass: Option<Seq<char>>,
    now_ms: u64,
    w: World,
    after: ManagerView,
    step: http::HttpStepView,
)
    requires
        is_let_in(http::RequestView { path: "/api/tables"@, query }, pass),
        http::handles(
            before,
            http::RequestView { path: "/api/tables"@, query },
            pass,
            now_ms,
            w,
            after,
            step,
        ),
    ensures
        after == before,
        exists|total: u64, human: Seq<char>| #[trigger]
            tcp::total_told(before.tables, w, total) && #[trigger] w.tells_text(total, human) && step
                == http::HttpStepView::Respond(
                http::ResponseView {
                    status: "200 OK"@,
                    content_type: "application/json"@,
                    body: json::json_text(
                        JsonView::Object(
                            map!["tables"@ => JsonView::Array(
                                Seq::new(
                                    before.tables.len(),
                                    |i: int| JsonView::String(before.tables[i].name),
                                ),
                            ), "total_disk_size_bytes"@ => JsonView::Number(
                                JsonNumber::PosInt(total),
                            ), "total_disk_size_human"@ => JsonView::String(human)],
                        ),
                    ),
                },
            ),
{
    lemma_let_in(http::RequestView { path: "/api/tables"@, query }, pass);
    reveal_strlit("/");
    reveal_strlit("/index.html");
    reveal_strlit("/api/table/create");
    reveal_strlit("/api/expire");
    reveal_strlit("/api/flush");
    reveal_strlit("/api/backup");
    reveal_strlit("/api/index/create");
    reveal_strlit("/api/tables");
    assert("/"@.len() == 1);
    assert("/api/tables"@.len() == 11);
    assert("/api/table/create"@.len() == 17);
    assert("/index.html"@[1] != "/api/tables"@[1]);
    assert("/api/expire"@[5] != "/api/tables"@[5]);
    assert("/api/flush"@.len() == 10);
    assert("/api/backup"@[5] != "/api/tables"@[5]);
    assert("/api/index/create"@.len() == 17);
    let r = step->Respond_0;
    assert(http::tables_responds(before, w, r));
    let (total, human) = choose|total: u64, human: Seq<char>| #[trigger]
        tcp::total_told(before.tables, w, total) && #[trigger] w.tells_text(total, human) && r
            == http::tables_response(before, total, human);
    assert(tcp::total_told(before.tables, w, total) && w.tells_text(total, human));
    let names = manager::names_of(before.tables);
    assert(Seq::new(names.len(), |i: int| JsonView::String(names[i])) =~= Seq::new(
        before.tables.len(),
        |i: int| JsonView::String(before.tables[i].name),
    ));
    assert(reply::no_fields().insert("tables"@, reply::text_items(names)).insert(
        "total_disk_size_bytes"@,
        reply::count(total as nat),
    ).insert("total_disk_size_human"@, JsonView::String(human)) =~= map!["tables"@
        => JsonView::Array(
        Seq::new(before.tables.len(), |i: int| JsonView::String(before.tables[i].name)),
    ), "total_disk_size_bytes"@ => JsonView::Number(JsonNumber::PosInt(total)),
        "total_disk_size_human"@ => JsonView::String(human)]);
}

// ---------------------------------------------------------------------------------------------
// What is told of what is missing
// ---------------------------------------------------------------------------------------------
/// Before the password was given, a session greets and takes leave as ever, and answers every other
/// command that it must be given.
pub proof fn law_locked_session_asks_for_the_password(s: SessionView, input: Seq<char>, c: CommandView)
    requires
        !s.authenticated,
        text::trimmed(input).len() > 0,
        crate::proto::codec::command_of(text::trimmed(input)) == Ok::<CommandView, ErrorView>(c),
        !(c is Auth),
    ensures
        tcp::line_step(s, input) == (
            s,
            match c {
                CommandView::Ping => tcp::LineView::Reply(reply::line("+PONG"@)),
                CommandView::Quit => tcp::LineView::Close(reply::line("+OK"@)),
                _ => tcp::LineView::Reply(
                    reply::line("-ERR NOAUTH Authentication required."@),
                ),
            },
        ),
{
}

/// What is missing is named: the table, or the table and the field.
pub proof fn law_replies_name_what_is_missing(table: Seq<char>, path: Seq<char>)
    ensures
        reply::no_table(table) == encode_utf8(
            "-ERR Table '"@ + table + "' does not exist"@ + "\r\n"@,
        ),
        reply::no_table_to_write(table) == encode_utf8(
            "-ERR Table '"@ + table + "' does not exist. Use 'CREATE TABLE "@ + table + "'"@
                + "\r\n"@,
        ),
        reply::no_index(table, path) == encode_utf8(
            "-ERR Index '"@ + table + ":"@ + path + "' not found."@ + "\r\n"@,
        ),
{
}

/// A request for a key whose table is missing is answered `404`, one that names no key `400`; neither
/// changes anything.
pub proof fn law_requests_are_told_what_is_missing(
    before: ManagerView,
    r: http::RequestView,
    pass: Option<Seq<char>>,
    table: Seq<char>,
    i: int,
    now_ms: u64,
    w: World,
    after: ManagerView,
    step: http::HttpStepView,
)
    requires
        is_let_in(r, pass),
        http::handles(before, r, pass, now_ms, w, after, step),
        http::param(r.query, "table"@) == Some(table),
        r.path == "/api/get"@ || r.path == "/api/exists"@ || r.path == "/api/expire"@,
    ensures
        table_is_missing(before, table) ==> after == before && (step matches http::HttpStepView::Respond(
            a,
        ) && a.status == "404 Not Found"@),
        table_is(before, table, i) && (http::param(r.query, "uuid"@) is None || http::param(
            r.query,
            "uuid"@,
        ) == Some(Seq::<char>::empty())) ==> after == before && (step matches http::HttpStepView::Respond(
            a,
        ) && a.status == "400 Bad Request"@),
{
    lemma_let_in(r, pass);
    lemma_paths();
    if table_is_missing(before, table) {
        lemma_no_table(before, table);
    }
    if table_is(before, table, i) {
        lemma_table(before, table, i);
        crate::types::law_only_empty_text_is_no_key(Seq::empty());
    }
}

} // verus!
