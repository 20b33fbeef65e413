//! Rankings of players by a number in their documents.
use bytes::Bytes;
use crossbeam_skiplist::SkipMap;
use std::collections::HashMap;
use vstd::prelude::*;
use vstd::utf8::*;

use crate::index::json;
use crate::storage::iterator;
use crate::text;
use crate::types::PlayerId;
use crate::wire;

verus! {

broadcast use vstd::std_specs::hash::group_hash_axioms;

// ---------------------------------------------------------------------------------------------
// Extraction
// ---------------------------------------------------------------------------------------------
/// White space of a JSON text.
pub open spec fn is_blank(b: u8) -> bool {
    b == 32 || b == 9 || b == 13 || b == 10
}

/// The place after the white space at a place.
pub open spec fn skip_blanks(s: Seq<u8>, at: int) -> int
    decreases s.len() - at,
{
    if 0 <= at < s.len() && is_blank(s[at]) {
        skip_blanks(s, at + 1)
    } else {
        at
    }
}

/// A quoted name stands at a place.
pub open spec fn name_at(s: Seq<u8>, name: Seq<u8>, at: int) -> bool {
    s[at] == 34 && s.subrange(at + 1, at + 1 + name.len()) == name && s[at + 1 + name.len()] == 34
}

/// The place of the value that follows the first quoted name and colon from a place on.
pub open spec fn value_place(s: Seq<u8>, name: Seq<u8>, at: int) -> Option<int>
    decreases s.len() - at,
{
    if at < 0 || at + name.len() + 3 > s.len() {
        None
    } else if name_at(s, name, at) {
        proof {
            lemma_skip_blanks(s, at + name.len() + 2);
        }
        let after = skip_blanks(s, at + name.len() + 2);
        if after < s.len() && s[after] == 58 {
            Some(skip_blanks(s, after + 1))
        } else if after > at {
            value_place(s, name, after)
        } else {
            None
        }
    } else {
        value_place(s, name, at + 1)
    }
}

/// The place of the value at a path of names, each looked for after the one before.
pub open spec fn path_place(s: Seq<u8>, names: Seq<Seq<char>>, at: int) -> Option<int>
    decreases names.len(),
{
    if names.len() == 0 {
        Some(at)
    } else {
        match value_place(s, encode_utf8(names[0]), at) {
            Some(next) => path_place(s, names.skip(1), next),
            None => None,
        }
    }
}

/// A byte that can stand in a number.
pub open spec fn in_number(b: u8) -> bool {
    48 <= b <= 57 || b == 46 || b == 45 || b == 43 || b == 101 || b == 69
}

/// The place after the bytes of a number at a place.
pub open spec fn number_end(s: Seq<u8>, at: int) -> int
    decreases s.len() - at,
{
    if 0 <= at < s.len() && in_number(s[at]) {
        number_end(s, at + 1)
    } else {
        at
    }
}

/// The number that a JSON text has at a dotted path, as the bits of a double: the names of the path
/// are looked for in the text one after the other, and the number stands behind the last.
pub open spec fn extracted(path: Seq<char>, s: Seq<u8>) -> Option<u64> {
    match path_place(s, text::pieces(path, "."@), 0) {
        Some(at) => {
            let end = number_end(s, at);
            if at < end {
                json::float_of_text(Seq::new((end - at) as nat, |i: int| s[at + i] as char))
            } else {
                None
            }
        },
        None => None,
    }
}

/// White space is skipped forward.
pub proof fn lemma_skip_blanks(s: Seq<u8>, at: int)
    ensures
        skip_blanks(s, at) >= at,
        at <= s.len() ==> skip_blanks(s, at) <= s.len(),
    decreases s.len() - at,
{
    if 0 <= at < s.len() && is_blank(s[at]) {
        lemma_skip_blanks(s, at + 1);
    }
}

fn skip_white(s: &[u8], at: usize) -> (r: usize)
    requires
        at <= s@.len(),
    ensures
        r == skip_blanks(s@, at as int),
        at <= r <= s@.len(),
{
    let mut i: usize = at;
    while i < s.len() && (s[i] == 32 || s[i] == 9 || s[i] == 13 || s[i] == 10)
        invariant
            at <= i <= s@.len(),
            skip_blanks(s@, at as int) == skip_blanks(s@, i as int),
        decreases s@.len() - i,
    {
        i = i + 1;
    }
    i
}

fn is_name_at(s: &[u8], name: &[u8], at: usize) -> (r: bool)
    requires
        at + name@.len() + 3 <= s@.len(),
    ensures
        r == name_at(s@, name@, at as int),
{
    let n: usize = s.len();
    if s[at] != 34 || s[at + 1 + name.len()] != 34 {
        return false;
    }
    let ghost part = s@.subrange(at + 1, at + 1 + name@.len());
    let mut i: usize = 0;
    while i < name.len()
        invariant
            i <= name@.len(),
            n == s@.len(),
            at + name@.len() + 3 <= s@.len(),
            part == s@.subrange(at + 1, at + 1 + name@.len()),
            forall|j: int| 0 <= j < i ==> part[j] == #[trigger] name@[j],
        decreases name@.len() - i,
    {
        assert(part[i as int] == s@[at + 1 + i]);
        if s[at + 1 + i] != name[i] {
            return false;
        }
        i = i + 1;
    }
    assert(part =~= name@);
    true
}

fn find_value(s: &[u8], name: &[u8], from: usize) -> (r: Option<usize>)
    requires
        from <= s@.len(),
    ensures
        match r {
            Some(at) => value_place(s@, name@, from as int) == Some(at as int) && at <= s@.len(),
            None => value_place(s@, name@, from as int) is None,
        },
{
    let len: usize = s.len();
    let mut at: usize = from;
    while len - at >= 3 && len - at - 3 >= name.len()
        invariant
            at <= len,
            len == s@.len(),
            value_place(s@, name@, from as int) == value_place(s@, name@, at as int),
        decreases len - at,
    {
        if is_name_at(s, name, at) {
            let after: usize = skip_white(s, at + name.len() + 2);
            if after < len && s[after] == 58 {
                return Some(skip_white(s, after + 1));
            }
            at = after;
        } else {
            at = at + 1;
        }
    }
    None
}

/// The number at a dotted path of a JSON text, without parsing the text as a whole.
pub fn extract_number_from_json(path: &str, bytes: &[u8]) -> (r: Option<u64>)
    ensures
        r == extracted(path@, bytes@),
{
    let chars = text::chars_of(path);
    let dot = text::chars_of(".");
    proof {
        reveal_strlit(".");
    }
    let parts = text::split(&chars, &dot);
    let ghost names = text::pieces_view(parts@);
    let mut cursor: usize = 0;
    let len: usize = bytes.len();
    let mut i: usize = 0;
    assert(names.skip(0) =~= names);
    while i < parts.len()
        invariant
            i <= parts@.len(),
            names == text::pieces_view(parts@),
            names == text::pieces(path@, "."@),
            len == bytes@.len(),
            cursor <= len,
            path_place(bytes@, names, 0) == path_place(bytes@, names.skip(i as int), cursor as int),
        decreases parts@.len() - i,
    {
        proof {
            assert(names.skip(i as int)[0] == parts@[i as int]@);
            assert(names.skip(i as int).skip(1) =~= names.skip(i + 1));
        }
        let name = text::string_of(&parts[i]);
        match find_value(bytes, name.as_str().as_bytes(), cursor) {
            Some(at) => {
                cursor = at;
            },
            None => {
                return None;
            },
        }
        i = i + 1;
    }
    let start: usize = cursor;
    let mut digits: Vec<char> = Vec::new();
    let ghost all = bytes@;
    while cursor < len && (48 <= bytes[cursor] && bytes[cursor] <= 57 || bytes[cursor] == 46
        || bytes[cursor] == 45 || bytes[cursor] == 43 || bytes[cursor] == 101 || bytes[cursor] == 69)
        invariant
            start <= cursor <= len,
            len == bytes@.len(),
            all == bytes@,
            number_end(all, start as int) == number_end(all, cursor as int),
            digits@ =~= Seq::new((cursor - start) as nat, |j: int| all[start + j] as char),
        decreases len - cursor,
    {
        digits.push(bytes[cursor] as char);
        cursor = cursor + 1;
    }
    if start < cursor {
        let number = text::string_of(&digits);
        json::parse_float(number.as_str())
    } else {
        None
    }
}

// ---------------------------------------------------------------------------------------------
// Standings
// ---------------------------------------------------------------------------------------------
/// A score: the bits of a double, ordered as doubles are.
#[derive(Debug, Clone, Copy, PartialEq, Eq, Structural)]
pub struct OrderedScore(pub u64);

impl OrderedScore {
    /// The number by which scores are ordered.
    pub fn rank(&self) -> (r: i64)
        ensures
            r == json::float_rank(self.0),
    {
        json::rank_of_bits(self.0)
    }
}

/// A player with a score stands before another: the score is higher, or it is the same and the key
/// is larger.
pub open spec fn before(a: (u128, u64), b: (u128, u64)) -> bool {
    json::float_rank(a.1) > json::float_rank(b.1) || json::float_rank(a.1) == json::float_rank(b.1)
        && a.0 > b.0
}

/// Players with scores, each standing before the next.
pub open spec fn in_order(s: Seq<(u128, u64)>) -> bool {
    forall|i: int, j: int| 0 <= i < j < s.len() ==> before(#[trigger] s[i], #[trigger] s[j])
}

/// The players of a table of scores in order.
pub open spec fn lists(s: Seq<(u128, u64)>, scores: Map<u128, u64>) -> bool {
    &&& in_order(s)
    &&& forall|i: int|
        0 <= i < s.len() ==> scores.contains_key((#[trigger] s[i]).0) && scores[s[i].0] == s[i].1
    &&& forall|p: u128| #[trigger]
        scores.contains_key(p) ==> exists|i: int| 0 <= i < s.len() && (#[trigger] s[i]).0 == p
}

/// The players of a table of scores in order.
pub open spec fn standings(scores: Map<u128, u64>) -> Seq<(u128, u64)> {
    choose|s: Seq<(u128, u64)>| lists(s, scores)
}

/// A part of the standings, from one place to another, with the ranks counted from 1.
pub open spec fn ranked(s: Seq<(u128, u64)>, from: int, to: int) -> Seq<(u128, u64, nat)> {
    Seq::new((to - from) as nat, |i: int| (s[from + i].0, s[from + i].1, (from + i + 1) as nat))
}

/// The place of a player in the standings.
pub open spec fn place_in(s: Seq<(u128, u64)>, player: u128) -> int {
    choose|i: int| 0 <= i < s.len() && (#[trigger] s[i]).0 == player
}

/// A number kept between 0 and a limit.
pub open spec fn capped(n: int, max: int) -> int {
    if n < 0 {
        0
    } else if n > max {
        max
    } else {
        n
    }
}

proof fn lemma_lists_distinct(s: Seq<(u128, u64)>, scores: Map<u128, u64>, i: int, j: int)
    requires
        lists(s, scores),
        0 <= i < s.len(),
        0 <= j < s.len(),
        s[i].0 == s[j].0,
    ensures
        i == j,
{
    if i < j {
        assert(before(s[i], s[j]));
    } else if j < i {
        assert(before(s[j], s[i]));
    }
}

/// Two lists of the same scores that both start with the best are the same as far as both go.
proof fn lemma_prefix_same(a: Seq<(u128, u64)>, b: Seq<(u128, u64)>, scores: Map<u128, u64>, n: int)
    requires
        lists(b, scores),
        top_of(a, scores),
        0 <= n <= a.len(),
    ensures
        n <= b.len(),
        a.take(n) == b.take(n),
    decreases n,
{
    if n > 0 {
        lemma_prefix_same(a, b, scores, n - 1);
        let x = a[n - 1];
        assert(scores.contains_key(x.0));
        let j = choose|j: int| 0 <= j < b.len() && (#[trigger] b[j]).0 == x.0;
        assert(b[j] == x);
        if j < n - 1 {
            assert(a.take(n - 1)[j] == b.take(n - 1)[j]);
            assert(a[j] == x);
            assert(before(a[j], a[n - 1]));
        }
        if j > n - 1 {
            let y = b[n - 1];
            assert(before(b[n - 1], b[j]));
            assert(scores.contains_key(y.0));
            if exists|i: int| 0 <= i < a.len() && (#[trigger] a[i]).0 == y.0 {
                let i = choose|i: int| 0 <= i < a.len() && (#[trigger] a[i]).0 == y.0;
                assert(a[i] == y);
                if i < n - 1 {
                    assert(a.take(n - 1)[i] == b.take(n - 1)[i]);
                    assert(before(b[i], b[n - 1]));
                } else if i > n - 1 {
                    assert(before(a[n - 1], a[i]));
                } else {
                    assert(before(y, x));
                }
            } else {
                assert(before(a[n - 1], (y.0, scores[y.0])));
            }
        }
        assert(j == n - 1);
        assert(a.take(n) =~= a.take(n - 1).push(x));
        assert(b.take(n) =~= b.take(n - 1).push(x));
    }
}

/// A list of the best: in order, of the scores, and whoever is missing stands after all.
pub open spec fn top_of(s: Seq<(u128, u64)>, scores: Map<u128, u64>) -> bool {
    &&& in_order(s)
    &&& forall|i: int|
        0 <= i < s.len() ==> scores.contains_key((#[trigger] s[i]).0) && scores[s[i].0] == s[i].1
    &&& forall|p: u128| #[trigger]
        scores.contains_key(p) ==> (exists|i: int| 0 <= i < s.len() && (#[trigger] s[i]).0 == p) || (
        forall|i: int| 0 <= i < s.len() ==> before(#[trigger] s[i], (p, scores[p])))
}

proof fn lemma_lists_len(s: Seq<(u128, u64)>, scores: Map<u128, u64>)
    requires
        lists(s, scores),
        scores.dom().finite(),
    ensures
        s.len() == scores.len(),
    decreases s.len(),
{
    if s.len() == 0 {
        assert(scores.dom() =~= Set::empty());
    } else {
        let p = s.last().0;
        let rest = s.drop_last();
        let m = scores.remove(p);
        assert(s[s.len() - 1].0 == p);
        assert(lists(rest, m)) by {
            assert forall|i: int, j: int| 0 <= i < j < rest.len() implies before(
                #[trigger] rest[i],
                #[trigger] rest[j],
            ) by {
                assert(rest[i] == s[i] && rest[j] == s[j]);
            }
            assert forall|i: int| 0 <= i < rest.len() implies m.contains_key((#[trigger] rest[i]).0)
                && m[rest[i].0] == rest[i].1 by {
                assert(rest[i] == s[i]);
                assert(before(s[i], s[s.len() - 1]));
                if rest[i].0 == p {
                    lemma_lists_distinct(s, scores, i, s.len() - 1);
                }
            }
            assert forall|q: u128| #[trigger] m.contains_key(q) implies exists|i: int|
                0 <= i < rest.len() && (#[trigger] rest[i]).0 == q by {
                assert(scores.contains_key(q));
                let i = choose|i: int| 0 <= i < s.len() && (#[trigger] s[i]).0 == q;
                assert(i < s.len() - 1);
                assert(rest[i].0 == q);
            }
        }
        lemma_lists_len(rest, m);
        assert(scores.contains_key(s[s.len() - 1].0));
        assert(scores.dom().remove(p) =~= m.dom());
    }
}

/// The standings of finitely many scores exist.
pub proof fn lemma_standings_exist(scores: Map<u128, u64>)
    requires
        scores.dom().finite(),
    ensures
        lists(standings(scores), scores),
        standings(scores).len() == scores.len(),
    decreases scores.len(),
{
    if scores.len() == 0 {
        assert(scores.dom() =~= Set::empty());
        let none: Seq<(u128, u64)> = Seq::empty();
        assert(lists(none, scores));
    } else {
        let p = scores.dom().choose();
        assert(scores.contains_key(p));
        let m = scores.remove(p);
        assert(m.dom() =~= scores.dom().remove(p));
        lemma_standings_exist(m);
        let s = standings(m);
        let x = (p, scores[p]);
        let at = lemma_insert_place(s, x);
        let all = s.insert(at, x);
        assert(lists(all, scores)) by {
            assert forall|i: int, j: int| 0 <= i < j < all.len() implies before(
                #[trigger] all[i],
                #[trigger] all[j],
            ) by {
                if i < at && j > at {
                    assert(all[i] == s[i] && all[j] == s[j - 1]);
                } else if j < at {
                    assert(all[i] == s[i] && all[j] == s[j]);
                } else if i > at {
                    assert(all[i] == s[i - 1] && all[j] == s[j - 1]);
                } else if i == at {
                    assert(all[j] == s[j - 1]);
                    let y = s[j - 1];
                    assert(!before(y, x));
                    assert(m.contains_key(y.0));
                    assert(y.0 != p);
                } else {
                    assert(all[i] == s[i]);
                    assert(before(s[i], x));
                }
            }
            assert forall|i: int| 0 <= i < all.len() implies scores.contains_key(
                (#[trigger] all[i]).0,
            ) && scores[all[i].0] == all[i].1 by {
                if i < at {
                    assert(all[i] == s[i]);
                } else if i > at {
                    assert(all[i] == s[i - 1]);
                }
            }
            assert forall|q: u128| #[trigger] scores.contains_key(q) implies exists|i: int|
                0 <= i < all.len() && (#[trigger] all[i]).0 == q by {
                if q == p {
                    assert(all[at].0 == q);
                } else {
                    assert(m.contains_key(q));
                    let i = choose|i: int| 0 <= i < s.len() && (#[trigger] s[i]).0 == q;
                    if i < at {
                        assert(all[i].0 == q);
                    } else {
                        assert(all[i + 1].0 == q);
                    }
                }
            }
        }
    }
    lemma_lists_len(standings(scores), scores);
}

/// The place at which a player fits into a list in order.
proof fn lemma_insert_place(s: Seq<(u128, u64)>, x: (u128, u64)) -> (at: int)
    requires
        in_order(s),
    ensures
        0 <= at <= s.len(),
        forall|i: int| 0 <= i < at ==> before(#[trigger] s[i], x),
        forall|i: int| at <= i < s.len() ==> !before(#[trigger] s[i], x),
    decreases s.len(),
{
    if s.len() == 0 {
        0
    } else {
        let rest = s.drop_last();
        assert forall|i: int, j: int| 0 <= i < j < rest.len() implies before(
            #[trigger] rest[i],
            #[trigger] rest[j],
        ) by {
            assert(rest[i] == s[i] && rest[j] == s[j]);
        }
        let at = lemma_insert_place(rest, x);
        if at == rest.len() && before(s.last(), x) {
            assert forall|i: int| 0 <= i < s.len() implies before(#[trigger] s[i], x) by {
                if i < rest.len() {
                    assert(rest[i] == s[i]);
                }
            }
            s.len() as int
        } else {
            assert forall|i: int| 0 <= i < at implies before(#[trigger] s[i], x) by {
                assert(rest[i] == s[i]);
            }
            assert forall|i: int| at <= i < s.len() implies !before(#[trigger] s[i], x) by {
                if i < rest.len() {
                    assert(rest[i] == s[i]);
                } else if at < rest.len() {
                    assert(!before(rest[at], x));
                    assert(before(s[at], s[i]));
                }
            }
            at
        }
    }
}

/// There is but one list of the players in order.
pub proof fn law_standings_are_unique(s: Seq<(u128, u64)>, scores: Map<u128, u64>)
    requires
        lists(s, scores),
    ensures
        s == standings(scores),
{
    let t = standings(scores);
    lemma_prefix_same(s, t, scores, s.len() as int);
    lemma_prefix_same(t, s, scores, t.len() as int);
    assert(s.take(s.len() as int) =~= s);
    assert(t.take(t.len() as int) =~= t);
}

// ---------------------------------------------------------------------------------------------
// The sorted map
// ---------------------------------------------------------------------------------------------
/// A skip map from score rank and player to the score.
pub type RankMap = SkipMap<(i64, u128), u64>;

/// What a skip map of scores holds.
pub uninterp spec fn rank_map_entries(m: RankMap) -> Map<(i64, u128), u64>;

/// Pairs in the order of tuples: by the first number, then by the second.
pub open spec fn above(a: (i64, u128), b: (i64, u128)) -> bool {
    a.0 > b.0 || a.0 == b.0 && a.1 > b.1
}

/// `SkipMap::new` holds nothing.
#[verifier::external_body]
fn rank_map_new() -> (r: RankMap)
    ensures
        rank_map_entries(r).dom() == Set::<(i64, u128)>::empty(),
{
    SkipMap::new()
}

/// `SkipMap::insert` puts the value under the key, in place of one that was there.
#[verifier::external_body]
fn rank_map_insert(m: &mut RankMap, key: (i64, u128), bits: u64)
    ensures
        rank_map_entries(*final(m)) == rank_map_entries(*old(m)).insert(key, bits),
{
    m.insert(key, bits);
}

/// `SkipMap::remove` takes the key out, where it is.
#[verifier::external_body]
fn rank_map_remove(m: &mut RankMap, key: (i64, u128))
    ensures
        rank_map_entries(*final(m)) == rank_map_entries(*old(m)).remove(key),
{
    m.remove(&key);
}

/// `SkipMap::len` is the number of keys.
#[verifier::external_body]
fn rank_map_len(m: &RankMap) -> (r: usize)
    ensures
        r == rank_map_entries(*m).len(),
{
    m.len()
}

/// `SkipMap::iter`, walked from the back: the `limit` largest keys in descending order, or all
/// where there are fewer, with their values.
#[verifier::external_body]
fn rank_map_top(m: &RankMap, limit: usize) -> (r: Vec<(i64, u128, u64)>)
    ensures
        r@.len() == (if rank_map_entries(*m).len() < limit {
            rank_map_entries(*m).len()
        } else {
            limit as nat
        }),
        forall|i: int, j: int|
            0 <= i < j < r@.len() ==> above(
                ((#[trigger] r@[i]).0, r@[i].1),
                ((#[trigger] r@[j]).0, r@[j].1),
            ),
        forall|i: int|
            0 <= i < r@.len() ==> rank_map_entries(*m).contains_key(((#[trigger] r@[i]).0, r@[i].1))
                && rank_map_entries(*m)[(r@[i].0, r@[i].1)] == r@[i].2,
        forall|k: (i64, u128)| #[trigger]
            rank_map_entries(*m).contains_key(k) ==> (exists|i: int|
                0 <= i < r@.len() && ((#[trigger] r@[i]).0, r@[i].1) == k) || (forall|i: int|
                0 <= i < r@.len() ==> above(((#[trigger] r@[i]).0, r@[i].1), k)),
{
    m.iter().rev().take(limit).map(|e| (e.key().0, e.key().1, *e.value())).collect()
}

// ---------------------------------------------------------------------------------------------
// The index of one field
// ---------------------------------------------------------------------------------------------
/// The ranking of players by one field.
pub struct FieldIndex {
    path: String,
    scores: HashMap<u128, u64>,
    sorted_map: RankMap,
}

/// An index: its field and the players' scores.
pub struct IndexView {
    pub path: Seq<char>,
    pub scores: Map<u128, u64>,
}

impl View for FieldIndex {
    type V = IndexView;

    closed spec fn view(&self) -> IndexView {
        IndexView { path: self.path@, scores: self.scores@ }
    }
}

/// The sorted map holds each player's score under its rank and the player, and nothing else.
spec fn in_step(sorted: Map<(i64, u128), u64>, scores: Map<u128, u64>) -> bool {
    &&& forall|p: u128| #[trigger]
        scores.contains_key(p) ==> sorted.contains_key((json::float_rank(scores[p]), p))
            && sorted[(json::float_rank(scores[p]), p)] == scores[p]
    &&& forall|k: (i64, u128)| #[trigger]
        sorted.contains_key(k) ==> scores.contains_key(k.1) && json::float_rank(scores[k.1]) == k.0
            && sorted[k] == scores[k.1]
}

proof fn lemma_in_step_len(sorted: Map<(i64, u128), u64>, scores: Map<u128, u64>)
    requires
        in_step(sorted, scores),
        scores.dom().finite(),
    ensures
        sorted.dom().finite(),
        sorted.len() == scores.len(),
    decreases scores.len(),
{
    if scores.len() == 0 {
        assert(scores.dom() =~= Set::empty());
        assert(sorted.dom() =~= Set::empty());
    } else {
        let p = scores.dom().choose();
        assert(scores.contains_key(p));
        let k = (json::float_rank(scores[p]), p);
        let m = scores.remove(p);
        let t = sorted.remove(k);
        assert(m.dom() =~= scores.dom().remove(p));
        assert(t.dom() =~= sorted.dom().remove(k));
        assert(in_step(t, m));
        lemma_in_step_len(t, m);
        assert(sorted.dom() =~= t.dom().insert(k));
    }
}

/// A part of the standings with ranks, by views.
pub open spec fn rows_view(s: Seq<(PlayerId, u64, usize)>) -> Seq<(u128, u64, nat)> {
    s.map_values(|r: (PlayerId, u64, usize)| (r.0.0, r.1, r.2 as nat))
}

/// The ranks around a rank: `limit` of them where there are so many, half of them before it.
pub open spec fn around(rank: int, total: int, limit: int) -> (int, int) {
    let first = if rank - limit / 2 < 1 { 1 } else { rank - limit / 2 };
    let last = first + limit - 1;
    if last > total {
        (if total - (limit - 1) < 1 { 1 } else { total - (limit - 1) }, total)
    } else {
        (first, last)
    }
}

/// The rows of some ranks, both included; none where the first is 0 or after the last.
pub open spec fn rank_rows(s: Seq<(u128, u64)>, start: int, end: int) -> Seq<(u128, u64, nat)> {
    if start <= 0 || start > end {
        Seq::empty()
    } else {
        let from = capped(start - 1, s.len() as int);
        ranked(s, from, capped(end, s.len() as int))
    }
}

/// The number of players whose score is above a score.
pub open spec fn above_score(s: Seq<(u128, u64)>, target: u64) -> nat
    decreases s.len(),
{
    if s.len() == 0 {
        0
    } else {
        above_score(s.drop_last(), target) + (if json::float_less(target, s.last().1) {
            1nat
        } else {
            0nat
        })
    }
}

/// The rows of the first `n` places whose score is neither above `max` nor below `min`.
pub open spec fn score_rows(s: Seq<(u128, u64)>, min: u64, max: u64, n: int) -> Seq<(u128, u64, nat)>
    decreases n,
{
    if n <= 0 {
        Seq::empty()
    } else {
        let x = s[n - 1];
        let head = score_rows(s, min, max, n - 1);
        if !json::float_less(max, x.1) && !json::float_less(x.1, min) {
            head.push((x.0, x.1, n as nat))
        } else {
            head
        }
    }
}

impl FieldIndex {
    pub closed spec fn wf(&self) -> bool {
        &&& in_step(rank_map_entries(self.sorted_map), self.scores@)
        &&& self.scores@.dom().finite()
        &&& forall|p: u128| #[trigger] self.scores@.contains_key(p) ==> !json::is_nan(self.scores@[p])
    }

    /// An index holds finitely many scores, each of them a number, and its standings list each player
    /// once.
    pub proof fn law_standings_list_all_players(&self)
        requires
            self.wf(),
        ensures
            self@.scores.dom().finite(),
            lists(standings(self@.scores), self@.scores),
            standings(self@.scores).len() == self@.scores.len(),
            forall|p: u128| #[trigger]
                self@.scores.contains_key(p) ==> !json::is_nan(self@.scores[p]),
    {
        lemma_standings_exist(self.scores@);
    }

    /// An index without players.
    pub fn new(path: String) -> (r: Self)
        ensures
            r.wf(),
            r@.path == path@,
            r@.scores == Map::<u128, u64>::empty(),
    {
        let sorted_map = rank_map_new();
        let scores: HashMap<u128, u64> = HashMap::new();
        FieldIndex { path, scores, sorted_map }
    }

    pub fn path(&self) -> (r: &str)
        ensures
            r@ == self@.path,
    {
        self.path.as_str()
    }

    /// Sets a player's score.
    pub fn update(&mut self, player: PlayerId, new_score: u64)
        requires
            old(self).wf(),
            !json::is_nan(new_score),
        ensures
            final(self).wf(),
            final(self)@.path == old(self)@.path,
            final(self)@.scores == old(self)@.scores.insert(player.0, new_score),
    {
        let ghost scores = self.scores@;
        let ghost sorted = rank_map_entries(self.sorted_map);
        let key: i64 = json::rank_of_bits(new_score);
        let known: Option<u64> = match self.scores.get(&player.0) {
            Some(b) => Some(*b),
            None => None,
        };
        if let Some(old_score) = known {
            let old_key: i64 = json::rank_of_bits(old_score);
            rank_map_remove(&mut self.sorted_map, (old_key, player.0));
        }
        self.scores.insert(player.0, new_score);
        rank_map_insert(&mut self.sorted_map, (key, player.0), new_score);
        proof {
            let now = self.scores@;
            let then = rank_map_entries(self.sorted_map);
            assert forall|k: (i64, u128)| #[trigger] then.contains_key(k) implies now.contains_key(k.1)
                && json::float_rank(now[k.1]) == k.0 && then[k] == now[k.1] by {
                if k != (key, player.0) {
                    assert(sorted.contains_key(k));
                }
            }
            assert forall|p: u128| #[trigger] now.contains_key(p) implies then.contains_key(
                (json::float_rank(now[p]), p),
            ) && then[(json::float_rank(now[p]), p)] == now[p] by {
                if p != player.0 {
                    assert(scores.contains_key(p));
                }
            }
        }
    }

    /// Forgets a player.
    pub fn remove(&mut self, player: &PlayerId)
        requires
            old(self).wf(),
        ensures
            final(self).wf(),
            final(self)@.path == old(self)@.path,
            final(self)@.scores == old(self)@.scores.remove(player.0),
    {
        let ghost scores = self.scores@;
        let ghost sorted = rank_map_entries(self.sorted_map);
        let known: Option<u64> = match self.scores.get(&player.0) {
            Some(b) => Some(*b),
            None => None,
        };
        self.scores.remove(&player.0);
        if let Some(old_score) = known {
            let old_key: i64 = json::rank_of_bits(old_score);
            rank_map_remove(&mut self.sorted_map, (old_key, player.0));
        }
        proof {
            let now = self.scores@;
            let then = rank_map_entries(self.sorted_map);
            assert(now =~= scores.remove(player.0));
            assert forall|k: (i64, u128)| #[trigger] then.contains_key(k) implies now.contains_key(k.1)
                && json::float_rank(now[k.1]) == k.0 && then[k] == now[k.1] by {
                assert(sorted.contains_key(k));
            }
            assert forall|p: u128| #[trigger] now.contains_key(p) implies then.contains_key(
                (json::float_rank(now[p]), p),
            ) && then[(json::float_rank(now[p]), p)] == now[p] by {
                assert(scores.contains_key(p));
            }
        }
    }

    /// The first places of the standings.
    fn first_places(&self, limit: usize) -> (r: Vec<(u128, u64)>)
        requires
            self.wf(),
        ensures
            r@ == standings(self@.scores).take(capped(limit as int, self@.scores.len() as int)),
            r@.len() == capped(limit as int, self@.scores.len() as int),
    {
        let top = rank_map_top(&self.sorted_map, limit);
        let ghost scores = self.scores@;
        let ghost sorted = rank_map_entries(self.sorted_map);
        let mut out: Vec<(u128, u64)> = Vec::new();
        let mut i: usize = 0;
        while i < top.len()
            invariant
                i <= top@.len(),
                out@.len() == i,
                forall|j: int| 0 <= j < i ==> #[trigger] out@[j] == (top@[j].1, top@[j].2),
            decreases top@.len() - i,
        {
            out.push((top[i].1, top[i].2));
            i = i + 1;
        }
        proof {
            lemma_in_step_len(sorted, scores);
            lemma_standings_exist(scores);
            assert forall|j: int| 0 <= j < out@.len() implies scores.contains_key(
                (#[trigger] out@[j]).0,
            ) && scores[out@[j].0] == out@[j].1 && json::float_rank(out@[j].1) == top@[j].0 by {
                assert(sorted.contains_key((top@[j].0, top@[j].1)));
            }
            assert forall|a: int, b: int| 0 <= a < b < out@.len() implies before(
                #[trigger] out@[a],
                #[trigger] out@[b],
            ) by {
                assert(above((top@[a].0, top@[a].1), (top@[b].0, top@[b].1)));
            }
            assert forall|p: u128| #[trigger] scores.contains_key(p) implies (exists|j: int|
                0 <= j < out@.len() && (#[trigger] out@[j]).0 == p) || (forall|j: int|
                0 <= j < out@.len() ==> before(#[trigger] out@[j], (p, scores[p]))) by {
                let k = (json::float_rank(scores[p]), p);
                assert(sorted.contains_key(k));
                if exists|j: int| 0 <= j < top@.len() && ((#[trigger] top@[j]).0, top@[j].1) == k {
                    let j = choose|j: int|
                        0 <= j < top@.len() && ((#[trigger] top@[j]).0, top@[j].1) == k;
                    assert(out@[j].0 == p);
                } else {
                    assert forall|j: int| 0 <= j < out@.len() implies before(
                        #[trigger] out@[j],
                        (p, scores[p]),
                    ) by {
                        assert(above((top@[j].0, top@[j].1), k));
                    }
                }
            }
            assert(top_of(out@, scores));
            lemma_prefix_same(out@, standings(scores), scores, out@.len() as int);
            assert(out@.take(out@.len() as int) =~= out@);
        }
        out
    }

    /// The best players with their ranks.
    pub fn get_top(&self, limit: usize) -> (r: Vec<(PlayerId, u64, usize)>)
        requires
            self.wf(),
        ensures
            rows_view(r@) == ranked(
                standings(self@.scores),
                0,
                capped(limit as int, self@.scores.len() as int),
            ),
    {
        let places = self.first_places(limit);
        let ghost s = standings(self@.scores);
        let mut out: Vec<(PlayerId, u64, usize)> = Vec::new();
        let mut i: usize = 0;
        while i < places.len()
            invariant
                i <= places@.len(),
                out@.len() == i,
                forall|j: int|
                    0 <= j < i ==> #[trigger] out@[j] == (
                        PlayerId(places@[j].0),
                        places@[j].1,
                        (j + 1) as usize,
                    ),
            decreases places@.len() - i,
        {
            out.push((PlayerId(places[i].0), places[i].1, i + 1));
            i = i + 1;
        }
        proof {
            lemma_standings_exist(self.scores@);
            assert(rows_view(out@) =~= ranked(s, 0, places@.len() as int));
        }
        out
    }

    /// A player's rank and score.
    pub fn get_rank(&self, player: &PlayerId) -> (r: Option<(usize, u64)>)
        requires
            self.wf(),
        ensures
            match r {
                Some((rank, score)) => self@.scores.contains_key(player.0) && score
                    == self@.scores[player.0] && rank == place_in(
                    standings(self@.scores),
                    player.0,
                ) + 1 && 1 <= rank <= self@.scores.len(),
                None => !self@.scores.contains_key(player.0),
            },
    {
        let score: u64 = match self.scores.get(&player.0) {
            Some(b) => *b,
            None => {
                return None;
            },
        };
        let total: usize = rank_map_len(&self.sorted_map);
        let places = self.first_places(total);
        let ghost s = standings(self@.scores);
        proof {
            lemma_in_step_len(rank_map_entries(self.sorted_map), self.scores@);
            lemma_standings_exist(self.scores@);
            assert(s.take(s.len() as int) =~= s);
        }
        let mut i: usize = 0;
        while i < places.len()
            invariant
                i <= places@.len(),
                places@ == s,
                s == standings(self@.scores),
                lists(s, self@.scores),
                s.len() == self@.scores.len(),
                self@.scores.contains_key(player.0),
                score == self@.scores[player.0],
                forall|j: int| 0 <= j < i ==> (#[trigger] s[j]).0 != player.0,
            decreases places@.len() - i,
        {
            if places[i].0 == player.0 {
                proof {
                    assert(s[i as int].0 == player.0);
                    lemma_lists_distinct(s, self@.scores, i as int, place_in(s, player.0));
                }
                return Some((i + 1, score));
            }
            i = i + 1;
        }
        proof {
            let j = choose|j: int| 0 <= j < s.len() && (#[trigger] s[j]).0 == player.0;
            assert(false);
        }
        None
    }

    /// The players of some ranks, both included.
    pub fn get_rank_range(&self, start_rank: usize, end_rank: usize) -> (r: Vec<
        (PlayerId, u64, usize),
    >)
        requires
            self.wf(),
        ensures
            rows_view(r@) == rank_rows(
                standings(self@.scores),
                start_rank as int,
                end_rank as int,
            ),
    {
        let mut out: Vec<(PlayerId, u64, usize)> = Vec::new();
        let ghost s = standings(self@.scores);
        assert(rows_view(out@) =~= Seq::empty());
        if start_rank == 0 || start_rank > end_rank {
            return out;
        }
        let places = self.first_places(end_rank);
        proof {
            lemma_standings_exist(self.scores@);
        }
        let ghost from = capped(start_rank - 1, s.len() as int);
        let mut i: usize = start_rank - 1;
        assert(rows_view(out@) =~= ranked(s, from, from));
        while i < places.len()
            invariant
                places@ == s.take(capped(end_rank as int, s.len() as int)),
                places@.len() == capped(end_rank as int, s.len() as int),
                from == capped(start_rank - 1, s.len() as int),
                start_rank <= end_rank,
                1 <= start_rank,
                start_rank - 1 <= i,
                start_rank - 1 < s.len() ==> i <= places@.len(),
                rows_view(out@) == ranked(s, from, if i <= s.len() { i as int } else { from }),
            decreases places@.len() - i,
        {
            let ghost held = rows_view(out@);
            out.push((PlayerId(places[i].0), places[i].1, i + 1));
            proof {
                assert(places@[i as int] == s[i as int]);
                assert(rows_view(out@) =~= held.push((s[i as int].0, s[i as int].1, (i + 1) as nat)));
                assert(ranked(s, from, i + 1) =~= held.push(
                    (s[i as int].0, s[i as int].1, (i + 1) as nat),
                ));
            }
            i = i + 1;
        }
        assert(rows_view(out@) =~= rank_rows(s, start_rank as int, end_rank as int));
        out
    }

    /// The players around a player.
    pub fn get_around_key(&self, player: &PlayerId, limit: usize) -> (r: Option<
        Vec<(PlayerId, u64, usize)>,
    >)
        requires
            self.wf(),
        ensures
            match r {
                None => !self@.scores.contains_key(player.0),
                Some(rows) => self@.scores.contains_key(player.0) && rows_view(rows@) == (if limit
                    == 0 {
                    Seq::empty()
                } else {
                    let s = standings(self@.scores);
                    let (first, last) = around(
                        place_in(s, player.0) + 1,
                        s.len() as int,
                        limit as int,
                    );
                    rank_rows(s, first, last)
                }),
            },
    {
        let rank: usize = match self.get_rank(player) {
            Some((rank, _)) => rank,
            None => {
                return None;
            },
        };
        let total: usize = rank_map_len(&self.sorted_map);
        proof {
            lemma_in_step_len(rank_map_entries(self.sorted_map), self.scores@);
            lemma_standings_exist(self.scores@);
        }
        if total == 0 || limit == 0 {
            let none: Vec<(PlayerId, u64, usize)> = Vec::new();
            assert(rows_view(none@) =~= Seq::empty());
            return Some(none);
        }
        let (first, last) = window(rank, total, limit);
        Some(self.get_rank_range(first, last))
    }

    /// The players around a score.
    pub fn get_around_score(&self, target_score: u64, limit: usize) -> (r: Vec<
        (PlayerId, u64, usize),
    >)
        requires
            self.wf(),
        ensures
            rows_view(r@) == (if limit == 0 || self@.scores.len() == 0 {
                Seq::empty()
            } else {
                let s = standings(self@.scores);
                let rank = capped(above_score(s, target_score) as int + 1, s.len() as int);
                let (first, last) = around(rank, s.len() as int, limit as int);
                rank_rows(s, first, last)
            }),
    {
        let total: usize = rank_map_len(&self.sorted_map);
        let ghost s = standings(self@.scores);
        proof {
            lemma_in_step_len(rank_map_entries(self.sorted_map), self.scores@);
            lemma_standings_exist(self.scores@);
        }
        if total == 0 || limit == 0 {
            let none: Vec<(PlayerId, u64, usize)> = Vec::new();
            assert(rows_view(none@) =~= Seq::empty());
            return none;
        }
        let places = self.first_places(total);
        assert(s.take(s.len() as int) =~= s);
        let mut higher: usize = 0;
        proof {
            assert(s.take(0) =~= Seq::empty());
        }
        while higher < places.len() && json::bits_less(target_score, places[higher].1)
            invariant
                places@ == s,
                higher <= s.len(),
                above_score(s.take(higher as int), target_score) == higher,
            decreases s.len() - higher,
        {
            assert(s.take(higher + 1).drop_last() =~= s.take(higher as int));
            higher = higher + 1;
        }
        proof {
            lemma_none_above(s, target_score, higher as int, s.len() as int);
            assert(s.take(s.len() as int) =~= s);
        }
        let approx: usize = if higher < total {
            higher + 1
        } else {
            total
        };
        let (first, last) = window(approx, total, limit);
        self.get_rank_range(first, last)
    }

    /// The players whose score lies within bounds, both included, at most `limit` of them.
    pub fn get_score_range(&self, min_score: u64, max_score: u64, limit: usize) -> (r: Vec<
        (PlayerId, u64, usize),
    >)
        requires
            self.wf(),
        ensures
            rows_view(r@) == (if json::float_less(max_score, min_score) {
                Seq::empty()
            } else {
                let s = standings(self@.scores);
                let all = score_rows(s, min_score, max_score, s.len() as int);
                all.take(capped(limit as int, all.len() as int))
            }),
    {
        let mut results: Vec<(PlayerId, u64, usize)> = Vec::new();
        let ghost s = standings(self@.scores);
        assert(rows_view(results@) =~= Seq::empty());
        if json::bits_less(max_score, min_score) {
            return results;
        }
        let ghost all = score_rows(s, min_score, max_score, s.len() as int);
        if limit == 0 {
            assert(all.take(0) =~= Seq::empty());
            return results;
        }
        let total: usize = rank_map_len(&self.sorted_map);
        let places = self.first_places(total);
        proof {
            lemma_in_step_len(rank_map_entries(self.sorted_map), self.scores@);
            lemma_standings_exist(self.scores@);
            assert(s.take(s.len() as int) =~= s);
        }
        let mut i: usize = 0;
        while i < places.len()
            invariant_except_break
                places@ == s,
                s == standings(self@.scores),
                lists(s, self@.scores),
                self.wf(),
                i <= s.len(),
                results@.len() < limit,
                all == score_rows(s, min_score, max_score, s.len() as int),
                rows_view(results@) == score_rows(s, min_score, max_score, i as int),
            ensures
                rows_view(results@) == all.take(capped(limit as int, all.len() as int)),
            decreases s.len() - i,
        {
            let (player, bits) = (places[i].0, places[i].1);
            if json::bits_less(max_score, bits) {
                i = i + 1;
                proof {
                    if i == s.len() {
                        assert(all.take(all.len() as int) =~= all);
                    }
                }
                continue ;
            }
            if json::bits_less(bits, min_score) {
                proof {
                    lemma_rest_below(s, min_score, max_score, i as int, s.len() as int);
                    assert(all.take(all.len() as int) =~= all);
                }
                break ;
            }
            let ghost held = rows_view(results@);
            results.push((PlayerId(player), bits, i + 1));
            proof {
                assert(rows_view(results@) =~= held.push((player, bits, (i + 1) as nat)));
                lemma_score_rows_grow(s, min_score, max_score, i + 1, s.len() as int);
            }
            i = i + 1;
            if results.len() >= limit {
                proof {
                    assert(all.take(limit as int) =~= rows_view(results@));
                }
                break ;
            }
            proof {
                if i == s.len() {
                    assert(all.take(all.len() as int) =~= all);
                }
            }
        }
        results
    }

    pub fn len(&self) -> (r: usize)
        requires
            self.wf(),
        ensures
            r == self@.scores.len(),
    {
        proof {
            lemma_in_step_len(rank_map_entries(self.sorted_map), self.scores@);
        }
        rank_map_len(&self.sorted_map)
    }

    pub fn is_empty(&self) -> (r: bool)
        requires
            self.wf(),
        ensures
            r == (self@.scores.len() == 0),
    {
        self.len() == 0
    }
}

fn window(rank: usize, total: usize, limit: usize) -> (r: (usize, usize))
    requires
        1 <= rank <= total,
        limit > 0,
    ensures
        (r.0 as int, r.1 as int) == around(rank as int, total as int, limit as int),
{
    let half: usize = limit / 2;
    let first: usize = if rank > half {
        rank - half
    } else {
        1
    };
    // The last rank is compared without adding, which could overflow.
    if limit - 1 > total - first {
        let start: usize = if total > limit - 1 {
            total - (limit - 1)
        } else {
            1
        };
        (start, total)
    } else {
        (first, first + (limit - 1))
    }
}

proof fn lemma_none_above(s: Seq<(u128, u64)>, target: u64, from: int, n: int)
    requires
        0 <= from <= n <= s.len(),
        in_order(s),
        from < s.len() ==> !json::float_less(target, s[from].1),
        forall|i: int| 0 <= i < s.len() ==> !json::is_nan((#[trigger] s[i]).1),
    ensures
        above_score(s.take(n), target) == above_score(s.take(from), target),
    decreases n - from,
{
    if from < n {
        lemma_none_above(s, target, from, n - 1);
        assert(s.take(n).drop_last() =~= s.take(n - 1));
        assert(s.take(n).last() == s[n - 1]);
        if n - 1 > from {
            assert(before(s[from], s[n - 1]));
        }
    }
}

proof fn lemma_rest_below(s: Seq<(u128, u64)>, min: u64, max: u64, from: int, n: int)
    requires
        0 <= from < n <= s.len(),
        in_order(s),
        json::float_less(s[from].1, min),
        forall|i: int| 0 <= i < s.len() ==> !json::is_nan((#[trigger] s[i]).1),
    ensures
        score_rows(s, min, max, n) == score_rows(s, min, max, from),
    decreases n - from,
{
    if from < n - 1 {
        lemma_rest_below(s, min, max, from, n - 1);
        assert(before(s[from], s[n - 1]));
    }
}

proof fn lemma_score_rows_grow(s: Seq<(u128, u64)>, min: u64, max: u64, n: int, m: int)
    requires
        0 <= n <= m,
    ensures
        score_rows(s, min, max, n).len() <= score_rows(s, min, max, m).len(),
        score_rows(s, min, max, m).take(score_rows(s, min, max, n).len() as int) == score_rows(
            s,
            min,
            max,
            n,
        ),
    decreases m - n,
{
    let a = score_rows(s, min, max, n);
    if n == m {
        assert(a.take(a.len() as int) =~= a);
    } else {
        lemma_score_rows_grow(s, min, max, n, m - 1);
        let b = score_rows(s, min, max, m - 1);
        let c = score_rows(s, min, max, m);
        assert(c.take(a.len() as int) =~= b.take(a.len() as int));
    }
}

// ---------------------------------------------------------------------------------------------
// All indices of a table
// ---------------------------------------------------------------------------------------------
/// The indices of a table, each field once.
pub struct IndexManager {
    indices: Vec<FieldIndex>,
}

impl View for IndexManager {
    type V = Seq<IndexView>;

    closed spec fn view(&self) -> Seq<IndexView> {
        Seq::new(self.indices@.len(), |i: int| self.indices@[i]@)
    }
}

/// No field is indexed twice.
pub open spec fn distinct_paths(s: Seq<IndexView>) -> bool {
    forall|i: int, j: int| 0 <= i < j < s.len() ==> (#[trigger] s[i]).path != (#[trigger] s[j]).path
}

/// The place of the index of a field.
pub open spec fn index_place(s: Seq<IndexView>, path: Seq<char>) -> Option<int>
    decreases s.len(),
{
    if s.len() == 0 {
        None
    } else if s.last().path == path {
        Some(s.len() - 1)
    } else {
        index_place(s.drop_last(), path)
    }
}

/// What a document put under a key leaves of an index: the number at the index's field becomes the
/// player's score; without one the score stays.
pub open spec fn after_put(x: IndexView, player: u128, doc: Seq<u8>) -> IndexView {
    match extracted(x.path, doc) {
        Some(bits) if !json::is_nan(bits) => IndexView {
            scores: x.scores.insert(player, bits),
            ..x
        },
        _ => x,
    }
}

/// A new index of a field over some records.
pub open spec fn filled(path: Seq<char>, records: Seq<(u128, Seq<u8>)>) -> IndexView
    decreases records.len(),
{
    if records.len() == 0 {
        IndexView { path, scores: Map::empty() }
    } else {
        after_put(filled(path, records.drop_last()), records.last().0, records.last().1)
    }
}

/// The names of some indices.
pub open spec fn index_paths(s: Seq<IndexView>) -> Seq<Seq<char>> {
    Seq::new(s.len(), |i: int| s[i].path)
}

/// The texts of a list.
pub open spec fn texts_view(s: Seq<String>) -> Seq<Seq<char>> {
    Seq::new(s.len(), |i: int| s[i]@)
}

proof fn lemma_index_place(s: Seq<IndexView>, path: Seq<char>, n: int)
    requires
        0 <= n <= s.len(),
        forall|j: int| n <= j < s.len() ==> (#[trigger] s[j]).path != path,
    ensures
        index_place(s, path) == index_place(s.take(n), path),
    decreases s.len() - n,
{
    if n < s.len() {
        lemma_index_place(s, path, n + 1);
        assert(s.take(n + 1).drop_last() =~= s.take(n));
        assert(s.take(n + 1).last() == s[n]);
    } else {
        assert(s.take(n) =~= s);
    }
}

impl IndexManager {
    pub closed spec fn wf(&self) -> bool {
        &&& forall|i: int| 0 <= i < self.indices@.len() ==> (#[trigger] self.indices@[i]).wf()
        &&& distinct_paths(self@)
    }

    pub fn new() -> (r: Self)
        ensures
            r.wf(),
            r@.len() == 0,
    {
        IndexManager { indices: Vec::new() }
    }

    fn find(&self, path: &str) -> (r: Option<usize>)
        ensures
            match r {
                Some(i) => i < self@.len() && self@[i as int].path == path@ && index_place(
                    self@,
                    path@,
                ) == Some(i as int),
                None => index_place(self@, path@) is None && forall|j: int|
                    0 <= j < self@.len() ==> (#[trigger] self@[j]).path != path@,
            },
    {
        let ghost view = self@;
        let mut i: usize = self.indices.len();
        while i > 0
            invariant
                i <= self.indices@.len(),
                view == self@,
                view.len() == self.indices@.len(),
                forall|j: int| i <= j < view.len() ==> (#[trigger] view[j]).path != path@,
            decreases i,
        {
            assert(view[i - 1] == self.indices@[i - 1]@);
            if text::text_eq(self.indices[i - 1].path(), path) {
                proof {
                    lemma_index_place(view, path@, i as int);
                    assert(view.take(i as int).last() == view[i - 1]);
                }
                return Some(i - 1);
            }
            i = i - 1;
        }
        proof {
            lemma_index_place(view, path@, 0);
            assert(view.take(0) =~= Seq::empty());
        }
        None
    }

    /// Makes an index of a field, unless there is one. Players enter it with their next write.
    pub fn create_index(&mut self, path: &str) -> (r: &FieldIndex)
        requires
            old(self).wf(),
        ensures
            final(self).wf(),
            r.wf(),
            r@.path == path@,
            match index_place(old(self)@, path@) {
                Some(i) => final(self)@ == old(self)@ && r@ == old(self)@[i],
                None => r@.scores == Map::<u128, u64>::empty() && final(self)@ == old(self)@.push(
                    r@,
                ),
            },
    {
        match self.find(path) {
            Some(i) => &self.indices[i],
            None => {
                let ghost before = self@;
                let index = FieldIndex::new(path.to_owned());
                let ghost x = index@;
                self.indices.push(index);
                proof {
                    assert(self@ =~= before.push(x));
                    assert forall|i: int, j: int| 0 <= i < j < self@.len() implies (
                    #[trigger] self@[i]).path != (#[trigger] self@[j]).path by {
                        assert(self@[i] == before[i]);
                        if j < before.len() {
                            assert(self@[j] == before[j]);
                        }
                    }
                }
                &self.indices[self.indices.len() - 1]
            },
        }
    }

    /// Makes an index of a field over some records, unless there is one.
    pub fn create_index_over(&mut self, path: &str, records: &Vec<(PlayerId, Bytes)>)
        requires
            old(self).wf(),
        ensures
            final(self).wf(),
            match index_place(old(self)@, path@) {
                Some(_) => final(self)@ == old(self)@,
                None => final(self)@ == old(self)@.push(
                    filled(path@, iterator::pairs_view(records@)),
                ),
            },
    {
        if self.find(path).is_some() {
            return ;
        }
        let ghost before = self@;
        let ghost rows = iterator::pairs_view(records@);
        let mut index = FieldIndex::new(path.to_owned());
        let mut i: usize = 0;
        assert(rows.take(0) =~= Seq::empty());
        while i < records.len()
            invariant
                i <= records@.len(),
                rows == iterator::pairs_view(records@),
                index.wf(),
                index@.path == path@,
                index@ == filled(path@, rows.take(i as int)),
            decreases records@.len() - i,
        {
            proof {
                assert(rows.take(i + 1).drop_last() =~= rows.take(i as int));
                assert(rows.take(i + 1).last() == rows[i as int]);
                assert(rows[i as int] == (
                    records@[i as int].0.0,
                    wire::bytes_view(records@[i as int].1),
                ));
            }
            if let Some(bits) = extract_number_from_json(path, &*records[i].1) {
                if !json::bits_are_nan(bits) {
                    index.update(records[i].0, bits);
                }
            }
            i = i + 1;
        }
        assert(rows.take(i as int) =~= rows);
        let ghost x = index@;
        self.indices.push(index);
        proof {
            assert(self@ =~= before.push(x));
            lemma_place_absent(before, path@);
        }
    }

    /// The indexed fields.
    pub fn list_indices(&self) -> (r: Vec<String>)
        ensures
            texts_view(r@) == index_paths(self@),
    {
        let mut out: Vec<String> = Vec::new();
        let mut i: usize = 0;
        while i < self.indices.len()
            invariant
                i <= self.indices@.len(),
                out@.len() == i,
                forall|j: int| 0 <= j < i ==> (#[trigger] out@[j])@ == self@[j].path,
            decreases self.indices@.len() - i,
        {
            out.push(self.indices[i].path().to_owned());
            i = i + 1;
        }
        assert(texts_view(out@) =~= index_paths(self@));
        out
    }

    /// The indexed fields.
    pub fn list_indexes(&self) -> (r: Vec<String>)
        ensures
            texts_view(r@) == index_paths(self@),
    {
        self.list_indices()
    }

    /// Drops all indices.
    pub fn clear(&mut self)
        ensures
            final(self).wf(),
            final(self)@.len() == 0,
    {
        self.indices.clear();
    }

    pub fn get_index(&self, path: &str) -> (r: Option<&FieldIndex>)
        requires
            self.wf(),
        ensures
            match r {
                Some(x) => x.wf() && x@.path == path@ && (index_place(self@, path@) matches Some(i)
                    && x@ == self@[i]),
                None => index_place(self@, path@) is None,
            },
    {
        match self.find(path) {
            Some(i) => Some(&self.indices[i]),
            None => None,
        }
    }

    /// Takes note of a document put under a key.
    pub fn on_put(&mut self, player: PlayerId, json_bytes: &[u8])
        requires
            old(self).wf(),
        ensures
            final(self).wf(),
            final(self)@ == Seq::new(
                old(self)@.len(),
                |i: int| after_put(old(self)@[i], player.0, json_bytes@),
            ),
    {
        let ghost before = self@;
        let mut i: usize = 0;
        while i < self.indices.len()
            invariant
                i <= self.indices@.len(),
                self.indices@.len() == before.len(),
                forall|j: int| 0 <= j < before.len() ==> (#[trigger] self.indices@[j]).wf(),
                forall|j: int|
                    0 <= j < before.len() ==> (#[trigger] self.indices@[j])@ == (if j < i {
                        after_put(before[j], player.0, json_bytes@)
                    } else {
                        before[j]
                    }),
            decreases self.indices@.len() - i,
        {
            let ghost held = self.indices@;
            if let Some(bits) = extract_number_from_json(self.indices[i].path(), json_bytes) {
                if !json::bits_are_nan(bits) {
                    self.indices[i].update(player, bits);
                }
            }
            i = i + 1;
        }
        proof {
            assert(self@ =~= Seq::new(
                before.len(),
                |i: int| after_put(before[i], player.0, json_bytes@),
            ));
            lemma_same_paths(before, self@);
        }
    }

    /// Takes note of a deletion.
    pub fn on_delete(&mut self, player: PlayerId)
        requires
            old(self).wf(),
        ensures
            final(self).wf(),
            final(self)@ == Seq::new(
                old(self)@.len(),
                |i: int|
                    (IndexView {
                        path: old(self)@[i].path,
                        scores: old(self)@[i].scores.remove(player.0),
                    }),
            ),
    {
        let ghost before = self@;
        let mut i: usize = 0;
        while i < self.indices.len()
            invariant
                i <= self.indices@.len(),
                self.indices@.len() == before.len(),
                forall|j: int| 0 <= j < before.len() ==> (#[trigger] self.indices@[j]).wf(),
                forall|j: int|
                    0 <= j < before.len() ==> (#[trigger] self.indices@[j])@ == (if j < i {
                        IndexView {
                            path: before[j].path,
                            scores: before[j].scores.remove(player.0),
                        }
                    } else {
                        before[j]
                    }),
            decreases self.indices@.len() - i,
        {
            self.indices[i].remove(&player);
            i = i + 1;
        }
        proof {
            assert(self@ =~= Seq::new(
                before.len(),
                |i: int|
                    (IndexView { path: before[i].path, scores: before[i].scores.remove(player.0) }),
            ));
            lemma_same_paths(before, self@);
        }
    }
}

proof fn lemma_place_absent(s: Seq<IndexView>, path: Seq<char>)
    requires
        index_place(s, path) is None,
    ensures
        forall|i: int| 0 <= i < s.len() ==> (#[trigger] s[i]).path != path,
    decreases s.len(),
{
    if s.len() > 0 {
        lemma_place_absent(s.drop_last(), path);
        assert forall|i: int| 0 <= i < s.len() implies (#[trigger] s[i]).path != path by {
            if i < s.len() - 1 {
                assert(s.drop_last()[i] == s[i]);
            }
        }
    }
}

proof fn lemma_same_paths(a: Seq<IndexView>, b: Seq<IndexView>)
    requires
        distinct_paths(a),
        a.len() == b.len(),
        forall|i: int| 0 <= i < a.len() ==> (#[trigger] b[i]).path == a[i].path,
    ensures
        distinct_paths(b),
{
    assert forall|i: int, j: int| 0 <= i < j < b.len() implies (#[trigger] b[i]).path != (
    #[trigger] b[j]).path by {
        assert(a[i].path != a[j].path);
    }
}

impl Default for IndexManager {
    fn default() -> (r: Self)
        ensures
            r.wf(),
            r@.len() == 0,
    {
        IndexManager::new()
    }
}

// ---------------------------------------------------------------------------------------------
// Laws
// ---------------------------------------------------------------------------------------------
/// Scores never rise down the standings.
pub proof fn law_standings_descend(scores: Map<u128, u64>, i: int, j: int)
    requires
        scores.dom().finite(),
        0 <= i <= j < standings(scores).len(),
    ensures
        !json::float_less(standings(scores)[i].1, standings(scores)[j].1),
{
    lemma_standings_exist(scores);
    if i < j {
        assert(before(standings(scores)[i], standings(scores)[j]));
    }
}

/// Every player with a score has exactly one place, and stands there with that score.
pub proof fn law_every_player_has_one_place(scores: Map<u128, u64>, player: u128, i: int)
    requires
        scores.dom().finite(),
        scores.contains_key(player),
        0 <= i < standings(scores).len(),
    ensures
        0 <= place_in(standings(scores), player) < scores.len(),
        standings(scores)[place_in(standings(scores), player)] == (player, scores[player]),
        standings(scores)[i].0 == player ==> i == place_in(standings(scores), player),
{
    lemma_standings_exist(scores);
    let s = standings(scores);
    assert(exists|k: int| 0 <= k < s.len() && (#[trigger] s[k]).0 == player);
    let at = place_in(s, player);
    assert(s[at].0 == player);
    if s[i].0 == player {
        lemma_lists_distinct(s, scores, i, at);
    }
}

/// A player's rank counts the players with a higher score, and those with the same score and a
/// larger key, before it.
pub proof fn law_rank_counts_those_before(scores: Map<u128, u64>, player: u128, other: u128)
    requires
        scores.dom().finite(),
        scores.contains_key(player),
        scores.contains_key(other),
        player != other,
    ensures
        place_in(standings(scores), other) < place_in(standings(scores), player) <==> before(
            (other, scores[other]),
            (player, scores[player]),
        ),
{
    lemma_standings_exist(scores);
    let s = standings(scores);
    assert(exists|k: int| 0 <= k < s.len() && (#[trigger] s[k]).0 == player);
    assert(exists|k: int| 0 <= k < s.len() && (#[trigger] s[k]).0 == other);
    let a = place_in(s, player);
    let b = place_in(s, other);
    assert(s[a].0 == player && s[b].0 == other);
    if a < b {
        assert(before(s[a], s[b]));
    } else if b < a {
        assert(before(s[b], s[a]));
    }
}

/// A new index ranks every record that has a number at its field, with that number, and nothing
/// else.
pub proof fn law_new_index_ranks_all_records(
    path: Seq<char>,
    records: Seq<(u128, Seq<u8>)>,
    player: u128,
)
    requires
        forall|i: int, j: int|
            0 <= i < j < records.len() ==> (#[trigger] records[i]).0 != (#[trigger] records[j]).0,
    ensures
        filled(path, records).path == path,
        filled(path, records).scores.contains_key(player) ==> exists|i: int|
            0 <= i < records.len() && (#[trigger] records[i]).0 == player && extracted(
                path,
                records[i].1,
            ) == Some(filled(path, records).scores[player]),
        forall|i: int|
            0 <= i < records.len() && (#[trigger] records[i]).0 == player ==> (filled(
                path,
                records,
            ).scores.contains_key(player) <==> (extracted(path, records[i].1) matches Some(bits)
                && !json::is_nan(bits))),
    decreases records.len(),
{
    if records.len() > 0 {
        let rest = records.drop_last();
        assert forall|i: int, j: int| 0 <= i < j < rest.len() implies (#[trigger] rest[i]).0 != (
        #[trigger] rest[j]).0 by {
            assert(rest[i] == records[i] && rest[j] == records[j]);
        }
        law_new_index_ranks_all_records(path, rest, player);
        let last = records.len() - 1;
        if filled(path, records).scores.contains_key(player) {
            if records[last].0 == player {
                if exists|i: int| 0 <= i < rest.len() && (#[trigger] rest[i]).0 == player {
                    let i = choose|i: int| 0 <= i < rest.len() && (#[trigger] rest[i]).0 == player;
                    assert(records[i].0 != records[last].0);
                }
                assert(records[last].0 == player);
            } else {
                let i = choose|i: int|
                    0 <= i < rest.len() && (#[trigger] rest[i]).0 == player && extracted(
                        path,
                        rest[i].1,
                    ) == Some(filled(path, rest).scores[player]);
                assert(records[i].0 == player);
            }
        }
        assert forall|i: int| 0 <= i < records.len() && (#[trigger] records[i]).0 == player implies (
        filled(path, records).scores.contains_key(player) <==> (extracted(
            path,
            records[i].1,
        ) matches Some(bits) && !json::is_nan(bits))) by {
            if i < last {
                assert(rest[i] == records[i]);
                assert(records[i].0 != records[last].0);
            } else if exists|k: int| 0 <= k < rest.len() && (#[trigger] rest[k]).0 == player {
                let k = choose|k: int| 0 <= k < rest.len() && (#[trigger] rest[k]).0 == player;
                assert(records[k].0 != records[last].0);
            }
        }
    }
}

} // verus!
