//! What the lines of the protocol promise.
use vstd::prelude::*;
use vstd::utf8::*;

use crate::index::json;
use crate::proto::codec;
use crate::proto::command::CommandView;
use crate::proto::reply;
use crate::text;
use crate::types::{ErrorView, PlayerId};
use crate::types;

verus! {

// ---------------------------------------------------------------------------------------------
// Words and lines
// ---------------------------------------------------------------------------------------------
/// A word: some characters, none of them white space.
pub open spec fn is_word(s: Seq<char>) -> bool {
    s.len() > 0 && forall|i: int| 0 <= i < s.len() ==> !text::is_space(#[trigger] s[i])
}

/// Some words.
pub open spec fn are_words(s: Seq<Seq<char>>) -> bool {
    forall|i: int| 0 <= i < s.len() ==> is_word(#[trigger] s[i])
}

/// Text as the rest of a line: some characters, the first and the last no white space.
pub open spec fn is_rest(s: Seq<char>) -> bool {
    s.len() > 0 && !text::is_space(s[0]) && !text::is_space(s.last())
}

/// Texts one after the other, a blank between two.
pub open spec fn spaced(s: Seq<Seq<char>>) -> Seq<char>
    decreases s.len(),
{
    if s.len() == 0 {
        Seq::empty()
    } else if s.len() == 1 {
        s[0]
    } else {
        s[0] + seq![' '] + spaced(s.skip(1))
    }
}

/// What a line stands for.
#[verifier::opaque]
pub open spec fn stands_for(line: Seq<char>) -> core::result::Result<CommandView, ErrorView> {
    codec::command_of(line)
}

/// A line stands for a command.
pub open spec fn says(line: Seq<char>, c: CommandView) -> bool {
    stands_for(line) == Ok::<CommandView, ErrorView>(c)
}

/// A line is refused as a command.
pub open spec fn refuses(line: Seq<char>) -> bool {
    stands_for(line) matches Err(ErrorView::InvalidCommand(_))
}

/// A line of a verb and some words.
pub open spec fn line_of(verb: Seq<char>, s: Seq<Seq<char>>) -> Seq<char> {
    spaced(seq![verb] + s)
}

proof fn lemma_spaced(s: Seq<Seq<char>>)
    requires
        are_words(s),
        s.len() > 0,
    ensures
        is_rest(spaced(s)),
    decreases s.len(),
{
    assert(is_word(s[0]));
    assert(!text::is_space(s[0][0]));
    assert(!text::is_space(s[0].last()));
    if s.len() > 1 {
        assert forall|i: int| 0 <= i < s.skip(1).len() implies is_word(#[trigger] s.skip(1)[i]) by {
            assert(s.skip(1)[i] == s[i + 1]);
        }
        lemma_spaced(s.skip(1));
    }
}

/// The words of a line of words with blanks between them are those words.
proof fn lemma_words(s: Seq<Seq<char>>)
    requires
        are_words(s),
    ensures
        text::words(spaced(s)) == s,
    decreases s.len(),
{
    reveal_with_fuel(text::words, 3);
    if s.len() == 1 {
        assert(is_word(s[0]));
        text::lemma_word_stops(s[0], Seq::empty());
        assert(s[0] + Seq::<char>::empty() =~= s[0]);
        assert(s[0].take(s[0].len() as int) =~= s[0]);
        assert(s[0].skip(s[0].len() as int) =~= Seq::<char>::empty());
        assert(text::words(spaced(s)) =~= s);
    } else if s.len() > 1 {
        assert(is_word(s[0]));
        let more = s.skip(1);
        assert forall|i: int| 0 <= i < more.len() implies is_word(#[trigger] more[i]) by {
            assert(more[i] == s[i + 1]);
        }
        lemma_words(more);
        let tail = seq![' '] + spaced(more);
        let all = spaced(s);
        assert(all =~= s[0] + tail);
        assert(text::is_space(tail[0]));
        text::lemma_word_stops(s[0], tail);
        assert(all[0] == s[0][0]);
        assert(all.take(s[0].len() as int) =~= s[0]);
        assert(all.skip(s[0].len() as int) =~= tail);
        assert(tail.skip(1) =~= spaced(more));
        assert(text::words(tail) == text::words(spaced(more)));
        assert(text::words(all) =~= s);
    }
}

/// White space behind a line of words adds no word.
pub proof fn lemma_words_then_space(s: Seq<Seq<char>>, pad: Seq<char>)
    requires
        are_words(s),
        pad.len() == 1,
        text::is_space(pad[0]),
    ensures
        text::words(spaced(s) + pad) == s,
    decreases s.len(),
{
    reveal_with_fuel(text::words, 3);
    assert(pad.skip(1) =~= Seq::<char>::empty());
    assert(text::words(pad) =~= Seq::<Seq<char>>::empty());
    let all = spaced(s) + pad;
    if s.len() == 0 {
        assert(all =~= pad);
    } else {
        assert(is_word(s[0]));
        assert(!text::is_space(s[0][0]));
        let more = s.skip(1);
        let tail = if s.len() == 1 { pad } else { seq![' '] + (spaced(more) + pad) };
        assert(all =~= s[0] + tail);
        assert(text::is_space(tail[0]));
        text::lemma_word_stops(s[0], tail);
        assert(all[0] == s[0][0]);
        assert(all.take(s[0].len() as int) =~= s[0]);
        assert(all.skip(s[0].len() as int) =~= tail);
        if s.len() == 1 {
            assert(text::words(all) =~= s);
        } else {
            assert forall|i: int| 0 <= i < more.len() implies is_word(#[trigger] more[i]) by {
                assert(more[i] == s[i + 1]);
            }
            lemma_words_then_space(more, pad);
            assert(tail.skip(1) =~= spaced(more) + pad);
            assert(text::words(tail) == text::words(tail.skip(1)));
            assert(text::words(all) =~= s);
        }
    }
}

/// A line of words holds no white space but blanks.
pub proof fn lemma_spaced_chars(s: Seq<Seq<char>>, c: char)
    requires
        are_words(s),
        text::is_space(c),
        c != ' ',
    ensures
        !spaced(s).contains(c),
    decreases s.len(),
{
    let all = spaced(s);
    if s.len() > 0 {
        assert(is_word(s[0]));
        let more = s.skip(1);
        assert forall|i: int| 0 <= i < more.len() implies is_word(#[trigger] more[i]) by {
            assert(more[i] == s[i + 1]);
        }
        lemma_spaced_chars(more, c);
        if all.contains(c) {
            let i = choose|i: int| 0 <= i < all.len() && all[i] == c;
            if i < s[0].len() {
                assert(s[0][i] == c);
            } else if i > s[0].len() {
                assert(all[i] == spaced(more)[i - s[0].len() - 1]);
                assert(spaced(more).contains(spaced(more)[i - s[0].len() - 1]));
            }
        }
    }
}

/// A word and a rest are the pieces around the first blank.
proof fn lemma_split(word: Seq<char>, rest: Seq<char>, n: nat)
    requires
        is_word(word),
        n > 1,
    ensures
        text::pieces_up_to(word + seq![' '] + rest, " "@, n) == seq![word] + text::pieces_up_to(
            rest,
            " "@,
            (n - 1) as nat,
        ),
{
    reveal_strlit(" ");
    let all = word + seq![' '] + rest;
    let at = word.len() as int;
    assert(" "@ =~= seq![' ']);
    assert(all.subrange(at, at + 1) =~= " "@);
    assert forall|i: int| 0 <= i < at implies !(#[trigger] text::occurs_at(all, " "@, i)) by {
        if text::occurs_at(all, " "@, i) {
            assert(all.subrange(i, i + 1)[0] == all[i]);
            assert(all[i] == word[i]);
        }
    }
    text::lemma_place_is_first(all, " "@, 0, at);
    assert(all.take(at) =~= word);
    assert(all.skip(at + 1) =~= rest);
}

/// A word alone is one piece.
proof fn lemma_no_split(word: Seq<char>, n: nat)
    requires
        is_word(word),
        n > 0,
    ensures
        text::pieces_up_to(word, " "@, n) == seq![word],
{
    reveal_strlit(" ");
    text::lemma_place_of(word, " "@, 0);
    if let Some(i) = text::place_of(word, " "@, 0) {
        assert(word.subrange(i, i + 1)[0] == word[i]);
        assert(" "@[0] == ' ');
    }
}

/// The last of some pieces is all that is left.
proof fn lemma_last_piece(rest: Seq<char>)
    ensures
        text::pieces_up_to(rest, " "@, 1) == seq![rest],
{
}

/// Text that is the same but for the case is, in capitals, the same.
proof fn lemma_upper(s: Seq<char>, t: Seq<char>)
    requires
        text::same_ignoring_case(s, t),
        forall|i: int| 0 <= i < t.len() ==> 33 <= (#[trigger] t[i]) as u32 <= 96,
    ensures
        text::upper_text(s) == t,
        t.len() > 0 ==> is_word(s),
{
    assert forall|i: int| 0 <= i < s.len() implies text::ascii_upper(#[trigger] s[i]) == t[i] && s[i]
        <= '\u{7f}' && !text::is_space(s[i]) by {
        assert(text::ascii_lower(s[i]) == text::ascii_lower(t[i]));
        assert(33 <= t[i] as u32 <= 96);
    }
    assert(is_ascii_chars(s));
    assert(text::upper_text(s) =~= t);
}

/// What a verb and a rest stand for.
proof fn lemma_line(verb: Seq<char>, rest: Seq<char>)
    requires
        is_word(verb),
        is_rest(rest),
    ensures
        stands_for(verb + seq![' '] + rest) == codec::verb_command(
            text::upper_text(verb),
            rest,
        ),
{
    reveal(stands_for);
    let t = verb + seq![' '] + rest;
    assert(!text::is_space(verb[0]));
    assert(t[0] == verb[0]);
    assert(t.last() == rest.last());
    text::lemma_trimmed_id(t);
    text::lemma_trimmed_id(rest);
    lemma_split(verb, rest, 2);
    lemma_last_piece(rest);
    assert(text::pieces_up_to(t, " "@, 2) =~= seq![verb, rest]);
}

/// What a verb alone stands for.
proof fn lemma_bare(verb: Seq<char>)
    requires
        is_word(verb),
    ensures
        stands_for(verb) == codec::verb_command(text::upper_text(verb), Seq::empty()),
{
    reveal(stands_for);
    assert(!text::is_space(verb[0]) && !text::is_space(verb.last()));
    text::lemma_trimmed_id(verb);
    lemma_no_split(verb, 2);
}

/// What a verb and some words stand for.
proof fn lemma_word_line(verb: Seq<char>, s: Seq<Seq<char>>)
    requires
        is_word(verb),
        are_words(s),
        s.len() > 0,
    ensures
        stands_for(line_of(verb, s)) == codec::verb_command(text::upper_text(verb), spaced(s)),
        text::words(spaced(s)) == s,
{
    lemma_spaced(s);
    lemma_words(s);
    assert((seq![verb] + s).skip(1) =~= s);
    assert((seq![verb] + s)[0] == verb);
    lemma_line(verb, spaced(s));
}

/// The text of a number reads back as the number.
pub proof fn law_number_text_reads_back(n: nat, max: nat)
    requires
        n <= max,
    ensures
        text::parsed_number(text::dec_text(n), max) == Some(n),
        is_word(text::dec_text(n)),
        text::dec_text(n)[0] != '+' && text::dec_text(n)[0] != '-',
{
    lemma_dec_text(n);
    let s = text::dec_text(n);
    assert('0' <= s[0]);
}

/// The digits of a number spell it.
pub proof fn lemma_dec_text(n: nat)
    ensures
        text::dec_text(n).len() > 0,
        text::all_digits(text::dec_text(n)),
        text::dec_value(text::dec_text(n)) == n,
    decreases n,
{
    reveal_with_fuel(text::dec_value, 2);
    let s = text::dec_text(n);
    if n < 10 {
        assert(s.drop_last() =~= Seq::<char>::empty());
        assert(s.last() as nat == 48 + n);
    } else {
        lemma_dec_text(n / 10);
        assert(s.drop_last() =~= text::dec_text(n / 10));
        assert(s.last() as nat == 48 + n % 10);
    }
}

/// A verb of the protocol.
pub open spec fn is_verb(s: Seq<char>) -> bool {
    ||| s == "PING"@
    ||| s == "TABLES"@
    ||| s == "QUIT"@
    ||| s == "EXIT"@
    ||| s == "AUTH"@
    ||| s == "SHOW"@
    ||| s == "CREATE"@
    ||| s == "GET"@
    ||| s == "MGET"@
    ||| s == "SET"@
    ||| s == "MSET"@
    ||| s == "DEL"@
    ||| s == "DELETE"@
    ||| s == "EXISTS"@
    ||| s == "EXPIRE"@
    ||| s == "TTL"@
    ||| s == "INDEX"@
    ||| s == "TOP"@
    ||| s == "RANK"@
    ||| s == "BACKUP"@
    ||| s == "STATS"@
    ||| s == "FLUSH"@
    ||| s == "JSON.SET"@
    ||| s == "RANK.KEY"@
    ||| s == "RANK.SCORE"@
    ||| s == "RANK.RANGE_SCORE"@
    ||| s == "RANK.RANGE"@
    ||| s == "SCAN"@
    ||| s == "FILTER"@
    ||| s == "COUNT"@
}

proof fn lemma_verb_chars(s: Seq<char>)
    requires
        is_verb(s),
    ensures
        s.len() > 0,
        forall|i: int| 0 <= i < s.len() ==> 33 <= (#[trigger] s[i]) as u32 <= 96,
{
    reveal_strlit("PING");
    reveal_strlit("TABLES");
    reveal_strlit("QUIT");
    reveal_strlit("EXIT");
    reveal_strlit("AUTH");
    reveal_strlit("SHOW");
    reveal_strlit("CREATE");
    reveal_strlit("GET");
    reveal_strlit("MGET");
    reveal_strlit("SET");
    reveal_strlit("MSET");
    reveal_strlit("DEL");
    reveal_strlit("DELETE");
    reveal_strlit("EXISTS");
    reveal_strlit("EXPIRE");
    reveal_strlit("TTL");
    reveal_strlit("INDEX");
    reveal_strlit("TOP");
    reveal_strlit("RANK");
    reveal_strlit("BACKUP");
    reveal_strlit("STATS");
    reveal_strlit("FLUSH");
    reveal_strlit("JSON.SET");
    reveal_strlit("RANK.KEY");
    reveal_strlit("RANK.SCORE");
    reveal_strlit("RANK.RANGE_SCORE");
    reveal_strlit("RANK.RANGE");
    reveal_strlit("SCAN");
    reveal_strlit("FILTER");
    reveal_strlit("COUNT");
}

/// The verbs are told apart by their lengths or by a character.
proof fn lemma_literals()
    ensures
        "PING"@.len() == 4,
        "TABLES"@.len() == 6,
        "QUIT"@.len() == 4,
        "EXIT"@.len() == 4,
        "AUTH"@.len() == 4,
        "SHOW"@.len() == 4,
        "CREATE"@.len() == 6,
        "GET"@.len() == 3,
        "MGET"@.len() == 4,
        "SET"@.len() == 3,
        "MSET"@.len() == 4,
        "DEL"@.len() == 3,
        "DELETE"@.len() == 6,
        "EXISTS"@.len() == 6,
        "EXPIRE"@.len() == 6,
        "TTL"@.len() == 3,
        "INDEX"@.len() == 5,
        "TOP"@.len() == 3,
        "RANK"@.len() == 4,
        "BACKUP"@.len() == 6,
        "STATS"@.len() == 5,
        "FLUSH"@.len() == 5,
        "JSON.SET"@.len() == 8,
        "RANK.KEY"@.len() == 8,
        "RANK.SCORE"@.len() == 10,
        "RANK.RANGE_SCORE"@.len() == 16,
        "RANK.RANGE"@.len() == 10,
        "SCAN"@.len() == 4,
        "FILTER"@.len() == 6,
        "COUNT"@.len() == 5,
        "PING"@ != "QUIT"@,
        "PING"@ != "EXIT"@,
        "PING"@ != "AUTH"@,
        "PING"@ != "SHOW"@,
        "PING"@ != "MGET"@,
        "PING"@ != "MSET"@,
        "PING"@ != "RANK"@,
        "PING"@ != "SCAN"@,
        "TABLES"@ != "CREATE"@,
        "TABLES"@ != "DELETE"@,
        "TABLES"@ != "EXISTS"@,
        "TABLES"@ != "EXPIRE"@,
        "TABLES"@ != "BACKUP"@,
        "TABLES"@ != "FILTER"@,
        "QUIT"@ != "EXIT"@,
        "QUIT"@ != "AUTH"@,
        "QUIT"@ != "SHOW"@,
        "QUIT"@ != "MGET"@,
        "QUIT"@ != "MSET"@,
        "QUIT"@ != "RANK"@,
        "QUIT"@ != "SCAN"@,
        "EXIT"@ != "AUTH"@,
        "EXIT"@ != "SHOW"@,
        "EXIT"@ != "MGET"@,
        "EXIT"@ != "MSET"@,
        "EXIT"@ != "RANK"@,
        "EXIT"@ != "SCAN"@,
        "AUTH"@ != "SHOW"@,
        "AUTH"@ != "MGET"@,
        "AUTH"@ != "MSET"@,
        "AUTH"@ != "RANK"@,
        "AUTH"@ != "SCAN"@,
        "SHOW"@ != "MGET"@,
        "SHOW"@ != "MSET"@,
        "SHOW"@ != "RANK"@,
        "SHOW"@ != "SCAN"@,
        "CREATE"@ != "DELETE"@,
        "CREATE"@ != "EXISTS"@,
        "CREATE"@ != "EXPIRE"@,
        "CREATE"@ != "BACKUP"@,
        "CREATE"@ != "FILTER"@,
        "GET"@ != "SET"@,
        "GET"@ != "DEL"@,
        "GET"@ != "TTL"@,
        "GET"@ != "TOP"@,
        "MGET"@ != "MSET"@,
        "MGET"@ != "RANK"@,
        "MGET"@ != "SCAN"@,
        "SET"@ != "DEL"@,
        "SET"@ != "TTL"@,
        "SET"@ != "TOP"@,
        "MSET"@ != "RANK"@,
        "MSET"@ != "SCAN"@,
        "DEL"@ != "TTL"@,
        "DEL"@ != "TOP"@,
        "DELETE"@ != "EXISTS"@,
        "DELETE"@ != "EXPIRE"@,
        "DELETE"@ != "BACKUP"@,
        "DELETE"@ != "FILTER"@,
        "EXISTS"@ != "EXPIRE"@,
        "EXISTS"@ != "BACKUP"@,
        "EXISTS"@ != "FILTER"@,
        "EXPIRE"@ != "BACKUP"@,
        "EXPIRE"@ != "FILTER"@,
        "TTL"@ != "TOP"@,
        "INDEX"@ != "STATS"@,
        "INDEX"@ != "FLUSH"@,
        "INDEX"@ != "COUNT"@,
        "RANK"@ != "SCAN"@,
        "BACKUP"@ != "FILTER"@,
        "STATS"@ != "FLUSH"@,
        "STATS"@ != "COUNT"@,
        "FLUSH"@ != "COUNT"@,
        "JSON.SET"@ != "RANK.KEY"@,
        "RANK.SCORE"@ != "RANK.RANGE"@,
{
    reveal_strlit("PING");
    reveal_strlit("TABLES");
    reveal_strlit("QUIT");
    reveal_strlit("EXIT");
    reveal_strlit("AUTH");
    reveal_strlit("SHOW");
    reveal_strlit("CREATE");
    reveal_strlit("GET");
    reveal_strlit("MGET");
    reveal_strlit("SET");
    reveal_strlit("MSET");
    reveal_strlit("DEL");
    reveal_strlit("DELETE");
    reveal_strlit("EXISTS");
    reveal_strlit("EXPIRE");
    reveal_strlit("TTL");
    reveal_strlit("INDEX");
    reveal_strlit("TOP");
    reveal_strlit("RANK");
    reveal_strlit("BACKUP");
    reveal_strlit("STATS");
    reveal_strlit("FLUSH");
    reveal_strlit("JSON.SET");
    reveal_strlit("RANK.KEY");
    reveal_strlit("RANK.SCORE");
    reveal_strlit("RANK.RANGE_SCORE");
    reveal_strlit("RANK.RANGE");
    reveal_strlit("SCAN");
    reveal_strlit("FILTER");
    reveal_strlit("COUNT");
    assert("PING"@[0] != "QUIT"@[0]);
    assert("PING"@[0] != "EXIT"@[0]);
    assert("PING"@[0] != "AUTH"@[0]);
    assert("PING"@[0] != "SHOW"@[0]);
    assert("PING"@[0] != "MGET"@[0]);
    assert("PING"@[0] != "MSET"@[0]);
    assert("PING"@[0] != "RANK"@[0]);
    assert("PING"@[0] != "SCAN"@[0]);
    assert("TABLES"@[0] != "CREATE"@[0]);
    assert("TABLES"@[0] != "DELETE"@[0]);
    assert("TABLES"@[0] != "EXISTS"@[0]);
    assert("TABLES"@[0] != "EXPIRE"@[0]);
    assert("TABLES"@[0] != "BACKUP"@[0]);
    assert("TABLES"@[0] != "FILTER"@[0]);
    assert("QUIT"@[0] != "EXIT"@[0]);
    assert("QUIT"@[0] != "AUTH"@[0]);
    assert("QUIT"@[0] != "SHOW"@[0]);
    assert("QUIT"@[0] != "MGET"@[0]);
    assert("QUIT"@[0] != "MSET"@[0]);
    assert("QUIT"@[0] != "RANK"@[0]);
    assert("QUIT"@[0] != "SCAN"@[0]);
    assert("EXIT"@[0] != "AUTH"@[0]);
    assert("EXIT"@[0] != "SHOW"@[0]);
    assert("EXIT"@[0] != "MGET"@[0]);
    assert("EXIT"@[0] != "MSET"@[0]);
    assert("EXIT"@[0] != "RANK"@[0]);
    assert("EXIT"@[0] != "SCAN"@[0]);
    assert("AUTH"@[0] != "SHOW"@[0]);
    assert("AUTH"@[0] != "MGET"@[0]);
    assert("AUTH"@[0] != "MSET"@[0]);
    assert("AUTH"@[0] != "RANK"@[0]);
    assert("AUTH"@[0] != "SCAN"@[0]);
    assert("SHOW"@[0] != "MGET"@[0]);
    assert("SHOW"@[0] != "MSET"@[0]);
    assert("SHOW"@[0] != "RANK"@[0]);
    assert("SHOW"@[1] != "SCAN"@[1]);
    assert("CREATE"@[0] != "DELETE"@[0]);
    assert("CREATE"@[0] != "EXISTS"@[0]);
    assert("CREATE"@[0] != "EXPIRE"@[0]);
    assert("CREATE"@[0] != "BACKUP"@[0]);
    assert("CREATE"@[0] != "FILTER"@[0]);
    assert("GET"@[0] != "SET"@[0]);
    assert("GET"@[0] != "DEL"@[0]);
    assert("GET"@[0] != "TTL"@[0]);
    assert("GET"@[0] != "TOP"@[0]);
    assert("MGET"@[1] != "MSET"@[1]);
    assert("MGET"@[0] != "RANK"@[0]);
    assert("MGET"@[0] != "SCAN"@[0]);
    assert("SET"@[0] != "DEL"@[0]);
    assert("SET"@[0] != "TTL"@[0]);
    assert("SET"@[0] != "TOP"@[0]);
    assert("MSET"@[0] != "RANK"@[0]);
    assert("MSET"@[0] != "SCAN"@[0]);
    assert("DEL"@[0] != "TTL"@[0]);
    assert("DEL"@[0] != "TOP"@[0]);
    assert("DELETE"@[0] != "EXISTS"@[0]);
    assert("DELETE"@[0] != "EXPIRE"@[0]);
    assert("DELETE"@[0] != "BACKUP"@[0]);
    assert("DELETE"@[0] != "FILTER"@[0]);
    assert("EXISTS"@[2] != "EXPIRE"@[2]);
    assert("EXISTS"@[0] != "BACKUP"@[0]);
    assert("EXISTS"@[0] != "FILTER"@[0]);
    assert("EXPIRE"@[0] != "BACKUP"@[0]);
    assert("EXPIRE"@[0] != "FILTER"@[0]);
    assert("TTL"@[1] != "TOP"@[1]);
    assert("INDEX"@[0] != "STATS"@[0]);
    assert("INDEX"@[0] != "FLUSH"@[0]);
    assert("INDEX"@[0] != "COUNT"@[0]);
    assert("RANK"@[0] != "SCAN"@[0]);
    assert("BACKUP"@[0] != "FILTER"@[0]);
    assert("STATS"@[0] != "FLUSH"@[0]);
    assert("STATS"@[0] != "COUNT"@[0]);
    assert("FLUSH"@[0] != "COUNT"@[0]);
    assert("JSON.SET"@[0] != "RANK.KEY"@[0]);
    assert("RANK.SCORE"@[5] != "RANK.RANGE"@[5]);
}

#[verifier::rlimit(60)]
proof fn lemma_short_verbs(rest: Seq<char>)
    ensures
        codec::verb_command("PING"@, rest) == Ok::<CommandView, ErrorView>(CommandView::Ping),
        codec::verb_command("QUIT"@, rest) == Ok::<CommandView, ErrorView>(CommandView::Quit),
        codec::verb_command("EXIT"@, rest) == Ok::<CommandView, ErrorView>(CommandView::Quit),
        codec::verb_command("AUTH"@, rest) == codec::auth_command(rest),
        codec::verb_command("SHOW"@, rest) == codec::show_command(rest),
        codec::verb_command("GET"@, rest) == codec::get_command(text::words(rest)),
        codec::verb_command("MGET"@, rest) == codec::mget_command(text::words(rest)),
        codec::verb_command("SET"@, rest) == codec::set_command(text::pieces_up_to(rest, " "@, 3)),
        codec::verb_command("MSET"@, rest) == codec::mset_command(text::pieces_up_to(rest, " "@, 2)),
        codec::verb_command("DEL"@, rest) == codec::delete_command(text::words(rest)),
        codec::verb_command("TTL"@, rest) == codec::ttl_command(text::words(rest)),
        codec::verb_command("TOP"@, rest) == codec::top_command(text::words(rest)),
        codec::verb_command("RANK"@, rest) == codec::rank_command(text::words(rest)),
        codec::verb_command("SCAN"@, rest) == codec::scan_command(text::words(rest)),
{
    lemma_literals();
}

#[verifier::rlimit(60)]
proof fn lemma_long_verbs(rest: Seq<char>)
    ensures
        codec::verb_command("TABLES"@, rest) == Ok::<CommandView, ErrorView>(CommandView::Tables),
        codec::verb_command("CREATE"@, rest) == codec::create_command(text::words(rest)),
        codec::verb_command("DELETE"@, rest) == codec::delete_command(text::words(rest)),
        codec::verb_command("EXISTS"@, rest) == codec::exists_command(text::words(rest)),
        codec::verb_command("EXPIRE"@, rest) == codec::expire_command(text::words(rest)),
        codec::verb_command("INDEX"@, rest) == codec::index_command(text::words(rest)),
        codec::verb_command("BACKUP"@, rest) == Ok::<CommandView, ErrorView>(CommandView::Backup { target_dir: codec::optional(rest) }),
        codec::verb_command("STATS"@, rest) == Ok::<CommandView, ErrorView>(CommandView::Stats { table: codec::optional_lower(rest) }),
        codec::verb_command("FLUSH"@, rest) == Ok::<CommandView, ErrorView>(CommandView::Flush { table: codec::optional_lower(rest) }),
        codec::verb_command("FILTER"@, rest) == codec::filter_command(text::pieces_up_to(rest, " "@, 2)),
        codec::verb_command("COUNT"@, rest) == codec::count_command(text::pieces_up_to(rest, " "@, 2)),
{
    lemma_literals();
}

#[verifier::rlimit(60)]
proof fn lemma_dotted_verbs(rest: Seq<char>)
    ensures
        codec::verb_command("JSON.SET"@, rest) == codec::json_set_command(text::pieces_up_to(rest, " "@, 4)),
        codec::verb_command("RANK.KEY"@, rest) == codec::rank_key_command(text::words(rest)),
        codec::verb_command("RANK.SCORE"@, rest) == codec::rank_score_command(text::words(rest)),
        codec::verb_command("RANK.RANGE_SCORE"@, rest) == codec::rank_range_score_command(text::words(rest)),
        codec::verb_command("RANK.RANGE"@, rest) == codec::rank_range_command(text::words(rest)),
{
    lemma_literals();
}

proof fn lemma_verbs(rest: Seq<char>)
    ensures
        codec::verb_command("PING"@, rest) == Ok::<CommandView, ErrorView>(CommandView::Ping),
        codec::verb_command("TABLES"@, rest) == Ok::<CommandView, ErrorView>(CommandView::Tables),
        codec::verb_command("QUIT"@, rest) == Ok::<CommandView, ErrorView>(CommandView::Quit),
        codec::verb_command("EXIT"@, rest) == Ok::<CommandView, ErrorView>(CommandView::Quit),
        codec::verb_command("AUTH"@, rest) == codec::auth_command(rest),
        codec::verb_command("SHOW"@, rest) == codec::show_command(rest),
        codec::verb_command("CREATE"@, rest) == codec::create_command(text::words(rest)),
        codec::verb_command("GET"@, rest) == codec::get_command(text::words(rest)),
        codec::verb_command("MGET"@, rest) == codec::mget_command(text::words(rest)),
        codec::verb_command("SET"@, rest) == codec::set_command(text::pieces_up_to(rest, " "@, 3)),
        codec::verb_command("MSET"@, rest) == codec::mset_command(text::pieces_up_to(rest, " "@, 2)),
        codec::verb_command("DEL"@, rest) == codec::delete_command(text::words(rest)),
        codec::verb_command("DELETE"@, rest) == codec::delete_command(text::words(rest)),
        codec::verb_command("EXISTS"@, rest) == codec::exists_command(text::words(rest)),
        codec::verb_command("EXPIRE"@, rest) == codec::expire_command(text::words(rest)),
        codec::verb_command("TTL"@, rest) == codec::ttl_command(text::words(rest)),
        codec::verb_command("INDEX"@, rest) == codec::index_command(text::words(rest)),
        codec::verb_command("TOP"@, rest) == codec::top_command(text::words(rest)),
        codec::verb_command("RANK"@, rest) == codec::rank_command(text::words(rest)),
        codec::verb_command("BACKUP"@, rest) == Ok::<CommandView, ErrorView>(CommandView::Backup { target_dir: codec::optional(rest) }),
        codec::verb_command("STATS"@, rest) == Ok::<CommandView, ErrorView>(CommandView::Stats { table: codec::optional_lower(rest) }),
        codec::verb_command("FLUSH"@, rest) == Ok::<CommandView, ErrorView>(CommandView::Flush { table: codec::optional_lower(rest) }),
        codec::verb_command("JSON.SET"@, rest) == codec::json_set_command(text::pieces_up_to(rest, " "@, 4)),
        codec::verb_command("RANK.KEY"@, rest) == codec::rank_key_command(text::words(rest)),
        codec::verb_command("RANK.SCORE"@, rest) == codec::rank_score_command(text::words(rest)),
        codec::verb_command("RANK.RANGE_SCORE"@, rest) == codec::rank_range_score_command(text::words(rest)),
        codec::verb_command("RANK.RANGE"@, rest) == codec::rank_range_command(text::words(rest)),
        codec::verb_command("SCAN"@, rest) == codec::scan_command(text::words(rest)),
        codec::verb_command("FILTER"@, rest) == codec::filter_command(text::pieces_up_to(rest, " "@, 2)),
        codec::verb_command("COUNT"@, rest) == codec::count_command(text::pieces_up_to(rest, " "@, 2)),
{
    lemma_short_verbs(rest);
    lemma_long_verbs(rest);
    lemma_dotted_verbs(rest);
}

/// The verb that is said, in any case, is a word.
proof fn lemma_said(said: Seq<char>, verb: Seq<char>)
    requires
        text::same_ignoring_case(said, verb),
        is_verb(verb),
    ensures
        is_word(said),
        text::upper_text(said) == verb,
{
    lemma_verb_chars(verb);
    lemma_upper(said, verb);
}

/// A verb that is said with some words.
proof fn lemma_said_words(said: Seq<char>, verb: Seq<char>, s: Seq<Seq<char>>)
    requires
        text::same_ignoring_case(said, verb),
        is_verb(verb),
        are_words(s),
        s.len() > 0,
    ensures
        stands_for(line_of(said, s)) == codec::verb_command(verb, spaced(s)),
        text::words(spaced(s)) == s,
{
    lemma_said(said, verb);
    lemma_word_line(said, s);
}

proof fn lemma_create_words(said: Seq<char>, s: Seq<Seq<char>>)
    requires
        text::same_ignoring_case(said, "CREATE"@),
        are_words(s),
        s.len() > 0,
    ensures
        stands_for(line_of(said, s)) == codec::create_command(s),
{
    lemma_said_words(said, "CREATE"@, s);
    lemma_verbs(spaced(s));
}

proof fn lemma_expire_words(said: Seq<char>, s: Seq<Seq<char>>)
    requires
        text::same_ignoring_case(said, "EXPIRE"@),
        are_words(s),
        s.len() > 0,
    ensures
        stands_for(line_of(said, s)) == codec::expire_command(s),
{
    lemma_said_words(said, "EXPIRE"@, s);
    lemma_verbs(spaced(s));
}

proof fn lemma_index_words(said: Seq<char>, s: Seq<Seq<char>>)
    requires
        text::same_ignoring_case(said, "INDEX"@),
        are_words(s),
        s.len() > 0,
    ensures
        stands_for(line_of(said, s)) == codec::index_command(s),
{
    lemma_said_words(said, "INDEX"@, s);
    lemma_verbs(spaced(s));
}

proof fn lemma_rank_words(said: Seq<char>, s: Seq<Seq<char>>)
    requires
        text::same_ignoring_case(said, "RANK"@),
        are_words(s),
        s.len() > 0,
    ensures
        stands_for(line_of(said, s)) == codec::rank_command(s),
{
    lemma_said_words(said, "RANK"@, s);
    lemma_verbs(spaced(s));
}

proof fn lemma_rank_key_words(said: Seq<char>, s: Seq<Seq<char>>)
    requires
        text::same_ignoring_case(said, "RANK.KEY"@),
        are_words(s),
        s.len() > 0,
    ensures
        stands_for(line_of(said, s)) == codec::rank_key_command(s),
{
    lemma_said_words(said, "RANK.KEY"@, s);
    lemma_verbs(spaced(s));
}

proof fn lemma_rank_range_words(said: Seq<char>, s: Seq<Seq<char>>)
    requires
        text::same_ignoring_case(said, "RANK.RANGE"@),
        are_words(s),
        s.len() > 0,
    ensures
        stands_for(line_of(said, s)) == codec::rank_range_command(s),
{
    lemma_said_words(said, "RANK.RANGE"@, s);
    lemma_verbs(spaced(s));
}

proof fn lemma_rank_range_score_words(said: Seq<char>, s: Seq<Seq<char>>)
    requires
        text::same_ignoring_case(said, "RANK.RANGE_SCORE"@),
        are_words(s),
        s.len() > 0,
    ensures
        stands_for(line_of(said, s)) == codec::rank_range_score_command(s),
{
    lemma_said_words(said, "RANK.RANGE_SCORE"@, s);
    lemma_verbs(spaced(s));
}

proof fn lemma_rank_score_words(said: Seq<char>, s: Seq<Seq<char>>)
    requires
        text::same_ignoring_case(said, "RANK.SCORE"@),
        are_words(s),
        s.len() > 0,
    ensures
        stands_for(line_of(said, s)) == codec::rank_score_command(s),
{
    lemma_said_words(said, "RANK.SCORE"@, s);
    lemma_verbs(spaced(s));
}

proof fn lemma_scan_words(said: Seq<char>, s: Seq<Seq<char>>)
    requires
        text::same_ignoring_case(said, "SCAN"@),
        are_words(s),
        s.len() > 0,
    ensures
        stands_for(line_of(said, s)) == codec::scan_command(s),
{
    lemma_said_words(said, "SCAN"@, s);
    lemma_verbs(spaced(s));
}

proof fn lemma_show_words(said: Seq<char>, s: Seq<Seq<char>>)
    requires
        text::same_ignoring_case(said, "SHOW"@),
        are_words(s),
        s.len() > 0,
    ensures
        stands_for(line_of(said, s)) == codec::show_command(spaced(s)),
{
    lemma_said_words(said, "SHOW"@, s);
    lemma_verbs(spaced(s));
}

proof fn lemma_top_words(said: Seq<char>, s: Seq<Seq<char>>)
    requires
        text::same_ignoring_case(said, "TOP"@),
        are_words(s),
        s.len() > 0,
    ensures
        stands_for(line_of(said, s)) == codec::top_command(s),
{
    lemma_said_words(said, "TOP"@, s);
    lemma_verbs(spaced(s));
}

/// The key that a word stands for; every word stands for one.
pub open spec fn key(w: Seq<char>) -> u128 {
    match types::key_of_text(w) {
        Ok(k) => k,
        Err(_) => 0,
    }
}

proof fn lemma_key(w: Seq<char>)
    requires
        is_word(w),
    ensures
        types::key_of_text(w) == Ok::<u128, ErrorView>(key(w)),
{
    assert(!text::is_space(w[0]) && !text::is_space(w.last()));
    text::lemma_trimmed_id(w);
    types::law_only_empty_text_is_no_key(w);
}

/// A word that is no number: it starts with neither a digit nor a plus sign.
pub open spec fn is_no_number(w: Seq<char>) -> bool {
    is_word(w) && !('0' <= w[0] && w[0] <= '9') && w[0] != '+'
}

proof fn lemma_no_number(w: Seq<char>, max: nat)
    requires
        is_no_number(w),
    ensures
        text::parsed_number(w, max) is None,
{
}

// ---------------------------------------------------------------------------------------------
// Verbs without words
// ---------------------------------------------------------------------------------------------
/// The verbs that need nothing more, in any case, are their commands.
pub proof fn law_bare_verbs_are_commands(said: Seq<char>)
    ensures
        text::same_ignoring_case(said, "PING"@) ==> says(said, CommandView::Ping),
        text::same_ignoring_case(said, "TABLES"@) ==> says(said, CommandView::Tables),
        text::same_ignoring_case(said, "QUIT"@) || text::same_ignoring_case(said, "EXIT"@)
            ==> says(said, CommandView::Quit),
        text::same_ignoring_case(said, "STATS"@) ==> says(said, CommandView::Stats { table: None }),
        text::same_ignoring_case(said, "FLUSH"@) ==> says(said, CommandView::Flush { table: None }),
        text::same_ignoring_case(said, "BACKUP"@) ==> says(said, CommandView::Backup { target_dir: None }),
{
    lemma_verbs(Seq::empty());
    if text::same_ignoring_case(said, "PING"@) {
        lemma_said(said, "PING"@);
        lemma_bare(said);
    }
    if text::same_ignoring_case(said, "TABLES"@) {
        lemma_said(said, "TABLES"@);
        lemma_bare(said);
    }
    if text::same_ignoring_case(said, "QUIT"@) {
        lemma_said(said, "QUIT"@);
        lemma_bare(said);
    }
    if text::same_ignoring_case(said, "EXIT"@) {
        lemma_said(said, "EXIT"@);
        lemma_bare(said);
    }
    if text::same_ignoring_case(said, "STATS"@) {
        lemma_said(said, "STATS"@);
        lemma_bare(said);
    }
    if text::same_ignoring_case(said, "FLUSH"@) {
        lemma_said(said, "FLUSH"@);
        lemma_bare(said);
    }
    if text::same_ignoring_case(said, "BACKUP"@) {
        lemma_said(said, "BACKUP"@);
        lemma_bare(said);
    }
}

/// A verb that is none is refused as a command.
pub proof fn law_other_verbs_are_refused(verb: Seq<char>, rest: Seq<char>)
    requires
        is_word(verb),
        !is_verb(text::upper_text(verb)),
        is_rest(rest),
    ensures
        refuses(verb),
        refuses(verb + seq![' '] + rest),
        refuses(Seq::empty()),
{
    reveal(stands_for);
    lemma_bare(verb);
    lemma_line(verb, rest);
}

/// White space around a line does not count.
pub proof fn law_white_space_around_a_line_is_ignored(a: Seq<char>, line: Seq<char>, b: Seq<char>)
    requires
        is_rest(line),
        forall|i: int| 0 <= i < a.len() ==> text::is_space(#[trigger] a[i]),
        forall|i: int| 0 <= i < b.len() ==> text::is_space(#[trigger] b[i]),
    ensures
        codec::command_of(a + line + b) == codec::command_of(line),
{
    text::law_trimming_drops_white_space_around(a, line, b);
    text::lemma_trimmed_id(line);
}

/// `AUTH` takes the rest of the line as the password.
pub proof fn law_auth_takes_the_password(said: Seq<char>, password: Seq<char>)
    requires
        text::same_ignoring_case(said, "AUTH"@),
        is_rest(password),
    ensures
        says(said + seq![' '] + password, CommandView::Auth { password }),
        refuses(said),
{
    lemma_said(said, "AUTH"@);
    lemma_line(said, password);
    lemma_bare(said);
    lemma_verbs(password);
    lemma_verbs(Seq::empty());
}

/// `STATS`, `FLUSH` and `BACKUP` take the rest of the line: a table, a table, and a directory.
pub proof fn law_rest_is_the_table_or_the_directory(said: Seq<char>, rest: Seq<char>)
    requires
        is_rest(rest),
    ensures
        text::same_ignoring_case(said, "STATS"@) ==> says(said + seq![' '] + rest, CommandView::Stats { table: Some(text::lower_text(rest)) }),
        text::same_ignoring_case(said, "FLUSH"@) ==> says(said + seq![' '] + rest, CommandView::Flush { table: Some(text::lower_text(rest)) }),
        text::same_ignoring_case(said, "BACKUP"@) ==> says(said + seq![' '] + rest, CommandView::Backup { target_dir: Some(rest) }),
{
    lemma_verbs(rest);
    if text::same_ignoring_case(said, "STATS"@) {
        lemma_said(said, "STATS"@);
        lemma_line(said, rest);
    }
    if text::same_ignoring_case(said, "FLUSH"@) {
        lemma_said(said, "FLUSH"@);
        lemma_line(said, rest);
    }
    if text::same_ignoring_case(said, "BACKUP"@) {
        lemma_said(said, "BACKUP"@);
        lemma_line(said, rest);
    }
}

/// `SHOW TABLES`, in any case, lists the tables; `CREATE TABLE` and a name create that table.
pub proof fn law_tables_are_shown_and_created(
    said: Seq<char>,
    what: Seq<char>,
    name: Seq<char>,
)
    requires
        is_word(name),
    ensures
        text::same_ignoring_case(said, "SHOW"@) && text::same_ignoring_case(what, "TABLES"@)
            ==> says(line_of(said, seq![what]), CommandView::Tables),
        text::same_ignoring_case(said, "CREATE"@) && text::same_ignoring_case(what, "TABLE"@)
            ==> says(line_of(said, seq![what, name]), CommandView::CreateTable { table: text::lower_text(name) }),
{
    if text::same_ignoring_case(said, "SHOW"@) && text::same_ignoring_case(what, "TABLES"@) {
        lemma_said(what, "TABLES"@);
        lemma_show_words(said, seq![what]);
    }
    if text::same_ignoring_case(said, "CREATE"@) && text::same_ignoring_case(what, "TABLE"@) {
        reveal_strlit("TABLE");
        lemma_upper(what, "TABLE"@);
        lemma_create_words(said, seq![what, name]);
    }
}

// ---------------------------------------------------------------------------------------------
// Single keys
// ---------------------------------------------------------------------------------------------
/// `GET`, `DEL`, `DELETE` and `TTL` take a table and the key that the second word stands for.
pub proof fn law_key_commands_name_table_and_key(
    said: Seq<char>,
    table: Seq<char>,
    name: Seq<char>,
)
    requires
        is_word(table),
        is_word(name),
    ensures
        ({
            let line = line_of(said, seq![table, name]);
            let t = text::lower_text(table);
            &&& text::same_ignoring_case(said, "GET"@) ==> says(line, CommandView::Get { table: t, key: key(name) })
            &&& text::same_ignoring_case(said, "DEL"@) || text::same_ignoring_case(said, "DELETE"@)
                ==> says(line, CommandView::Delete { table: t, key: key(name) })
            &&& text::same_ignoring_case(said, "TTL"@) ==> says(line, CommandView::Ttl { table: t, key: key(name) })
        }),
{
    let s = seq![table, name];
    lemma_key(name);
    lemma_verbs(spaced(s));
    if text::same_ignoring_case(said, "GET"@) {
        lemma_said_words(said, "GET"@, s);
    }
    if text::same_ignoring_case(said, "DEL"@) {
        lemma_said_words(said, "DEL"@, s);
    }
    if text::same_ignoring_case(said, "DELETE"@) {
        lemma_said_words(said, "DELETE"@, s);
    }
    if text::same_ignoring_case(said, "TTL"@) {
        lemma_said_words(said, "TTL"@, s);
    }
}

/// `EXPIRE` takes a table, a key and a number of seconds.
pub proof fn law_expire_names_table_key_and_seconds(
    said: Seq<char>,
    table: Seq<char>,
    name: Seq<char>,
    seconds: u64,
    other: Seq<char>,
)
    requires
        text::same_ignoring_case(said, "EXPIRE"@),
        is_word(table),
        is_word(name),
        is_no_number(other),
    ensures
        says(line_of(said, seq![table, name, text::dec_text(seconds as nat)]), CommandView::Expire { table: text::lower_text(table), key: key(name), seconds }),
        refuses(line_of(said, seq![table, name, other])),
{
    lemma_key(name);
    law_number_text_reads_back(seconds as nat, u64::MAX as nat);
    lemma_no_number(other, u64::MAX as nat);
    let s = seq![table, name, text::dec_text(seconds as nat)];
    lemma_expire_words(said, s);
    let u = seq![table, name, other];
    lemma_expire_words(said, u);
}

/// `SET` takes a table, a key, and the rest of the line as the value, byte for byte.
pub proof fn law_set_takes_the_rest_as_the_value(
    said: Seq<char>,
    table: Seq<char>,
    name: Seq<char>,
    value: Seq<char>,
)
    requires
        text::same_ignoring_case(said, "SET"@),
        is_word(table),
        is_word(name),
        is_rest(value),
    ensures
        says(spaced(seq![said, table, name, value]), CommandView::Put {
                table: text::lower_text(table),
                key: key(name),
                value: encode_utf8(value),
            }),
{
    lemma_said(said, "SET"@);
    lemma_key(name);
    let rest = table + seq![' '] + (name + seq![' '] + value);
    lemma_spaced_texts(said, table, name, value);
    assert(!text::is_space(table[0]));
    assert(rest[0] == table[0]);
    assert(rest.last() == value.last());
    lemma_line(said, rest);
    lemma_verbs(rest);
    lemma_split(table, name + seq![' '] + value, 3);
    lemma_split(name, value, 2);
    lemma_last_piece(value);
    assert(text::pieces_up_to(rest, " "@, 3) =~= seq![table, name, value]);
}

/// Two, three or four texts with blanks between them.
pub proof fn lemma_spaced_texts(a: Seq<char>, b: Seq<char>, c: Seq<char>, d: Seq<char>)
    ensures
        spaced(seq![a, b, c, d]) == a + seq![' '] + (b + seq![' '] + (c + seq![' '] + d)),
        spaced(seq![b, c, d]) == b + seq![' '] + (c + seq![' '] + d),
        spaced(seq![c, d]) == c + seq![' '] + d,
{
    reveal_with_fuel(spaced, 5);
    assert(seq![a, b, c, d].skip(1) =~= seq![b, c, d]);
    assert(seq![b, c, d].skip(1) =~= seq![c, d]);
    assert(seq![c, d].skip(1) =~= seq![d]);
}

/// `JSON.SET` takes a table, a key, a path, and the rest of the line as the value.
pub proof fn law_json_set_takes_the_rest_as_the_value(
    said: Seq<char>,
    table: Seq<char>,
    name: Seq<char>,
    path: Seq<char>,
    value: Seq<char>,
)
    requires
        text::same_ignoring_case(said, "JSON.SET"@),
        is_word(table),
        is_word(name),
        is_word(path),
        is_rest(value),
    ensures
        says(said + seq![' '] + spaced(seq![table, name, path, value]), CommandView::JsonSet {
                table: text::lower_text(table),
                key: key(name),
                path,
                value,
            }),
{
    lemma_said(said, "JSON.SET"@);
    lemma_key(name);
    let last = path + seq![' '] + value;
    let rest = table + seq![' '] + (name + seq![' '] + last);
    lemma_spaced_texts(table, name, path, value);
    assert(!text::is_space(table[0]));
    assert(rest[0] == table[0]);
    assert(rest.last() == value.last());
    lemma_line(said, rest);
    lemma_verbs(rest);
    lemma_split(table, name + seq![' '] + last, 4);
    lemma_split(name, last, 3);
    lemma_split(path, value, 2);
    lemma_last_piece(value);
    assert(text::pieces_up_to(rest, " "@, 4) =~= seq![table, name, path, value]);
}

// ---------------------------------------------------------------------------------------------
// Several keys
// ---------------------------------------------------------------------------------------------
proof fn lemma_keys(s: Seq<Seq<char>>)
    requires
        are_words(s),
    ensures
        codec::keys_of(s) == Ok::<Seq<u128>, ErrorView>(Seq::new(s.len(), |i: int| key(s[i]))),
    decreases s.len(),
{
    let all = Seq::new(s.len(), |i: int| key(s[i]));
    if s.len() > 0 {
        let rest = s.drop_last();
        assert forall|i: int| 0 <= i < rest.len() implies is_word(#[trigger] rest[i]) by {
            assert(rest[i] == s[i]);
        }
        lemma_keys(rest);
        assert(is_word(s[s.len() - 1]));
        lemma_key(s.last());
        assert(all =~= Seq::new(rest.len(), |i: int| key(rest[i])).push(key(s.last())));
    } else {
        assert(all =~= Seq::<u128>::empty());
    }
}

/// `MGET` and `EXISTS` take a table and one or more keys, in the order in which they are written.
pub proof fn law_keys_are_taken_in_order(
    said: Seq<char>,
    table: Seq<char>,
    names: Seq<Seq<char>>,
)
    requires
        is_word(table),
        are_words(names),
        names.len() > 0,
    ensures
        ({
            let line = line_of(said, seq![table] + names);
            let t = text::lower_text(table);
            let keys = Seq::new(names.len(), |i: int| key(names[i]));
            &&& text::same_ignoring_case(said, "MGET"@) ==> says(line, CommandView::Mget { table: t, keys })
            &&& text::same_ignoring_case(said, "EXISTS"@) ==> says(line, CommandView::Exists { table: t, keys })
        }),
{
    let s = seq![table] + names;
    assert forall|i: int| 0 <= i < s.len() implies is_word(#[trigger] s[i]) by {
        if i > 0 {
            assert(s[i] == names[i - 1]);
        }
    }
    assert(s.skip(1) =~= names);
    lemma_keys(names);
    lemma_verbs(spaced(s));
    if text::same_ignoring_case(said, "MGET"@) {
        lemma_said_words(said, "MGET"@, s);
    }
    if text::same_ignoring_case(said, "EXISTS"@) {
        lemma_said_words(said, "EXISTS"@, s);
    }
}

// ---------------------------------------------------------------------------------------------
// Scans
// ---------------------------------------------------------------------------------------------
/// The bound that a word stands for: none where it is the sign for no bound, else its key.
pub open spec fn bound(w: Seq<char>, none: char) -> Option<PlayerId> {
    if w == seq![none] {
        None
    } else {
        Some(PlayerId(key(w)))
    }
}

/// `SCAN` starts at the key of its second word, unless that is `-`, ends at the key of its third,
/// unless that is `+`, and lists as many records as its fourth says, or 10.
#[verifier::rlimit(40)]
pub proof fn law_scan_goes_from_the_second_word_to_the_third(
    said: Seq<char>,
    table: Seq<char>,
    a: Seq<char>,
    b: Seq<char>,
    n: usize,
    other: Seq<char>,
)
    requires
        text::same_ignoring_case(said, "SCAN"@),
        is_word(table),
        is_word(a),
        is_word(b),
        is_no_number(other),
    ensures
        ({
            let t = text::lower_text(table);
            let start = bound(a, '-');
            let end = bound(b, '+');
            let number = text::dec_text(n as nat);
            &&& says(line_of(said, seq![table, a, b, number]), CommandView::Scan { table: t, start, end, limit: n })
            &&& says(line_of(said, seq![table, a, b, other]), CommandView::Scan { table: t, start, end, limit: 10 })
            &&& says(line_of(said, seq![table, a, b]), CommandView::Scan { table: t, start, end, limit: 10 })
            &&& says(line_of(said, seq![table, a]), CommandView::Scan { table: t, start, end: None, limit: 10 })
            &&& says(line_of(said, seq![table]), CommandView::Scan { table: t, start: None, end: None, limit: 10 })
        }),
{
    reveal_strlit("-");
    reveal_strlit("+");
    assert("-"@ =~= seq!['-']);
    assert("+"@ =~= seq!['+']);
    lemma_key(a);
    lemma_key(b);
    law_number_text_reads_back(n as nat, usize::MAX as nat);
    lemma_no_number(other, usize::MAX as nat);
    let number = text::dec_text(n as nat);
    lemma_scan_words(said, seq![table, a, b, number]);
    lemma_scan_words(said, seq![table, a, b, other]);
    lemma_scan_words(said, seq![table, a, b]);
    lemma_scan_words(said, seq![table, a]);
    lemma_scan_words(said, seq![table]);
}

// ---------------------------------------------------------------------------------------------
// Rankings
// ---------------------------------------------------------------------------------------------
/// `INDEX CREATE`, or `INDEX ADD`, takes a table and a path; `INDEX LIST` takes a table.
#[verifier::rlimit(40)]
pub proof fn law_index_names_table_and_path(
    said: Seq<char>,
    what: Seq<char>,
    table: Seq<char>,
    path: Seq<char>,
)
    requires
        text::same_ignoring_case(said, "INDEX"@),
        is_word(table),
        is_word(path),
    ensures
        text::same_ignoring_case(what, "CREATE"@) || text::same_ignoring_case(what, "ADD"@)
            ==> says(line_of(said, seq![what, table, path]), CommandView::IndexCreate { table: text::lower_text(table), path }),
        text::same_ignoring_case(what, "LIST"@) ==> says(line_of(said, seq![what, table]), CommandView::IndexList { table: text::lower_text(table) }),
{
    reveal_strlit("CREATE");
    reveal_strlit("ADD");
    reveal_strlit("LIST");
    if text::same_ignoring_case(what, "CREATE"@) {
        lemma_upper(what, "CREATE"@);
        lemma_index_words(said, seq![what, table, path]);
    }
    if text::same_ignoring_case(what, "ADD"@) {
        lemma_upper(what, "ADD"@);
        lemma_index_words(said, seq![what, table, path]);
    }
    if text::same_ignoring_case(what, "LIST"@) {
        lemma_upper(what, "LIST"@);
        lemma_index_words(said, seq![what, table]);
    }
}

/// `TOP` takes a table, a path, and a number of rows: 10 where it is left out or no number, and never
/// more than 1000.
pub proof fn law_top_names_table_path_and_rows(
    said: Seq<char>,
    table: Seq<char>,
    path: Seq<char>,
    n: usize,
    other: Seq<char>,
)
    requires
        text::same_ignoring_case(said, "TOP"@),
        is_word(table),
        is_word(path),
        is_no_number(other),
    ensures
        ({
            let t = text::lower_text(table);
            &&& says(line_of(said, seq![table, path, text::dec_text(n as nat)]), CommandView::Top {
                    table: t,
                    path,
                    limit: if n <= 1000 {
                        n
                    } else {
                        1000
                    },
                })
            &&& says(line_of(said, seq![table, path]), CommandView::Top { table: t, path, limit: 10 })
            &&& says(line_of(said, seq![table, path, other]), CommandView::Top { table: t, path, limit: 10 })
        }),
{
    law_number_text_reads_back(n as nat, usize::MAX as nat);
    lemma_no_number(other, usize::MAX as nat);
    let number = text::dec_text(n as nat);
    lemma_top_words(said, seq![table, path, number]);
    lemma_top_words(said, seq![table, path, other]);
    lemma_top_words(said, seq![table, path]);
}

/// `RANK` and `RANK.KEY` take a table, a path and a key, `RANK.KEY` also a number of rows: 10 where it
/// is left out or no number.
pub proof fn law_rank_names_table_path_and_key(
    said: Seq<char>,
    table: Seq<char>,
    path: Seq<char>,
    name: Seq<char>,
    n: usize,
    other: Seq<char>,
)
    requires
        is_word(table),
        is_word(path),
        is_word(name),
        is_no_number(other),
    ensures
        ({
            let t = text::lower_text(table);
            let k = key(name);
            &&& text::same_ignoring_case(said, "RANK"@) ==> says(line_of(said, seq![table, path, name]), CommandView::Rank { table: t, path, key: k })
            &&& text::same_ignoring_case(said, "RANK.KEY"@) ==> says(line_of(said, seq![table, path, name, text::dec_text(n as nat)]), CommandView::RankKey { table: t, path, key: k, limit: n })
            &&& text::same_ignoring_case(said, "RANK.KEY"@) ==> says(line_of(said, seq![table, path, name]), CommandView::RankKey { table: t, path, key: k, limit: 10 })
            &&& text::same_ignoring_case(said, "RANK.KEY"@) ==> says(line_of(said, seq![table, path, name, other]), CommandView::RankKey { table: t, path, key: k, limit: 10 })
        }),
{
    lemma_key(name);
    law_number_text_reads_back(n as nat, usize::MAX as nat);
    lemma_no_number(other, usize::MAX as nat);
    let number = text::dec_text(n as nat);
    if text::same_ignoring_case(said, "RANK"@) {
        lemma_rank_words(said, seq![table, path, name]);
    }
    if text::same_ignoring_case(said, "RANK.KEY"@) {
        lemma_rank_key_words(said, seq![table, path, name]);
        lemma_rank_key_words(said, seq![table, path, name, number]);
        lemma_rank_key_words(said, seq![table, path, name, other]);
    }
}

/// `RANK.SCORE` takes a table, a path, the score that the third word spells, and a number of rows;
/// `RANK.RANGE_SCORE` takes the lowest score and then the highest.
#[verifier::rlimit(40)]
pub proof fn law_score_commands_name_scores(
    said: Seq<char>,
    table: Seq<char>,
    path: Seq<char>,
    a: Seq<char>,
    b: Seq<char>,
    low: u64,
    high: u64,
    n: usize,
)
    requires
        is_word(table),
        is_word(path),
        is_word(a),
        is_word(b),
        json::float_of_text(a) == Some(low),
        json::float_of_text(b) == Some(high),
        !json::is_nan(low),
        !json::is_nan(high),
    ensures
        ({
            let t = text::lower_text(table);
            let number = text::dec_text(n as nat);
            &&& text::same_ignoring_case(said, "RANK.SCORE"@) ==> says(line_of(said, seq![table, path, a, number]), CommandView::RankScore { table: t, path, score: low, limit: n })
            &&& text::same_ignoring_case(said, "RANK.SCORE"@) ==> says(line_of(said, seq![table, path, a]), CommandView::RankScore { table: t, path, score: low, limit: 10 })
            &&& text::same_ignoring_case(said, "RANK.RANGE_SCORE"@) ==> says(line_of(said, seq![table, path, a, b, number]), CommandView::RankRangeScore { table: t, path, min: low, max: high, limit: n })
            &&& text::same_ignoring_case(said, "RANK.RANGE_SCORE"@) ==> says(line_of(said, seq![table, path, a, b]), CommandView::RankRangeScore { table: t, path, min: low, max: high, limit: 10 })
        }),
{
    law_number_text_reads_back(n as nat, usize::MAX as nat);
    let number = text::dec_text(n as nat);
    if text::same_ignoring_case(said, "RANK.SCORE"@) {
        lemma_rank_score_words(said, seq![table, path, a]);
        lemma_rank_score_words(said, seq![table, path, a, number]);
    }
    if text::same_ignoring_case(said, "RANK.RANGE_SCORE"@) {
        lemma_rank_range_score_words(said, seq![table, path, a, b]);
        lemma_rank_range_score_words(said, seq![table, path, a, b, number]);
    }
}

/// A score that is no number is refused.
#[verifier::rlimit(40)]
pub proof fn law_scores_are_numbers(
    said: Seq<char>,
    table: Seq<char>,
    path: Seq<char>,
    a: Seq<char>,
    b: Seq<char>,
)
    requires
        is_word(table),
        is_word(path),
        is_word(a),
        is_word(b),
        match json::float_of_text(a) {
            Some(bits) => json::is_nan(bits),
            None => true,
        },
    ensures
        text::same_ignoring_case(said, "RANK.SCORE"@) ==> refuses(line_of(said, seq![table, path, a])),
        text::same_ignoring_case(said, "RANK.RANGE_SCORE"@) ==> refuses(line_of(said, seq![table, path, a, b])),
        text::same_ignoring_case(said, "RANK.RANGE_SCORE"@) ==> refuses(line_of(said, seq![table, path, b, a])),
{
    if text::same_ignoring_case(said, "RANK.SCORE"@) {
        lemma_rank_score_words(said, seq![table, path, a]);
    }
    if text::same_ignoring_case(said, "RANK.RANGE_SCORE"@) {
        lemma_rank_range_score_words(said, seq![table, path, a, b]);
        lemma_rank_range_score_words(said, seq![table, path, b, a]);
    }
}

/// `RANK.RANGE` takes a table, a path, the first rank and then the last.
#[verifier::rlimit(40)]
pub proof fn law_rank_range_names_ranks(
    said: Seq<char>,
    table: Seq<char>,
    path: Seq<char>,
    start: usize,
    end: usize,
    other: Seq<char>,
)
    requires
        text::same_ignoring_case(said, "RANK.RANGE"@),
        is_word(table),
        is_word(path),
        is_no_number(other),
    ensures
        ({
            let a = text::dec_text(start as nat);
            let b = text::dec_text(end as nat);
            &&& says(line_of(said, seq![table, path, a, b]), CommandView::RankRange { table: text::lower_text(table), path, start, end })
            &&& refuses(line_of(said, seq![table, path, other, b]))
            &&& refuses(line_of(said, seq![table, path, a, other]))
        }),
{
    law_number_text_reads_back(start as nat, usize::MAX as nat);
    law_number_text_reads_back(end as nat, usize::MAX as nat);
    lemma_no_number(other, usize::MAX as nat);
    let a = text::dec_text(start as nat);
    let b = text::dec_text(end as nat);
    lemma_rank_range_words(said, seq![table, path, a, b]);
    lemma_rank_range_words(said, seq![table, path, other, b]);
    lemma_rank_range_words(said, seq![table, path, a, other]);
}

// ---------------------------------------------------------------------------------------------
// Filters
// ---------------------------------------------------------------------------------------------
/// `FILTER` takes a table and a query: one in double quotes, which a number of rows may follow, or the
/// rest of the line.
#[verifier::rlimit(40)]
pub proof fn law_filter_takes_table_query_and_rows(
    said: Seq<char>,
    table: Seq<char>,
    query: Seq<char>,
    n: usize,
)
    requires
        text::same_ignoring_case(said, "FILTER"@),
        is_word(table),
        !query.contains('"'),
    ensures
        ({
            let t = text::lower_text(table);
            let quoted = seq!['"'] + query + seq!['"'];
            let number = text::dec_text(n as nat);
            &&& says(
                spaced(seq![said, table, quoted, number]),
                CommandView::Filter { table: t, query, limit: n },
            )
            &&& says(
                spaced(seq![said, table, quoted]),
                CommandView::Filter { table: t, query, limit: 10 },
            )
            &&& is_rest(query) ==> says(
                spaced(seq![said, table, query]),
                CommandView::Filter { table: t, query, limit: 10 },
            )
        }),
{
    let quoted = seq!['"'] + query + seq!['"'];
    let number = text::dec_text(n as nat);
    let after = quoted + seq![' '] + number;
    lemma_said(said, "FILTER"@);
    lemma_spaced_texts(said, table, quoted, number);
    lemma_spaced_texts(said, said, table, quoted);
    lemma_spaced_texts(said, said, table, query);
    law_number_text_reads_back(n as nat, usize::MAX as nat);
    lemma_filter_limits(number);
    assert(stands_for(said + seq![' '] + (table + seq![' '] + after)) == codec::filter_command(
        seq![table, after],
    )) by {
        assert(!text::is_space(number.last()));
        lemma_query_line(said, table, after);
    }
    assert(codec::query_of(after) == (query, seq![' '] + number)) by {
        lemma_quoted_query(query, seq![' '] + number);
        assert(quoted + (seq![' '] + number) =~= after);
    }
    assert(text::trimmed(after) == after) by {
        assert(!text::is_space(number.last()));
        text::lemma_trimmed_id(after);
    }
    assert(stands_for(said + seq![' '] + (table + seq![' '] + quoted)) == codec::filter_command(
        seq![table, quoted],
    )) by {
        lemma_query_line(said, table, quoted);
    }
    assert(codec::query_of(quoted) == (query, Seq::<char>::empty())) by {
        lemma_quoted_query(query, Seq::empty());
        assert(quoted + Seq::<char>::empty() =~= quoted);
    }
    text::lemma_trimmed_id(quoted);
    if is_rest(query) {
        lemma_query_line(said, table, query);
        assert(query.contains(query[0]));
    }
}

proof fn lemma_filter_limits(number: Seq<char>)
    requires
        is_word(number),
    ensures
        text::words(seq![' '] + number) == seq![number],
        text::words(Seq::<char>::empty()) == Seq::<Seq<char>>::empty(),
{
    lemma_words(seq![number]);
    assert((seq![' '] + number).skip(1) =~= number);
    assert(text::words(seq![' '] + number) == text::words(number));
}

/// `COUNT` takes a table and a query, in double quotes or as the rest of the line, or a table alone.
#[verifier::rlimit(40)]
pub proof fn law_count_takes_table_and_query(
    said: Seq<char>,
    table: Seq<char>,
    query: Seq<char>,
)
    requires
        text::same_ignoring_case(said, "COUNT"@),
        is_word(table),
        !query.contains('"'),
    ensures
        ({
            let t = text::lower_text(table);
            let quoted = seq!['"'] + query + seq!['"'];
            &&& says(
                spaced(seq![said, table, quoted]),
                CommandView::Count { table: t, query: Some(query) },
            )
            &&& is_rest(query) ==> says(
                spaced(seq![said, table, query]),
                CommandView::Count { table: t, query: Some(query) },
            )
            &&& says(spaced(seq![said, table]), CommandView::Count { table: t, query: None })
        }),
{
    let quoted = seq!['"'] + query + seq!['"'];
    lemma_said(said, "COUNT"@);
    lemma_spaced_texts(said, said, table, quoted);
    lemma_spaced_texts(said, said, table, query);
    lemma_spaced_texts(said, said, said, table);
    assert(stands_for(said + seq![' '] + (table + seq![' '] + quoted)) == codec::count_command(
        seq![table, quoted],
    )) by {
        lemma_query_line(said, table, quoted);
    }
    assert(codec::query_of(quoted) == (query, Seq::<char>::empty())) by {
        lemma_quoted_query(query, Seq::empty());
        assert(quoted + Seq::<char>::empty() =~= quoted);
    }
    text::lemma_trimmed_id(quoted);
    if is_rest(query) {
        lemma_query_line(said, table, query);
        assert(query.contains(query[0]));
    }
    assert(stands_for(said + seq![' '] + table) == codec::count_command(seq![table])) by {
        assert(!text::is_space(table[0]) && !text::is_space(table.last()));
        lemma_line(said, table);
        lemma_verbs(table);
        lemma_no_split(table, 2);
    }
}

/// A verb, a table and a query.
proof fn lemma_query_line(said: Seq<char>, table: Seq<char>, query: Seq<char>)
    requires
        is_word(said),
        is_word(table),
        is_rest(query),
    ensures
        stands_for(said + seq![' '] + (table + seq![' '] + query)) == codec::verb_command(
            text::upper_text(said),
            table + seq![' '] + query,
        ),
        text::pieces_up_to(table + seq![' '] + query, " "@, 2) == seq![table, query],
        text::trimmed(query) == query,
        codec::verb_command("FILTER"@, table + seq![' '] + query) == codec::filter_command(
            seq![table, query],
        ),
        codec::verb_command("COUNT"@, table + seq![' '] + query) == codec::count_command(
            seq![table, query],
        ),
{
    let rest = table + seq![' '] + query;
    assert(!text::is_space(table[0]));
    assert(rest[0] == table[0]);
    assert(rest.last() == query.last());
    lemma_line(said, rest);
    lemma_split(table, query, 2);
    lemma_last_piece(query);
    assert(text::pieces_up_to(rest, " "@, 2) =~= seq![table, query]);
    text::lemma_trimmed_id(query);
    lemma_verbs(rest);
}

/// A query in double quotes ends at the closing quote.
proof fn lemma_quoted_query(query: Seq<char>, rest: Seq<char>)
    requires
        !query.contains('"'),
    ensures
        codec::query_of(seq!['"'] + query + seq!['"'] + rest) == (query, rest),
{
    reveal_strlit("\"");
    let all = seq!['"'] + query + seq!['"'] + rest;
    let at = query.len() as int + 1;
    assert("\""@ =~= seq!['"']);
    assert(all.subrange(at, at + 1) =~= "\""@);
    assert forall|i: int| 1 <= i < at implies !(#[trigger] text::occurs_at(all, "\""@, i)) by {
        if text::occurs_at(all, "\""@, i) {
            assert(all.subrange(i, i + 1)[0] == all[i]);
            assert(all[i] == query[i - 1]);
            assert(query.contains(query[i - 1]));
        }
    }
    text::lemma_place_is_first(all, "\""@, 1, at);
    assert(all.subrange(1, at) =~= query);
    assert(all.skip(at + 1) =~= rest);
}

// ---------------------------------------------------------------------------------------------
// Words that are missing
// ---------------------------------------------------------------------------------------------
/// A command whose words do not suffice is refused.
#[verifier::rlimit(60)]
pub proof fn law_missing_words_are_refused(said: Seq<char>, s: Seq<Seq<char>>)
    requires
        are_words(s),
        s.len() > 0,
    ensures
        s.len() < 2 && (text::same_ignoring_case(said, "GET"@) || text::same_ignoring_case(
            said,
            "DEL"@,
        ) || text::same_ignoring_case(said, "TTL"@) || text::same_ignoring_case(said, "MGET"@)
            || text::same_ignoring_case(said, "EXISTS"@) || text::same_ignoring_case(said, "TOP"@))
            ==> refuses(line_of(said, s)),
        s.len() < 3 && (text::same_ignoring_case(said, "EXPIRE"@) || text::same_ignoring_case(
            said,
            "RANK"@,
        ) || text::same_ignoring_case(said, "RANK.KEY"@) || text::same_ignoring_case(
            said,
            "RANK.SCORE"@,
        )) ==> refuses(line_of(said, s)),
        s.len() < 4 && (text::same_ignoring_case(said, "RANK.RANGE"@) || text::same_ignoring_case(
            said,
            "RANK.RANGE_SCORE"@,
        )) ==> refuses(line_of(said, s)),
{
    lemma_verbs(spaced(s));
    if text::same_ignoring_case(said, "GET"@) {
        lemma_said_words(said, "GET"@, s);
    }
    if text::same_ignoring_case(said, "DEL"@) {
        lemma_said_words(said, "DEL"@, s);
    }
    if text::same_ignoring_case(said, "TTL"@) {
        lemma_said_words(said, "TTL"@, s);
    }
    if text::same_ignoring_case(said, "MGET"@) {
        lemma_said_words(said, "MGET"@, s);
    }
    if text::same_ignoring_case(said, "EXISTS"@) {
        lemma_said_words(said, "EXISTS"@, s);
    }
    if text::same_ignoring_case(said, "TOP"@) {
        lemma_said_words(said, "TOP"@, s);
    }
    if text::same_ignoring_case(said, "EXPIRE"@) {
        lemma_said_words(said, "EXPIRE"@, s);
    }
    if text::same_ignoring_case(said, "RANK"@) {
        lemma_said_words(said, "RANK"@, s);
    }
    if text::same_ignoring_case(said, "RANK.KEY"@) {
        lemma_said_words(said, "RANK.KEY"@, s);
    }
    if text::same_ignoring_case(said, "RANK.SCORE"@) {
        lemma_said_words(said, "RANK.SCORE"@, s);
    }
    if text::same_ignoring_case(said, "RANK.RANGE"@) {
        lemma_said_words(said, "RANK.RANGE"@, s);
    }
    if text::same_ignoring_case(said, "RANK.RANGE_SCORE"@) {
        lemma_said_words(said, "RANK.RANGE_SCORE"@, s);
    }
}

// ---------------------------------------------------------------------------------------------
// Keys under their texts
// ---------------------------------------------------------------------------------------------
/// `SET` and `JSON.SET` write one key, under the text that the line names it by.
pub proof fn law_written_key_is_named_by_its_word(
    said: Seq<char>,
    table: Seq<char>,
    name: Seq<char>,
    path: Seq<char>,
    value: Seq<char>,
)
    requires
        is_word(table),
        is_word(name),
        is_word(path),
        is_rest(value),
    ensures
        text::same_ignoring_case(said, "SET"@) ==> codec::written_keys(
            spaced(seq![said, table, name, value]),
        ) == seq![(key(name), name)],
        text::same_ignoring_case(said, "JSON.SET"@) ==> codec::written_keys(
            said + seq![' '] + spaced(seq![table, name, path, value]),
        ) == seq![(key(name), name)],
{
    lemma_key(name);
    assert(!text::is_space(name[0]) && !text::is_space(name.last()));
    text::lemma_trimmed_id(name);
    lemma_literals();
    if text::same_ignoring_case(said, "SET"@) {
        lemma_said(said, "SET"@);
        lemma_spaced_texts(said, table, name, value);
        let rest = table + seq![' '] + (name + seq![' '] + value);
        lemma_head_and_rest(said, table, rest, value);
        lemma_split(table, name + seq![' '] + value, 3);
        lemma_split(name, value, 2);
        lemma_last_piece(value);
        assert(text::pieces_up_to(rest, " "@, 3) =~= seq![table, name, value]);
    }
    if text::same_ignoring_case(said, "JSON.SET"@) {
        lemma_said(said, "JSON.SET"@);
        lemma_spaced_texts(table, name, path, value);
        let last = path + seq![' '] + value;
        let rest = table + seq![' '] + (name + seq![' '] + last);
        lemma_head_and_rest(said, table, rest, value);
        lemma_split(table, name + seq![' '] + last, 4);
        lemma_split(name, last, 3);
        lemma_split(path, value, 2);
        lemma_last_piece(value);
        assert(text::pieces_up_to(rest, " "@, 4) =~= seq![table, name, path, value]);
    }
}

proof fn lemma_head_and_rest(
    said: Seq<char>,
    table: Seq<char>,
    rest: Seq<char>,
    value: Seq<char>,
)
    requires
        is_word(said),
        is_word(table),
        rest.len() > 0,
        rest[0] == table[0],
        is_rest(value),
        rest.last() == value.last(),
    ensures
        text::trimmed(said + seq![' '] + rest) == said + seq![' '] + rest,
        text::pieces_up_to(said + seq![' '] + rest, " "@, 2) == seq![said, rest],
        text::trimmed(rest) == rest,
{
    let t = said + seq![' '] + rest;
    assert(!text::is_space(said[0]) && !text::is_space(table[0]));
    assert(t[0] == said[0]);
    assert(t.last() == rest.last());
    text::lemma_trimmed_id(t);
    text::lemma_trimmed_id(rest);
    lemma_split(said, rest, 2);
    lemma_last_piece(rest);
    assert(text::pieces_up_to(t, " "@, 2) =~= seq![said, rest]);
}

// ---------------------------------------------------------------------------------------------
// Replies
// ---------------------------------------------------------------------------------------------
/// A line of a reply ends with a carriage return and a line feed; bytes are preceded by a dollar sign
/// and their number on a line, and followed by a line's end; nothing is the number -1 in that place; a
/// number is preceded by a colon, an error by `-ERR `.
pub proof fn law_replies_are_framed(s: Seq<char>, v: Seq<u8>, n: int, e: ErrorView)
    ensures
        reply::line(s) == encode_utf8(s + seq!['\r', '\n']),
        reply::bulk(v) == encode_utf8(seq!['$'] + text::dec_text(v.len()) + seq!['\r', '\n']) + v
            + seq![13u8, 10u8],
        reply::nil() == encode_utf8(seq!['$', '-', '1', '\r', '\n']),
        reply::number(n) == encode_utf8(seq![':'] + text::int_text(n) + seq!['\r', '\n']),
        reply::failure(e) == encode_utf8(
            seq!['-', 'E', 'R', 'R', ' '] + types::error_text(e) + seq!['\r', '\n'],
        ),
        reply::value_reply(Some(v)) == reply::bulk(v),
        reply::value_reply(None) == reply::nil(),
{
    reveal_strlit("\r\n");
    reveal_strlit("$");
    reveal_strlit(":");
    reveal_strlit("-ERR ");
    reveal_strlit("$-1");
    let end = seq!['\r', '\n'];
    assert("\r\n"@ =~= end);
    assert("$"@ =~= seq!['$']);
    assert(":"@ =~= seq![':']);
    assert("-ERR "@ =~= seq!['-', 'E', 'R', 'R', ' ']);
    assert("$-1"@ + end =~= seq!['$', '-', '1', '\r', '\n']);
    assert(is_ascii_chars(end));
    is_ascii_chars_encode_utf8(end);
    assert(encode_utf8(end) =~= seq![13u8, 10u8]) by {
        assert(end[0] as u8 == encode_utf8(end)[0]);
        assert(end[1] as u8 == encode_utf8(end)[1]);
    }
}

/// Every error is told by what kind of error it is and by its own message.
pub proof fn law_errors_tell_their_message(s: Seq<char>)
    ensures
        types::error_text(ErrorView::Io(s)) == "I/O error: "@ + s,
        types::error_text(ErrorView::Serde(s)) == "Serialization/Deserialization error: "@ + s,
        types::error_text(ErrorView::InvalidUuid(s)) == "Invalid UUID format: "@ + s,
        types::error_text(ErrorView::WalCorruption(s)) == "WAL corruption detected: "@ + s,
        types::error_text(ErrorView::SstableCorruption(s)) == "SSTable corruption detected: "@ + s,
        types::error_text(ErrorView::KeyNotFound) == "Key not found"@,
        types::error_text(ErrorView::InvalidCommand(s)) == "Invalid command: "@ + s,
        types::error_text(ErrorView::IndexError(s)) == "Index error: "@ + s,
{
}

/// The text of a signed number reads back as the number, and so does that of one that is not negative
/// behind a plus sign.
pub proof fn law_signed_text_reads_back(n: i64)
    ensures
        text::parsed_signed(text::int_text(n as int)) == Some(n as int),
        n >= 0 ==> text::parsed_signed(seq!['+'] + text::dec_text(n as nat)) == Some(n as int),
        n >= 0 ==> text::parsed_number(seq!['+'] + text::dec_text(n as nat), u64::MAX as nat)
            == Some(n as nat),
{
    if n < 0 {
        let m = (-n) as nat;
        lemma_dec_text(m);
        let t = seq!['-'] + text::dec_text(m);
        assert(t.skip(1) =~= text::dec_text(m));
        assert(t[0] == '-');
    } else {
        lemma_dec_text(n as nat);
        let s = text::dec_text(n as nat);
        assert('0' <= s[0]);
        let t = seq!['+'] + s;
        assert(t.skip(1) =~= s);
        assert(t[0] == '+');
    }
}

/// Text in which some character is no digit, the sign in front aside, is no number; nor is one that
/// spells more than is asked for.
pub proof fn law_other_text_is_no_number(s: Seq<char>, max: nat, i: int)
    ensures
        1 <= i < s.len() && !('0' <= s[i] && s[i] <= '9') ==> text::parsed_number(s, max) is None
            && text::parsed_signed(s) is None,
        s.len() == 0 ==> text::parsed_number(s, max) is None && text::parsed_signed(s) is None,
        text::parsed_number(s, max) matches Some(n) ==> n <= max,
        text::parsed_signed(s) matches Some(n) ==> i64::MIN <= n <= i64::MAX,
{
    if 1 <= i < s.len() && !('0' <= s[i] && s[i] <= '9') {
        assert(s.skip(1)[i - 1] == s[i]);
    }
}

// ---------------------------------------------------------------------------------------------
// Several keys and values
// ---------------------------------------------------------------------------------------------
/// A token of an object: a brace, a string in quotes, or a character that is neither. A string is made
/// of characters, each behind a backslash or not.
pub enum Token {
    Open,
    Close,
    Text(Seq<(bool, char)>),
    Other(char),
}

/// The characters of a string between its quotes.
pub open spec fn string_chars(s: Seq<(bool, char)>) -> Seq<char>
    decreases s.len(),
{
    if s.len() == 0 {
        Seq::empty()
    } else if s[0].0 {
        seq!['\\', s[0].1] + string_chars(s.skip(1))
    } else {
        seq![s[0].1] + string_chars(s.skip(1))
    }
}

/// The characters of a token.
pub open spec fn token_chars(t: Token) -> Seq<char> {
    match t {
        Token::Open => seq!['{'],
        Token::Close => seq!['}'],
        Token::Text(s) => seq!['"'] + string_chars(s) + seq!['"'],
        Token::Other(c) => seq![c],
    }
}

/// The characters of a string as they should be: no quote or backslash that is not behind a backslash.
pub open spec fn are_string_chars(s: Seq<(bool, char)>) -> bool {
    forall|i: int| 0 <= i < s.len() ==> (#[trigger] s[i]).0 || s[i].1 != '"' && s[i].1 != '\\'
}

/// A token as it should be: no quote, brace or backslash that is not marked as one.
pub open spec fn is_token(t: Token) -> bool {
    match t {
        Token::Text(s) => are_string_chars(s),
        Token::Other(c) => c != '{' && c != '}' && c != '"',
        _ => true,
    }
}

/// The characters of some tokens.
pub open spec fn tokens_chars(s: Seq<Token>) -> Seq<char>
    decreases s.len(),
{
    if s.len() == 0 {
        Seq::empty()
    } else {
        token_chars(s[0]) + tokens_chars(s.skip(1))
    }
}

/// Some tokens close as many braces as are open before them, the last of them the last brace.
pub open spec fn closes(s: Seq<Token>, open: nat) -> bool
    decreases s.len(),
{
    if open == 0 {
        s.len() == 0
    } else {
        s.len() > 0 && is_token(s[0]) && closes(
            s.skip(1),
            match s[0] {
                Token::Open => open + 1,
                Token::Close => (open - 1) as nat,
                _ => open,
            },
        )
    }
}

/// An object in braces.
pub open spec fn is_object(v: Seq<char>) -> bool {
    exists|s: Seq<Token>| #[trigger] closes(s, 1) && v == seq!['{'] + tokens_chars(s)
}

/// A value as `MSET` takes it: an object in braces, or a word that starts with no brace.
pub open spec fn is_mset_value(v: Seq<char>) -> bool {
    is_object(v) || is_word(v) && v[0] != '{'
}

/// Keys and values, in turn, blanks between them.
pub open spec fn entries_text(s: Seq<(Seq<char>, Seq<char>)>) -> Seq<char>
    decreases s.len(),
{
    if s.len() == 0 {
        Seq::empty()
    } else {
        s[0].0 + seq![' '] + s[0].1 + (if s.len() == 1 {
            Seq::empty()
        } else {
            seq![' '] + entries_text(s.skip(1))
        })
    }
}

proof fn lemma_string_len(s: Seq<(bool, char)>, rest: Seq<char>, depth: int)
    requires
        are_string_chars(s),
    ensures
        codec::braced_len(string_chars(s) + (seq!['"'] + rest), depth, codec::Place::Quoted)
            == string_chars(s).len() + 1 + codec::braced_len(rest, depth, codec::Place::Outside),
    decreases s.len(),
{
    let tail = seq!['"'] + rest;
    let all = string_chars(s) + tail;
    if s.len() == 0 {
        assert(all =~= tail);
        assert(tail.skip(1) =~= rest);
    } else {
        let more = s.skip(1);
        assert forall|i: int| 0 <= i < more.len() implies (#[trigger] more[i]).0 || more[i].1 != '"'
            && more[i].1 != '\\' by {
            assert(more[i] == s[i + 1]);
        }
        lemma_string_len(more, rest, depth);
        assert(s[0].0 || s[0].1 != '"' && s[0].1 != '\\');
        if s[0].0 {
            let one = all.skip(1);
            assert(all[0] == '\\');
            assert(one.skip(1) =~= string_chars(more) + tail);
            assert(codec::braced_len(one, depth, codec::Place::Escaped) == 1 + codec::braced_len(
                one.skip(1),
                depth,
                codec::Place::Quoted,
            ));
        } else {
            assert(all[0] == s[0].1);
            assert(all.skip(1) =~= string_chars(more) + tail);
        }
    }
}

proof fn lemma_tokens_len(s: Seq<Token>, open: nat, rest: Seq<char>)
    requires
        closes(s, open),
        open > 0,
    ensures
        codec::braced_len(tokens_chars(s) + rest, open as int, codec::Place::Outside)
            == tokens_chars(s).len(),
    decreases s.len(),
{
    reveal_with_fuel(closes, 2);
    let more = s.skip(1);
    let all = tokens_chars(s) + rest;
    let tail = tokens_chars(more) + rest;
    match s[0] {
        Token::Open => {
            assert(all[0] == '{');
            assert(all.skip(1) =~= tail);
            lemma_tokens_len(more, open + 1, rest);
        },
        Token::Close => {
            assert(all[0] == '}');
            assert(all.skip(1) =~= tail);
            if open > 1 {
                lemma_tokens_len(more, (open - 1) as nat, rest);
            } else {
                assert(more.len() == 0);
            }
        },
        Token::Text(t) => {
            let inner = string_chars(t) + (seq!['"'] + tail);
            assert(all[0] == '"');
            assert(all.skip(1) =~= inner);
            lemma_string_len(t, tail, open as int);
            lemma_tokens_len(more, open, rest);
        },
        Token::Other(c) => {
            assert(all[0] == c);
            assert(all.skip(1) =~= tail);
            lemma_tokens_len(more, open, rest);
        },
    }
}

/// A value ends where its closing brace stands, or where white space does.
proof fn lemma_value_len(v: Seq<char>, rest: Seq<char>)
    requires
        is_mset_value(v),
        rest.len() > 0 ==> text::is_space(rest[0]),
    ensures
        v.len() > 0,
        !text::is_space(v[0]),
        codec::value_len(v + rest) == v.len(),
{
    if is_object(v) {
        let s = choose|s: Seq<Token>| #[trigger]
            closes(s, 1) && v == seq!['{'] + tokens_chars(s);
        let all = v + rest;
        assert(all[0] == '{');
        assert(all.skip(1) =~= tokens_chars(s) + rest);
        lemma_tokens_len(s, 1, rest);
    } else {
        text::lemma_word_stops(v, rest);
        assert((v + rest)[0] == v[0]);
    }
}

/// A key and a value are taken from the front.
#[verifier::rlimit(40)]
proof fn lemma_entry(pad: Seq<char>, name: Seq<char>, value: Seq<char>, tail: Seq<char>)
    requires
        pad.len() == 0 || pad == seq![' '],
        is_word(name),
        is_mset_value(value),
        tail.len() > 0 ==> text::is_space(tail[0]),
    ensures
        codec::mset_entries(pad + (name + (seq![' '] + (value + tail)))) == (
        match codec::mset_entries(tail) {
            Err(e) => Err::<Seq<(u128, Seq<u8>)>, ErrorView>(e),
            Ok(rest) => Ok(seq![(key(name), encode_utf8(value))] + rest),
        }),
{
    let c = value + tail;
    let after = seq![' '] + c;
    let b = name + after;
    let all = pad + b;
    assert(!text::is_space(name[0]));
    assert(b[0] == name[0]);
    assert(text::trim_start(b) == b);
    assert(text::trim_start(all) == b) by {
        if pad.len() > 0 {
            assert(all[0] == ' ');
            assert(all.skip(1) =~= b);
        } else {
            assert(all =~= b);
        }
    }
    assert(text::word_len(b) == name.len()) by {
        text::lemma_word_stops(name, after);
    }
    assert(b.take(name.len() as int) =~= name);
    assert(b.skip(name.len() as int) =~= after);
    lemma_value_len(value, tail);
    assert(text::trim_start(after) == c) by {
        assert(after[0] == ' ');
        assert(after.skip(1) =~= c);
        assert(c[0] == value[0]);
        assert(text::trim_start(c) == c);
    }
    assert(c.take(value.len() as int) =~= value);
    assert(c.skip(value.len() as int) =~= tail);
    lemma_key(name);
}

proof fn lemma_entries(s: Seq<(Seq<char>, Seq<char>)>, pad: Seq<char>)
    requires
        forall|i: int|
            0 <= i < s.len() ==> is_word((#[trigger] s[i]).0) && is_mset_value(s[i].1),
        pad.len() == 0 || s.len() > 0 && pad == seq![' '],
    ensures
        codec::mset_entries(pad + entries_text(s)) == Ok::<Seq<(u128, Seq<u8>)>, ErrorView>(
            Seq::new(s.len(), |i: int| (key(s[i].0), encode_utf8(s[i].1))),
        ),
    decreases s.len(),
{
    let all = pad + entries_text(s);
    let want = Seq::new(s.len(), |i: int| (key(s[i].0), encode_utf8(s[i].1)));
    if s.len() == 0 {
        assert(all =~= Seq::<char>::empty());
        assert(want =~= Seq::<(u128, Seq<u8>)>::empty());
    } else {
        let name = s[0].0;
        let value = s[0].1;
        let more = s.skip(1);
        let blank = if s.len() == 1 { Seq::<char>::empty() } else { seq![' '] };
        let tail = blank + entries_text(more);
        assert(is_word(name) && is_mset_value(value));
        assert(s.len() == 1 ==> entries_text(more) =~= Seq::<char>::empty());
        assert(all =~= pad + (name + (seq![' '] + (value + tail))));
        lemma_entry(pad, name, value, tail);
        assert forall|i: int| 0 <= i < more.len() implies is_word((#[trigger] more[i]).0)
            && is_mset_value(more[i].1) by {
            assert(more[i] == s[i + 1]);
        }
        lemma_entries(more, blank);
        assert(want =~= seq![(key(name), encode_utf8(value))] + Seq::new(
            more.len(),
            |i: int| (key(more[i].0), encode_utf8(more[i].1)),
        ));
    }
}

/// The keys and values of an `MSET` end in no white space.
proof fn lemma_entries_rest(s: Seq<(Seq<char>, Seq<char>)>)
    requires
        forall|i: int|
            0 <= i < s.len() ==> is_word((#[trigger] s[i]).0) && is_mset_value(s[i].1),
        s.len() > 0,
    ensures
        is_rest(entries_text(s)),
    decreases s.len(),
{
    let name = s[0].0;
    let value = s[0].1;
    assert(is_word(name) && is_mset_value(value));
    assert(!text::is_space(name[0]));
    assert(entries_text(s)[0] == name[0]);
    if s.len() == 1 {
        assert(entries_text(s) =~= name + seq![' '] + value);
        lemma_value_ends(value);
        assert(entries_text(s).last() == value.last());
    } else {
        let more = s.skip(1);
        assert forall|i: int| 0 <= i < more.len() implies is_word((#[trigger] more[i]).0)
            && is_mset_value(more[i].1) by {
            assert(more[i] == s[i + 1]);
        }
        lemma_entries_rest(more);
        assert(entries_text(s).last() == entries_text(more).last());
    }
}

proof fn lemma_value_ends(v: Seq<char>)
    requires
        is_mset_value(v),
    ensures
        v.len() > 0,
        !text::is_space(v.last()),
{
    if is_object(v) {
        let s = choose|s: Seq<Token>| #[trigger]
            closes(s, 1) && v == seq!['{'] + tokens_chars(s);
        lemma_tokens_end(s, 1);
        assert(v.last() == '}');
    } else {
        assert(v.last() == v[v.len() - 1]);
    }
}

proof fn lemma_tokens_end(s: Seq<Token>, open: nat)
    requires
        closes(s, open),
        open > 0,
    ensures
        tokens_chars(s).len() > 0,
        tokens_chars(s).last() == '}',
    decreases s.len(),
{
    reveal_with_fuel(closes, 2);
    reveal_with_fuel(tokens_chars, 2);
    let more = s.skip(1);
    let next = match s[0] {
        Token::Open => open + 1,
        Token::Close => (open - 1) as nat,
        _ => open,
    };
    if next > 0 {
        lemma_tokens_end(more, next);
        assert(tokens_chars(s).last() == tokens_chars(more).last());
    } else {
        assert(more.len() == 0);
        assert(tokens_chars(s) =~= seq!['}']);
    }
}

/// `MSET` takes a table, and then keys and values in turn, each value an object in braces, whatever
/// braces stand in its strings, or a word; the values are taken byte for byte, in their order.
pub proof fn law_mset_takes_keys_and_values_in_turn(
    said: Seq<char>,
    table: Seq<char>,
    s: Seq<(Seq<char>, Seq<char>)>,
)
    requires
        text::same_ignoring_case(said, "MSET"@),
        is_word(table),
        s.len() > 0,
        forall|i: int|
            0 <= i < s.len() ==> is_word((#[trigger] s[i]).0) && is_mset_value(s[i].1),
    ensures
        says(
            said + seq![' '] + (table + seq![' '] + entries_text(s)),
            CommandView::Mset {
                table: text::lower_text(table),
                entries: Seq::new(s.len(), |i: int| (key(s[i].0), encode_utf8(s[i].1))),
            },
        ),
{
    let body = entries_text(s);
    let rest = table + seq![' '] + body;
    lemma_said(said, "MSET"@);
    lemma_entries_rest(s);
    lemma_entries(s, Seq::empty());
    assert(Seq::<char>::empty() + body =~= body);
    assert(!text::is_space(table[0]));
    assert(rest[0] == table[0]);
    assert(rest.last() == body.last());
    lemma_line(said, rest);
    lemma_verbs(rest);
    lemma_split(table, body, 2);
    lemma_last_piece(body);
    assert(text::pieces_up_to(rest, " "@, 2) =~= seq![table, body]);
    text::lemma_trimmed_id(body);
}

/// `MSET` writes the keys of its entries, in their order, each under the text that the line names it by.
pub proof fn law_mset_names_its_keys(
    said: Seq<char>,
    table: Seq<char>,
    s: Seq<(Seq<char>, Seq<char>)>,
)
    requires
        text::same_ignoring_case(said, "MSET"@),
        is_word(table),
        s.len() > 0,
        forall|i: int|
            0 <= i < s.len() ==> is_word((#[trigger] s[i]).0) && is_mset_value(s[i].1),
    ensures
        codec::written_keys(said + seq![' '] + (table + seq![' '] + entries_text(s))) == Seq::new(
            s.len(),
            |i: int| (key(s[i].0), s[i].0),
        ),
{
    let body = entries_text(s);
    let rest = table + seq![' '] + body;
    lemma_said(said, "MSET"@);
    lemma_literals();
    lemma_entries_rest(s);
    lemma_names(s, Seq::empty());
    assert(Seq::<char>::empty() + body =~= body);
    lemma_head_and_rest(said, table, rest, body);
    lemma_split(table, body, 2);
    lemma_last_piece(body);
    assert(text::pieces_up_to(rest, " "@, 2) =~= seq![table, body]);
    text::lemma_trimmed_id(body);
}

#[verifier::rlimit(40)]
proof fn lemma_name(pad: Seq<char>, name: Seq<char>, value: Seq<char>, tail: Seq<char>)
    requires
        pad.len() == 0 || pad == seq![' '],
        is_word(name),
        is_mset_value(value),
        tail.len() > 0 ==> text::is_space(tail[0]),
    ensures
        codec::mset_keys(pad + (name + (seq![' '] + (value + tail)))) == seq![(key(name), name)]
            + codec::mset_keys(tail),
{
    let c = value + tail;
    let after = seq![' '] + c;
    let b = name + after;
    let all = pad + b;
    assert(!text::is_space(name[0]) && !text::is_space(name.last()));
    text::lemma_trimmed_id(name);
    assert(b[0] == name[0]);
    assert(text::trim_start(b) == b);
    assert(text::trim_start(all) == b) by {
        if pad.len() > 0 {
            assert(all[0] == ' ');
            assert(all.skip(1) =~= b);
        } else {
            assert(all =~= b);
        }
    }
    assert(text::word_len(b) == name.len()) by {
        text::lemma_word_stops(name, after);
    }
    assert(b.take(name.len() as int) =~= name);
    assert(b.skip(name.len() as int) =~= after);
    lemma_value_len(value, tail);
    assert(text::trim_start(after) == c) by {
        assert(after[0] == ' ');
        assert(after.skip(1) =~= c);
        assert(c[0] == value[0]);
        assert(text::trim_start(c) == c);
    }
    assert(c.skip(value.len() as int) =~= tail);
    lemma_key(name);
}

proof fn lemma_names(s: Seq<(Seq<char>, Seq<char>)>, pad: Seq<char>)
    requires
        forall|i: int|
            0 <= i < s.len() ==> is_word((#[trigger] s[i]).0) && is_mset_value(s[i].1),
        pad.len() == 0 || s.len() > 0 && pad == seq![' '],
    ensures
        codec::mset_keys(pad + entries_text(s)) == Seq::new(
            s.len(),
            |i: int| (key(s[i].0), s[i].0),
        ),
    decreases s.len(),
{
    let all = pad + entries_text(s);
    let want = Seq::new(s.len(), |i: int| (key(s[i].0), s[i].0));
    if s.len() == 0 {
        assert(all =~= Seq::<char>::empty());
        assert(want =~= Seq::<(u128, Seq<char>)>::empty());
    } else {
        let name = s[0].0;
        let value = s[0].1;
        let more = s.skip(1);
        let blank = if s.len() == 1 { Seq::<char>::empty() } else { seq![' '] };
        let tail = blank + entries_text(more);
        assert(is_word(name) && is_mset_value(value));
        assert(s.len() == 1 ==> entries_text(more) =~= Seq::<char>::empty());
        assert(all =~= pad + (name + (seq![' '] + (value + tail))));
        lemma_name(pad, name, value, tail);
        assert forall|i: int| 0 <= i < more.len() implies is_word((#[trigger] more[i]).0)
            && is_mset_value(more[i].1) by {
            assert(more[i] == s[i + 1]);
        }
        lemma_names(more, blank);
        assert(want =~= seq![(key(name), name)] + Seq::new(
            more.len(),
            |i: int| (key(more[i].0), more[i].0),
        ));
    }
}

/// An `MSET` of which the last key has no value is refused, and so is one without keys.
#[verifier::rlimit(40)]
pub proof fn law_mset_needs_values(said: Seq<char>, table: Seq<char>, name: Seq<char>)
    requires
        text::same_ignoring_case(said, "MSET"@),
        is_word(table),
        is_word(name),
    ensures
        refuses(said + seq![' '] + table),
        refuses(said + seq![' '] + (table + seq![' '] + name)),
{
    lemma_said(said, "MSET"@);
    assert(!text::is_space(table[0]) && !text::is_space(table.last()));
    lemma_line(said, table);
    lemma_verbs(table);
    lemma_no_split(table, 2);
    let rest = table + seq![' '] + name;
    assert(!text::is_space(name[0]) && !text::is_space(name.last()));
    assert(rest[0] == table[0]);
    assert(rest.last() == name.last());
    lemma_line(said, rest);
    lemma_verbs(rest);
    lemma_split(table, name, 2);
    lemma_last_piece(name);
    assert(text::pieces_up_to(rest, " "@, 2) =~= seq![table, name]);
    text::lemma_trimmed_id(name);
    text::lemma_trimmed_id(Seq::<char>::empty());
    let none = Seq::<char>::empty();
    text::lemma_word_stops(name, none);
    assert(name + none =~= name);
    assert(text::trim_start(name) == name);
    assert(name.take(name.len() as int) =~= name);
    assert(name.skip(name.len() as int) =~= none);
    lemma_key(name);
}

} // verus!
