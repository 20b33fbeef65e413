//! Text as sequences of characters: trimming, splitting, numbers.
use vstd::prelude::*;
use vstd::utf8::*;

verus! {

/// `String::push` appends one character.
pub assume_specification [std::string::String::push] (s: &mut std::string::String, c: char)
    ensures
        final(s)@ == old(s)@.push(c),
;

/// The upper-case text by Unicode's mapping of characters.
pub uninterp spec fn unicode_upper(s: Seq<char>) -> Seq<char>;

/// The lower-case text by Unicode's mapping of characters.
pub uninterp spec fn unicode_lower(s: Seq<char>) -> Seq<char>;

/// The upper-case text; of ASCII text the letters `a` to `z` change.
pub open spec fn upper_text(s: Seq<char>) -> Seq<char> {
    if is_ascii_chars(s) {
        Seq::new(s.len(), |i: int| ascii_upper(s[i]))
    } else {
        unicode_upper(s)
    }
}

/// The lower-case text; of ASCII text the letters `A` to `Z` change.
pub open spec fn lower_text(s: Seq<char>) -> Seq<char> {
    if is_ascii_chars(s) {
        Seq::new(s.len(), |i: int| ascii_lower(s[i]))
    } else {
        unicode_lower(s)
    }
}

/// `str::to_uppercase` is determined by the text, and on ASCII text changes the letters one by one.
/// What it makes of other text has no short statement.
#[verifier::external_body]
pub(crate) fn to_upper(s: &str) -> (r: String)
    ensures
        r@ == unicode_upper(s@),
        is_ascii_chars(s@) ==> r@ == Seq::new(s@.len(), |i: int| ascii_upper(s@[i])),
{
    s.to_uppercase()
}

/// `str::to_lowercase` is determined by the text, and on ASCII text changes the letters one by one.
/// What it makes of other text has no short statement.
#[verifier::external_body]
pub(crate) fn to_lower(s: &str) -> (r: String)
    ensures
        r@ == unicode_lower(s@),
        is_ascii_chars(s@) ==> r@ == Seq::new(s@.len(), |i: int| ascii_lower(s@[i])),
{
    s.to_lowercase()
}

/// The upper-case form of an ASCII letter; any other character unchanged.
pub open spec fn ascii_upper(c: char) -> char {
    if 'a' <= c && c <= 'z' {
        ((c as u32) - 32) as char
    } else {
        c
    }
}

/// The lower-case form of an ASCII letter; any other character unchanged.
pub open spec fn ascii_lower(c: char) -> char {
    if 'A' <= c && c <= 'Z' {
        ((c as u32) + 32) as char
    } else {
        c
    }
}

// ---------------------------------------------------------------------------------------------
// Characters and owned text
// ---------------------------------------------------------------------------------------------
/// The characters with Unicode's White_Space property.
pub open spec fn is_space(c: char) -> bool {
    ||| 0x9 <= c as u32 <= 0xd
    ||| c as u32 == 0x20
    ||| c as u32 == 0x85
    ||| c as u32 == 0xa0
    ||| c as u32 == 0x1680
    ||| 0x2000 <= c as u32 <= 0x200a
    ||| c as u32 == 0x2028
    ||| c as u32 == 0x2029
    ||| c as u32 == 0x202f
    ||| c as u32 == 0x205f
    ||| c as u32 == 0x3000
}

pub fn char_is_space(c: char) -> (r: bool)
    ensures
        r == is_space(c),
{
    let n: u32 = c as u32;
    (0x9 <= n && n <= 0xd) || n == 0x20 || n == 0x85 || n == 0xa0 || n == 0x1680 || (0x2000 <= n && n
        <= 0x200a) || n == 0x2028 || n == 0x2029 || n == 0x202f || n == 0x205f || n == 0x3000
}

/// The characters of a string.
pub fn chars_of(s: &str) -> (r: Vec<char>)
    ensures
        r@ == s@,
{
    let mut out: Vec<char> = Vec::new();
    for c in it: s.chars()
        invariant
            out@ == s@.take(it.index()),
            it.seq() == s@,
    {
        assert(s@.take(it.index() + 1) =~= s@.take(it.index()).push(c));
        out.push(c);
    }
    assert(s@.take(s@.len() as int) =~= s@);
    out
}

/// The string made of some characters.
pub fn string_of(s: &[char]) -> (r: String)
    ensures
        r@ == s@,
{
    let mut out = String::new();
    let mut i: usize = 0;
    while i < s.len()
        invariant
            i <= s@.len(),
            out@ == s@.take(i as int),
        decreases s@.len() - i,
    {
        assert(s@.take(i + 1) =~= s@.take(i as int).push(s@[i as int]));
        out.push(s[i]);
        i = i + 1;
    }
    assert(s@.take(i as int) =~= s@);
    out
}

/// Appends `b` to `a`.
pub fn push_text(a: &mut String, b: &str)
    ensures
        final(a)@ == old(a)@ + b@,
{
    let ghost start = a@;
    for c in it: b.chars()
        invariant
            a@ == start + b@.take(it.index()),
            it.seq() == b@,
    {
        assert(start + b@.take(it.index() + 1) =~= (start + b@.take(it.index())).push(c));
        a.push(c);
    }
    assert(b@.take(b@.len() as int) =~= b@);
}

/// Two pieces of text hold the same characters.
pub fn text_eq(a: &str, b: &str) -> (r: bool)
    ensures
        r == (a@ == b@),
{
    let x = a.to_owned();
    let y = b.to_owned();
    x == y
}

// ---------------------------------------------------------------------------------------------
// Trimming
// ---------------------------------------------------------------------------------------------
/// The text without its leading white space.
pub open spec fn trim_start(s: Seq<char>) -> Seq<char>
    decreases s.len(),
{
    if s.len() > 0 && is_space(s[0]) {
        trim_start(s.skip(1))
    } else {
        s
    }
}

/// The text without its trailing white space.
pub open spec fn trim_end(s: Seq<char>) -> Seq<char>
    decreases s.len(),
{
    if s.len() > 0 && is_space(s.last()) {
        trim_end(s.drop_last())
    } else {
        s
    }
}

/// The text without its leading and trailing white space.
pub open spec fn trimmed(s: Seq<char>) -> Seq<char> {
    trim_end(trim_start(s))
}

/// Drops leading and trailing white space.
pub fn trim(s: &[char]) -> (r: &[char])
    ensures
        r@ == trimmed(s@),
{
    let mut a: usize = 0;
    assert(s@.skip(0) =~= s@);
    while a < s.len() && char_is_space(s[a])
        invariant
            a <= s@.len(),
            trim_start(s@) == trim_start(s@.skip(a as int)),
        decreases s@.len() - a,
    {
        assert(s@.skip(a as int).skip(1) =~= s@.skip(a + 1));
        a = a + 1;
    }
    let ghost t = s@.skip(a as int);
    assert(trim_start(s@) == t);
    let mut b: usize = s.len();
    while b > a && char_is_space(s[b - 1])
        invariant
            a <= b <= s@.len(),
            t == s@.skip(a as int),
            trim_end(t) == trim_end(s@.subrange(a as int, b as int)),
        decreases b,
    {
        assert(s@.subrange(a as int, b as int).drop_last() =~= s@.subrange(a as int, b - 1));
        b = b - 1;
    }
    assert(t =~= s@.subrange(a as int, s@.len() as int));
    &s[a..b]
}

/// Text that neither starts nor ends with white space is trimmed already.
pub proof fn lemma_trimmed_id(s: Seq<char>)
    requires
        s.len() > 0 ==> !is_space(s[0]) && !is_space(s.last()),
    ensures
        trimmed(s) == s,
{
}

proof fn lemma_trim_ends(s: Seq<char>)
    ensures
        trim_start(s).len() > 0 ==> !is_space(trim_start(s)[0]),
        trim_end(s).len() > 0 ==> !is_space(trim_end(s).last()) && trim_end(s)[0] == s[0],
    decreases s.len(),
{
    if s.len() > 0 {
        lemma_trim_ends(s.skip(1));
        lemma_trim_ends(s.drop_last());
    }
}

/// Text without white space around it stays as it is.
pub proof fn lemma_trimmed_twice(s: Seq<char>)
    ensures
        trimmed(trimmed(s)) == trimmed(s),
        trimmed(s).len() > 0 ==> !is_space(trimmed(s)[0]) && !is_space(trimmed(s).last()),
{
    lemma_trim_ends(s);
    lemma_trim_ends(trim_start(s));
    lemma_trimmed_id(trimmed(s));
}

/// White space around text is dropped, and nothing else of it.
pub proof fn law_trimming_drops_white_space_around(a: Seq<char>, s: Seq<char>, b: Seq<char>)
    requires
        s.len() > 0 ==> !is_space(s[0]) && !is_space(s.last()),
        forall|i: int| 0 <= i < a.len() ==> is_space(#[trigger] a[i]),
        forall|i: int| 0 <= i < b.len() ==> is_space(#[trigger] b[i]),
    ensures
        trimmed(a + s + b) == s,
    decreases a.len() + b.len(),
{
    let all = a + s + b;
    if a.len() > 0 {
        assert(all[0] == a[0]);
        assert(all.skip(1) =~= a.skip(1) + s + b);
        assert(trim_start(all) == trim_start(all.skip(1)));
        law_trimming_drops_white_space_around(a.skip(1), s, b);
    } else if s.len() == 0 {
        if b.len() > 0 {
            assert(all[0] == b[0]);
            assert(all.skip(1) =~= a + s + b.skip(1));
            assert(trim_start(all) == trim_start(all.skip(1)));
            law_trimming_drops_white_space_around(a, s, b.skip(1));
        } else {
            assert(all =~= s);
        }
    } else {
        assert(all[0] == s[0]);
        assert(trim_start(all) == all);
        lemma_trim_end_pad(s, b);
        assert(all =~= s + b);
    }
}

proof fn lemma_trim_end_pad(s: Seq<char>, b: Seq<char>)
    requires
        s.len() > 0,
        !is_space(s.last()),
        forall|i: int| 0 <= i < b.len() ==> is_space(#[trigger] b[i]),
    ensures
        trim_end(s + b) == s,
    decreases b.len(),
{
    if b.len() > 0 {
        assert((s + b).last() == b.last());
        assert(b.last() == b[b.len() - 1]);
        assert((s + b).drop_last() =~= s + b.drop_last());
        assert forall|i: int| 0 <= i < b.drop_last().len() implies is_space(
            #[trigger] b.drop_last()[i],
        ) by {
            assert(b[i] == b.drop_last()[i]);
        }
        lemma_trim_end_pad(s, b.drop_last());
    } else {
        assert(s + b =~= s);
    }
}

// ---------------------------------------------------------------------------------------------
// Hexadecimal
// ---------------------------------------------------------------------------------------------
/// The lower-case hexadecimal digit of a number below 16.
pub open spec fn hex_char(d: nat) -> char {
    if d < 10 {
        (48 + d) as char
    } else {
        (87 + d) as char
    }
}

/// The `n` low hexadecimal digits of `x`, most significant first.
pub open spec fn hex_text(x: nat, n: nat) -> Seq<char>
    decreases n,
{
    if n == 0 {
        Seq::empty()
    } else {
        hex_text(x / 16, (n - 1) as nat).push(hex_char(x % 16))
    }
}

/// The value of an ASCII hexadecimal digit.
pub open spec fn hex_digit(b: u8) -> Option<nat> {
    if 48 <= b <= 57 {
        Some((b - 48) as nat)
    } else if 97 <= b <= 102 {
        Some((b - 87) as nat)
    } else if 65 <= b <= 70 {
        Some((b - 55) as nat)
    } else {
        None
    }
}

/// Every byte is an ASCII hexadecimal digit.
pub open spec fn all_hex(s: Seq<u8>) -> bool {
    forall|i: int| 0 <= i < s.len() ==> hex_digit(#[trigger] s[i]) is Some
}

/// The number that ASCII hexadecimal digits spell.
pub open spec fn hex_value(s: Seq<u8>) -> nat
    decreases s.len(),
{
    if s.len() == 0 {
        0
    } else {
        hex_value(s.drop_last()) * 16 + hex_digit(s.last()).unwrap_or(0)
    }
}

fn hex_char_of(d: u8) -> (r: char)
    requires
        d < 16,
    ensures
        r == hex_char(d as nat),
{
    if d < 10 {
        (48 + d) as char
    } else {
        (87 + d) as char
    }
}

/// The low `n` hexadecimal digits of `x` in lower case.
pub fn to_hex(x: u64, n: usize) -> (r: String)
    ensures
        r@ == hex_text(x as nat, n as nat),
    decreases n,
{
    if n == 0 {
        let out = String::new();
        assert(out@ =~= hex_text(x as nat, 0));
        out
    } else {
        let mut out = to_hex(x / 16, n - 1);
        out.push(hex_char_of((x % 16) as u8));
        out
    }
}

// ---------------------------------------------------------------------------------------------
// Decimal
// ---------------------------------------------------------------------------------------------
/// The decimal digits of `n`, without leading zeros.
pub open spec fn dec_text(n: nat) -> Seq<char>
    decreases n,
{
    if n < 10 {
        seq![(48 + n) as char]
    } else {
        dec_text(n / 10).push((48 + n % 10) as char)
    }
}

/// The decimal digits of `n`.
pub fn to_dec(n: u64) -> (r: String)
    ensures
        r@ == dec_text(n as nat),
    decreases n,
{
    if n < 10 {
        let mut out = String::new();
        out.push((48 + n as u8) as char);
        assert(out@ =~= dec_text(n as nat));
        out
    } else {
        let mut out = to_dec(n / 10);
        out.push((48 + (n % 10) as u8) as char);
        out
    }
}

/// The text of a signed number.
pub open spec fn int_text(n: int) -> Seq<char> {
    if n < 0 {
        seq!['-'] + dec_text((-n) as nat)
    } else {
        dec_text(n as nat)
    }
}

/// Every character is an ASCII decimal digit.
pub open spec fn all_digits(s: Seq<char>) -> bool {
    forall|i: int| 0 <= i < s.len() ==> '0' <= #[trigger] s[i] && s[i] <= '9'
}

/// The number that decimal digits spell.
pub open spec fn dec_value(s: Seq<char>) -> nat
    decreases s.len(),
{
    if s.len() == 0 {
        0
    } else {
        dec_value(s.drop_last()) * 10 + (s.last() as nat - 48) as nat
    }
}

/// What parsing an unsigned number up to `max` gives: an optional `+`, then one or more digits
/// that spell a number no greater than `max`.
pub open spec fn parsed_number(s: Seq<char>, max: nat) -> Option<nat> {
    let digits = if s.len() > 0 && s[0] == '+' { s.skip(1) } else { s };
    if digits.len() > 0 && all_digits(digits) && dec_value(digits) <= max {
        Some(dec_value(digits))
    } else {
        None
    }
}

proof fn lemma_dec_value_prefix(s: Seq<char>, i: int)
    requires
        0 <= i <= s.len(),
        all_digits(s),
    ensures
        dec_value(s.take(i)) <= dec_value(s),
    decreases s.len() - i,
{
    if i == s.len() {
        assert(s.take(i) =~= s);
    } else {
        lemma_dec_value_prefix(s, i + 1);
        assert(s.take(i + 1).drop_last() =~= s.take(i));
        assert(s.take(i + 1).last() == s[i]);
    }
}

/// Parses an unsigned decimal number.
pub fn parse_u64(s: &[char]) -> (r: Option<u64>)
    ensures
        match r {
            Some(n) => parsed_number(s@, u64::MAX as nat) == Some(n as nat),
            None => parsed_number(s@, u64::MAX as nat) is None,
        },
{
    let start: usize = if s.len() > 0 && s[0] == '+' { 1 } else { 0 };
    let ghost digits = s@.skip(start as int);
    assert(start == 0 ==> digits =~= s@);
    if start == s.len() {
        return None;
    }
    let mut value: u64 = 0;
    let mut i: usize = start;
    while i < s.len()
        invariant
            start <= i <= s@.len(),
            start < s@.len(),
            digits == s@.skip(start as int),
            value == dec_value(digits.take(i - start)),
            all_digits(digits.take(i - start)),
            parsed_number(s@, u64::MAX as nat) == (if digits.len() > 0 && all_digits(digits)
                && dec_value(digits) <= u64::MAX {
                Some(dec_value(digits))
            } else {
                None
            }),
        decreases s@.len() - i,
    {
        let c = s[i];
        assert(digits[i - start] == c);
        if c < '0' || c > '9' {
            assert(!all_digits(digits));
            return None;
        }
        let d: u64 = (c as u32 - 48) as u64;
        proof {
            let p = digits.take(i - start);
            let q = digits.take(i + 1 - start);
            assert(q.drop_last() =~= p);
            assert(q.last() == c);
            if all_digits(digits) {
                lemma_dec_value_prefix(digits, i + 1 - start);
            }
        }
        if value > (u64::MAX - d) / 10 {
            assert(value * 10 + d > u64::MAX);
            return None;
        }
        value = value * 10 + d;
        i = i + 1;
    }
    assert(digits.take(i - start) =~= digits);
    Some(value)
}

/// What parsing a signed 64-bit number gives: an optional sign, then one or more digits that spell
/// a number in range.
pub open spec fn parsed_signed(s: Seq<char>) -> Option<int> {
    if s.len() > 0 && s[0] == '-' {
        let digits = s.skip(1);
        if digits.len() > 0 && all_digits(digits) && dec_value(digits) <= 0x8000_0000_0000_0000 {
            Some(-(dec_value(digits) as int))
        } else {
            None
        }
    } else {
        match parsed_number(s, i64::MAX as nat) {
            Some(n) => Some(n as int),
            None => None,
        }
    }
}

/// Parses a signed decimal number.
pub fn parse_i64(s: &[char]) -> (r: Option<i64>)
    ensures
        match r {
            Some(n) => parsed_signed(s@) == Some(n as int),
            None => parsed_signed(s@) is None,
        },
{
    if s.len() > 0 && s[0] == '-' {
        let rest = &s[1..s.len()];
        assert(rest@ =~= s@.skip(1));
        if rest.len() > 0 && rest[0] == '+' {
            assert(!('0' <= rest@[0]));
            return None;
        }
        match parse_u64(rest) {
            Some(n) => {
                if n > 0x8000_0000_0000_0000 {
                    None
                } else if n == 0x8000_0000_0000_0000 {
                    Some(i64::MIN)
                } else {
                    Some(-(n as i64))
                }
            },
            None => None,
        }
    } else {
        match parse_u64(s) {
            Some(n) => {
                if n > i64::MAX as u64 {
                    None
                } else {
                    Some(n as i64)
                }
            },
            None => None,
        }
    }
}

// ---------------------------------------------------------------------------------------------
// Searching and splitting
// ---------------------------------------------------------------------------------------------
/// The first place from `from` on at which `sep` stands in `s`.
pub open spec fn place_of(s: Seq<char>, sep: Seq<char>, from: int) -> Option<int>
    decreases s.len() - from + 1,
{
    if from < 0 || from + sep.len() > s.len() {
        None
    } else if s.subrange(from, from + sep.len()) == sep {
        Some(from)
    } else {
        place_of(s, sep, from + 1)
    }
}

/// The pieces of `s` between the places at which `sep` stands, from the left, no two overlapping.
pub open spec fn pieces(s: Seq<char>, sep: Seq<char>) -> Seq<Seq<char>>
    decreases s.len(),
{
    match place_of(s, sep, 0) {
        Some(i) if sep.len() > 0 && 0 <= i && i + sep.len() <= s.len() => seq![s.take(i)] + pieces(
            s.skip(i + sep.len()),
            sep,
        ),
        _ => seq![s],
    }
}

/// At most `n` pieces of `s`: the last one is all that is left.
pub open spec fn pieces_up_to(s: Seq<char>, sep: Seq<char>, n: nat) -> Seq<Seq<char>>
    decreases n,
{
    match place_of(s, sep, 0) {
        Some(i) if n > 1 => seq![s.take(i)] + pieces_up_to(
            s.skip(i + sep.len()),
            sep,
            (n - 1) as nat,
        ),
        _ => seq![s],
    }
}

/// The characters before the first white space.
pub open spec fn word_len(s: Seq<char>) -> nat
    decreases s.len(),
{
    if s.len() == 0 || is_space(s[0]) {
        0
    } else {
        1 + word_len(s.skip(1))
    }
}

/// The runs of characters between white space.
pub open spec fn words(s: Seq<char>) -> Seq<Seq<char>>
    decreases s.len(),
{
    if s.len() == 0 {
        Seq::empty()
    } else if is_space(s[0]) {
        words(s.skip(1))
    } else {
        proof {
            lemma_word_len(s);
        }
        seq![s.take(word_len(s) as int)] + words(s.skip(word_len(s) as int))
    }
}

/// Two texts are the same but for the case of ASCII letters.
pub open spec fn same_ignoring_case(a: Seq<char>, b: Seq<char>) -> bool {
    a.len() == b.len() && forall|i: int|
        0 <= i < a.len() ==> ascii_lower(#[trigger] a[i]) == ascii_lower(b[i])
}

/// Some pieces of text, by views.
pub open spec fn pieces_view(s: Seq<Vec<char>>) -> Seq<Seq<char>> {
    Seq::new(s.len(), |i: int| s[i]@)
}

/// A word starts where no white space does.
pub proof fn lemma_word_len(s: Seq<char>)
    ensures
        word_len(s) <= s.len(),
        s.len() > 0 && !is_space(s[0]) ==> word_len(s) > 0,
    decreases s.len(),
{
    if s.len() > 0 && !is_space(s[0]) {
        lemma_word_len(s.skip(1));
    }
}

/// Where `sep` is found, it stands.
pub proof fn lemma_place_of(s: Seq<char>, sep: Seq<char>, from: int)
    requires
        0 <= from,
    ensures
        place_of(s, sep, from) matches Some(i) ==> from <= i && i + sep.len() <= s.len()
            && s.subrange(i, i + sep.len()) == sep,
    decreases s.len() - from + 1,
{
    if from + sep.len() <= s.len() && s.subrange(from, from + sep.len()) != sep {
        lemma_place_of(s, sep, from + 1);
    }
}

/// What stands somewhere is found, there or before.
pub proof fn lemma_found(s: Seq<char>, sep: Seq<char>, at: int)
    requires
        0 <= at,
        at + sep.len() <= s.len(),
        s.subrange(at, at + sep.len()) == sep,
    ensures
        place_of(s, sep, 0) matches Some(i) && i <= at,
{
    lemma_found_from(s, sep, 0, at);
}

proof fn lemma_found_from(s: Seq<char>, sep: Seq<char>, from: int, at: int)
    requires
        0 <= from <= at,
        at + sep.len() <= s.len(),
        s.subrange(at, at + sep.len()) == sep,
    ensures
        place_of(s, sep, from) matches Some(i) && i <= at,
    decreases at - from,
{
    if s.subrange(from, from + sep.len()) != sep {
        lemma_found_from(s, sep, from + 1, at);
    }
}

/// A separator stands at a place of a text.
pub open spec fn occurs_at(s: Seq<char>, sep: Seq<char>, at: int) -> bool {
    0 <= at && at + sep.len() <= s.len() && s.subrange(at, at + sep.len()) == sep
}

/// No separator reaches from the first of two joined texts into what follows it.
pub open spec fn joins(x: Seq<char>, sep: Seq<char>, y: Seq<char>) -> bool {
    forall|at: int|
        at < x.len() && #[trigger] occurs_at(x + sep + y, sep, at) ==> at + sep.len() <= x.len()
}

/// Where `sep` stands and does not stand before, it is found.
pub proof fn lemma_place_is_first(s: Seq<char>, sep: Seq<char>, from: int, at: int)
    requires
        0 <= from <= at,
        occurs_at(s, sep, at),
        forall|i: int| from <= i < at ==> !(#[trigger] occurs_at(s, sep, i)),
    ensures
        place_of(s, sep, from) == Some(at),
    decreases at - from,
{
    assert(occurs_at(s, sep, from) ==> from == at);
    if from < at {
        lemma_place_is_first(s, sep, from + 1, at);
    }
}

/// Where nothing is found before a place, nothing stands there.
proof fn lemma_none_stands(s: Seq<char>, sep: Seq<char>, from: int, at: int)
    requires
        0 <= from <= at,
        match place_of(s, sep, from) {
            Some(i) => at < i,
            None => true,
        },
    ensures
        !occurs_at(s, sep, at),
    decreases at - from,
{
    if occurs_at(s, sep, at) && from < at {
        lemma_none_stands(s, sep, from + 1, at);
    }
}

/// The pieces of two joined texts are the pieces of both.
pub proof fn lemma_joined_pieces(x: Seq<char>, sep: Seq<char>, y: Seq<char>)
    requires
        sep.len() > 0,
        joins(x, sep, y),
    ensures
        pieces(x + sep + y, sep) == pieces(x, sep) + pieces(y, sep),
    decreases x.len(),
{
    let all = x + sep + y;
    match place_of(x, sep, 0) {
        Some(i) => {
            lemma_place_of(x, sep, 0);
            assert(all.subrange(i, i + sep.len()) =~= x.subrange(i, i + sep.len()));
            assert forall|k: int| 0 <= k < i implies !(#[trigger] occurs_at(all, sep, k)) by {
                lemma_none_stands(x, sep, 0, k);
                if occurs_at(all, sep, k) {
                    assert(all.subrange(k, k + sep.len()) =~= x.subrange(k, k + sep.len()));
                }
            }
            lemma_place_is_first(all, sep, 0, i);
            let more = i + sep.len();
            let rest = x.skip(more);
            assert(all.skip(more) =~= rest + sep + y);
            assert forall|at: int|
                at < rest.len() && #[trigger] occurs_at(rest + sep + y, sep, at) implies at
                + sep.len() <= rest.len() by {
                assert((rest + sep + y).subrange(at, at + sep.len()) =~= all.subrange(
                    at + more,
                    at + more + sep.len(),
                ));
                assert(occurs_at(all, sep, at + more));
            }
            lemma_joined_pieces(rest, sep, y);
            assert(all.take(i) =~= x.take(i));
            assert(pieces(x, sep) == seq![x.take(i)] + pieces(rest, sep));
            assert(pieces(all, sep) == seq![x.take(i)] + pieces(rest + sep + y, sep));
            assert(pieces(all, sep) =~= pieces(x, sep) + pieces(y, sep));
        },
        None => {
            let i = x.len() as int;
            assert(all.subrange(i, i + sep.len()) =~= sep);
            assert forall|k: int| 0 <= k < i implies !(#[trigger] occurs_at(all, sep, k)) by {
                lemma_none_stands(x, sep, 0, k);
                if occurs_at(all, sep, k) {
                    assert(all.subrange(k, k + sep.len()) =~= x.subrange(k, k + sep.len()));
                }
            }
            lemma_place_is_first(all, sep, 0, i);
            assert(all.skip(i + sep.len()) =~= y);
            assert(all.take(i) =~= x);
        },
    }
}

/// What stands nowhere in a text stands nowhere in a part of it.
pub proof fn lemma_part_without(s: Seq<char>, a: int, b: int, sep: Seq<char>)
    requires
        0 <= a <= b <= s.len(),
        place_of(s, sep, 0) is None,
    ensures
        place_of(s.subrange(a, b), sep, 0) is None,
{
    let part = s.subrange(a, b);
    lemma_place_of(part, sep, 0);
    if let Some(i) = place_of(part, sep, 0) {
        assert(s.subrange(a + i, a + i + sep.len()) =~= part.subrange(i, i + sep.len()));
        lemma_none_stands(s, sep, 0, a + i);
    }
}

fn copy_chars(s: &[char]) -> (r: Vec<char>)
    ensures
        r@ == s@,
{
    let mut out: Vec<char> = Vec::new();
    out.extend_from_slice(s);
    assert(out@ =~= s@);
    out
}

/// Whether `sep` stands at a place of `s`.
pub fn stands_at(s: &[char], sep: &[char], at: usize) -> (r: bool)
    requires
        at + sep@.len() <= s@.len(),
    ensures
        r == (s@.subrange(at as int, at + sep@.len()) == sep@),
{
    let ghost part = s@.subrange(at as int, at + sep@.len());
    let len: usize = s.len();
    let mut i: usize = 0;
    while i < sep.len()
        invariant
            i <= sep@.len(),
            len == s@.len(),
            at + sep@.len() <= s@.len(),
            part == s@.subrange(at as int, at + sep@.len()),
            forall|j: int| 0 <= j < i ==> part[j] == #[trigger] sep@[j],
        decreases sep@.len() - i,
    {
        assert(part[i as int] == s@[at + i]);
        if s[at + i] != sep[i] {
            return false;
        }
        i = i + 1;
    }
    assert(part =~= sep@);
    true
}

/// The first place at which `sep` stands in `s`.
pub fn find(s: &[char], sep: &[char]) -> (r: Option<usize>)
    ensures
        match r {
            Some(i) => place_of(s@, sep@, 0) == Some(i as int) && i + sep@.len() <= s@.len(),
            None => place_of(s@, sep@, 0) is None,
        },
{
    if sep.len() > s.len() {
        return None;
    }
    let last: usize = s.len() - sep.len();
    let mut i: usize = 0;
    loop
        invariant
            i <= last,
            last + sep@.len() == s@.len(),
            place_of(s@, sep@, 0) == place_of(s@, sep@, i as int),
        decreases last - i,
    {
        if stands_at(s, sep, i) {
            return Some(i);
        }
        if i == last {
            assert(place_of(s@, sep@, i + 1) is None);
            return None;
        }
        i = i + 1;
    }
}

/// Splits text at every place at which `sep` stands.
pub fn split(s: &[char], sep: &[char]) -> (r: Vec<Vec<char>>)
    requires
        sep@.len() > 0,
    ensures
        pieces_view(r@) == pieces(s@, sep@),
        r@.len() > 0,
{
    let mut out: Vec<Vec<char>> = Vec::new();
    let mut from: usize = 0;
    assert(s@.skip(0) =~= s@);
    assert(pieces_view(out@) + pieces(s@, sep@) =~= pieces(s@, sep@));
    loop
        invariant
            sep@.len() > 0,
            from <= s@.len(),
            pieces(s@, sep@) == pieces_view(out@) + pieces(s@.skip(from as int), sep@),
        decreases s@.len() - from,
    {
        let rest = &s[from..s.len()];
        assert(rest@ =~= s@.skip(from as int));
        let ghost held = pieces_view(out@);
        match find(rest, sep) {
            None => {
                out.push(copy_chars(rest));
                assert(pieces_view(out@) =~= held + seq![rest@]);
                return out;
            },
            Some(i) => {
                out.push(copy_chars(&rest[0..i]));
                proof {
                    let tail = rest@.skip(i + sep@.len());
                    assert(rest@.subrange(0, i as int) =~= rest@.take(i as int));
                    assert(pieces_view(out@) =~= held.push(rest@.take(i as int)));
                    assert(tail =~= s@.skip(from + i + sep@.len()));
                    assert(held + (seq![rest@.take(i as int)] + pieces(tail, sep@)) =~= held.push(
                        rest@.take(i as int),
                    ) + pieces(tail, sep@));
                }
                from = from + i + sep.len();
            },
        }
    }
}

/// Splits text into at most `n` pieces.
pub fn split_up_to(s: &[char], sep: &[char], n: usize) -> (r: Vec<Vec<char>>)
    requires
        n > 0,
    ensures
        pieces_view(r@) == pieces_up_to(s@, sep@, n as nat),
        1 <= r@.len() <= n,
{
    let mut out: Vec<Vec<char>> = Vec::new();
    let mut from: usize = 0;
    let mut left: usize = n;
    assert(s@.skip(0) =~= s@);
    assert(pieces_view(out@) + pieces_up_to(s@, sep@, n as nat) =~= pieces_up_to(
        s@,
        sep@,
        n as nat,
    ));
    loop
        invariant
            0 < left <= n,
            out@.len() + left == n,
            from <= s@.len(),
            pieces_up_to(s@, sep@, n as nat) == pieces_view(out@) + pieces_up_to(
                s@.skip(from as int),
                sep@,
                left as nat,
            ),
        decreases left,
    {
        let rest = &s[from..s.len()];
        assert(rest@ =~= s@.skip(from as int));
        let ghost held = pieces_view(out@);
        let found = find(rest, sep);
        if left > 1 {
            if let Some(i) = found {
                out.push(copy_chars(&rest[0..i]));
                proof {
                    let tail = rest@.skip(i + sep@.len());
                    let more = pieces_up_to(tail, sep@, (left - 1) as nat);
                    assert(rest@.subrange(0, i as int) =~= rest@.take(i as int));
                    assert(pieces_view(out@) =~= held.push(rest@.take(i as int)));
                    assert(tail =~= s@.skip(from + i + sep@.len()));
                    assert(held + (seq![rest@.take(i as int)] + more) =~= held.push(
                        rest@.take(i as int),
                    ) + more);
                }
                from = from + i + sep.len();
                left = left - 1;
                continue ;
            }
        }
        out.push(copy_chars(rest));
        assert(pieces_view(out@) =~= held + seq![rest@]);
        return out;
    }
}

/// Splits text at white space.
pub fn split_words(s: &[char]) -> (r: Vec<Vec<char>>)
    ensures
        pieces_view(r@) == words(s@),
{
    let mut out: Vec<Vec<char>> = Vec::new();
    let mut i: usize = 0;
    assert(s@.skip(0) =~= s@);
    assert(pieces_view(out@) + words(s@) =~= words(s@));
    while i < s.len()
        invariant
            i <= s@.len(),
            words(s@) == pieces_view(out@) + words(s@.skip(i as int)),
        decreases s@.len() - i,
    {
        let ghost rest = s@.skip(i as int);
        assert(rest[0] == s@[i as int]);
        if char_is_space(s[i]) {
            assert(rest.skip(1) =~= s@.skip(i + 1));
            i = i + 1;
        } else {
            let start: usize = i;
            proof {
                lemma_word_len(rest);
            }
            while i < s.len() && !char_is_space(s[i])
                invariant
                    start <= i <= s@.len(),
                    rest == s@.skip(start as int),
                    word_len(rest) == i - start + word_len(s@.skip(i as int)),
                decreases s@.len() - i,
            {
                assert(s@.skip(i as int)[0] == s@[i as int]);
                assert(s@.skip(i as int).skip(1) =~= s@.skip(i + 1));
                i = i + 1;
            }
            let ghost held = pieces_view(out@);
            proof {
                if i < s@.len() {
                    assert(s@.skip(i as int)[0] == s@[i as int]);
                }
                assert(word_len(rest) == i - start);
            }
            out.push(copy_chars(&s[start..i]));
            proof {
                let word = rest.take(i - start);
                assert(s@.subrange(start as int, i as int) =~= word);
                assert(pieces_view(out@) =~= held.push(word));
                assert(rest.skip(i - start) =~= s@.skip(i as int));
                assert(held + (seq![word] + words(s@.skip(i as int))) =~= held.push(word) + words(
                    s@.skip(i as int),
                ));
            }
        }
    }
    assert(words(s@.skip(i as int)) =~= Seq::empty());
    out
}

fn lower_char(c: char) -> (r: char)
    ensures
        r == ascii_lower(c),
{
    if 'A' <= c && c <= 'Z' {
        ((c as u8) + 32) as char
    } else {
        c
    }
}

/// Compares two texts but for the case of ASCII letters.
pub fn eq_ignore_case(a: &[char], b: &[char]) -> (r: bool)
    ensures
        r == same_ignoring_case(a@, b@),
{
    if a.len() != b.len() {
        return false;
    }
    let mut i: usize = 0;
    while i < a.len()
        invariant
            i <= a@.len(),
            a@.len() == b@.len(),
            forall|j: int| 0 <= j < i ==> ascii_lower(#[trigger] a@[j]) == ascii_lower(b@[j]),
        decreases a@.len() - i,
    {
        if lower_char(a[i]) != lower_char(b[i]) {
            assert(ascii_lower(a@[i as int]) != ascii_lower(b@[i as int]));
            return false;
        }
        i = i + 1;
    }
    true
}


// ---------------------------------------------------------------------------------------------
// Order
// ---------------------------------------------------------------------------------------------
/// The first text stands before the second in the order of their characters.
pub open spec fn text_before(a: Seq<char>, b: Seq<char>) -> bool
    decreases a.len(),
{
    if b.len() == 0 {
        false
    } else if a.len() == 0 {
        true
    } else if a[0] != b[0] {
        (a[0] as u32) < (b[0] as u32)
    } else {
        text_before(a.skip(1), b.skip(1))
    }
}

/// Of two texts one stands before the other, unless they are the same; and the order carries on.
pub proof fn lemma_text_before(a: Seq<char>, b: Seq<char>, c: Seq<char>)
    ensures
        a != b ==> (text_before(a, b) <==> !text_before(b, a)),
        !text_before(a, a),
        text_before(a, b) && text_before(b, c) ==> text_before(a, c),
    decreases a.len(),
{
    if a.len() > 0 && b.len() > 0 {
        let c1 = if c.len() > 0 {
            c.skip(1)
        } else {
            c
        };
        lemma_text_before(a.skip(1), b.skip(1), c1);
        vstd::utf8::char_u32_cast(a[0], a[0] as u32);
        vstd::utf8::char_u32_cast(b[0], b[0] as u32);
        lemma_text_before(a.skip(1), a.skip(1), a.skip(1));
        if a[0] == b[0] && a.skip(1) == b.skip(1) {
            assert(a =~= seq![a[0]] + a.skip(1));
            assert(b =~= seq![b[0]] + b.skip(1));
        }
    } else if a.len() > 0 {
        lemma_text_before(a.skip(1), a.skip(1), a.skip(1));
    } else if b.len() == 0 {
        assert(a =~= b);
    }
}

/// Whether one text stands before another.
pub fn is_before(a: &str, b: &str) -> (r: bool)
    ensures
        r == text_before(a@, b@),
{
    let x = chars_of(a);
    let y = chars_of(b);
    let mut i: usize = 0;
    assert(x@.skip(0) =~= x@);
    assert(y@.skip(0) =~= y@);
    while i < x.len() && i < y.len()
        invariant
            i <= x@.len(),
            i <= y@.len(),
            x@ == a@,
            y@ == b@,
            text_before(x@, y@) == text_before(x@.skip(i as int), y@.skip(i as int)),
        decreases x@.len() - i,
    {
        proof {
            assert(x@.skip(i as int)[0] == x@[i as int]);
            assert(y@.skip(i as int)[0] == y@[i as int]);
            assert(x@.skip(i as int).skip(1) =~= x@.skip(i + 1));
            assert(y@.skip(i as int).skip(1) =~= y@.skip(i + 1));
        }
        if x[i] != y[i] {
            return (x[i] as u32) < (y[i] as u32);
        }
        i = i + 1;
    }
    i < y.len()
}

// ---------------------------------------------------------------------------------------------
// Laws
// ---------------------------------------------------------------------------------------------
/// In capitals, the letters `a` to `z` of ASCII text are 32 places before where they are, in lower case
/// `A` to `Z` 32 places after, and nothing else changes.
pub proof fn law_case_moves_letters_alone(s: Seq<char>, i: int)
    requires
        is_ascii_chars(s),
        0 <= i < s.len(),
    ensures
        upper_text(s).len() == s.len(),
        lower_text(s).len() == s.len(),
        97 <= s[i] as u32 <= 122 ==> upper_text(s)[i] as u32 == s[i] as u32 - 32,
        !(97 <= s[i] as u32 <= 122) ==> upper_text(s)[i] == s[i],
        65 <= s[i] as u32 <= 90 ==> lower_text(s)[i] as u32 == s[i] as u32 + 32,
        !(65 <= s[i] as u32 <= 90) ==> lower_text(s)[i] == s[i],
{
}

/// ASCII texts that differ in case alone have the same lower case, and so name the same table.
pub proof fn law_names_ignore_case(a: Seq<char>, b: Seq<char>)
    requires
        is_ascii_chars(a),
        is_ascii_chars(b),
    ensures
        same_ignoring_case(a, b) <==> lower_text(a) == lower_text(b),
        lower_text(lower_text(a)) == lower_text(a),
        lower_text(upper_text(a)) == lower_text(a),
{
    if same_ignoring_case(a, b) {
        assert(lower_text(a) =~= lower_text(b));
    }
    if lower_text(a) == lower_text(b) {
        assert(a.len() == lower_text(a).len() && b.len() == lower_text(b).len());
        assert forall|i: int| 0 <= i < a.len() implies ascii_lower(#[trigger] a[i]) == ascii_lower(
            b[i],
        ) by {
            assert(lower_text(a)[i] == ascii_lower(a[i]));
            assert(lower_text(b)[i] == ascii_lower(b[i]));
        }
    }
    let l = lower_text(a);
    let u = upper_text(a);
    assert forall|i: int| 0 <= i < a.len() implies l[i] <= '\u{7f}' && u[i] <= '\u{7f}' && ascii_lower(
        l[i],
    ) == ascii_lower(#[trigger] a[i]) && ascii_lower(u[i]) == ascii_lower(a[i]) by {}
    assert(is_ascii_chars(l)) by {
        assert forall|i| 0 <= i < l.len() implies '\0' <= #[trigger] l[i] <= '\u{7f}' by {
            assert(a[i] <= '\u{7f}');
        }
    }
    assert(is_ascii_chars(u)) by {
        assert forall|i| 0 <= i < u.len() implies '\0' <= #[trigger] u[i] <= '\u{7f}' by {
            assert(a[i] <= '\u{7f}');
        }
    }
    assert(lower_text(l) =~= l) by {
        assert forall|i: int| 0 <= i < l.len() implies lower_text(l)[i] == #[trigger] l[i] by {
            assert(ascii_lower(l[i]) == ascii_lower(a[i]));
        }
    }
    assert(lower_text(u) =~= l) by {
        assert forall|i: int| 0 <= i < l.len() implies lower_text(u)[i] == #[trigger] l[i] by {
            assert(ascii_lower(u[i]) == ascii_lower(a[i]));
        }
    }
}

/// Text is split wherever the separator stands: what stands before the first is the first piece, and the
/// pieces of what follows it are the others.
pub proof fn law_joined_texts_are_the_pieces(x: Seq<char>, c: char, y: Seq<char>)
    requires
        !x.contains(c),
    ensures
        pieces(x + seq![c] + y, seq![c]) == seq![x] + pieces(y, seq![c]),
        pieces(x, seq![c]) == seq![x],
{
    lemma_place_of(x, seq![c], 0);
    if let Some(i) = place_of(x, seq![c], 0) {
        assert(x.subrange(i, i + 1)[0] == x[i]);
        assert(x.contains(x[i]));
    }
    assert forall|at: int| at < x.len() && #[trigger] occurs_at(x + seq![c] + y, seq![c], at) implies at
        + seq![c].len() <= x.len() by {}
    lemma_joined_pieces(x, seq![c], y);
}

/// Blanks, tabs and line ends are white space, and no visible ASCII character is; nor is any character
/// below 128 that is neither.
pub proof fn law_white_space_of_ascii(c: char)
    ensures
        c == ' ' || c == '\t' || c == '\n' || c == '\r' ==> is_space(c),
        33 <= c as u32 <= 127 || c as u32 <= 8 ==> !is_space(c),
{
}

/// Words are parted by white space of any kind and length, and white space around them adds none.
pub proof fn law_words_are_parted_by_white_space(x: Seq<char>, gap: Seq<char>, y: Seq<char>)
    requires
        forall|i: int| 0 <= i < gap.len() ==> is_space(#[trigger] gap[i]),
        x.len() > 0,
        forall|i: int| 0 <= i < x.len() ==> !is_space(#[trigger] x[i]),
    ensures
        words(gap) == Seq::<Seq<char>>::empty(),
        words(gap + y) == words(y),
        gap.len() > 0 ==> words(x + gap + y) == seq![x] + words(y),
        words(x) == seq![x],
{
    lemma_gap(gap, y);
    lemma_gap(gap, Seq::empty());
    assert(gap + Seq::<char>::empty() =~= gap);
    let none = Seq::<char>::empty();
    lemma_word_of(x, none);
    assert(x + none =~= x);
    assert(words(x) =~= seq![x]);
    if gap.len() > 0 {
        lemma_word_of(x, gap + y);
        assert(x + gap + y =~= x + (gap + y));
    }
}

proof fn lemma_gap(gap: Seq<char>, y: Seq<char>)
    requires
        forall|i: int| 0 <= i < gap.len() ==> is_space(#[trigger] gap[i]),
    ensures
        words(gap + y) == words(y),
    decreases gap.len(),
{
    if gap.len() > 0 {
        assert((gap + y)[0] == gap[0]);
        assert((gap + y).skip(1) =~= gap.skip(1) + y);
        assert forall|i: int| 0 <= i < gap.skip(1).len() implies is_space(#[trigger] gap.skip(1)[i]) by {
            assert(gap[i + 1] == gap.skip(1)[i]);
        }
        lemma_gap(gap.skip(1), y);
    } else {
        assert(gap + y =~= y);
    }
}

proof fn lemma_word_of(x: Seq<char>, rest: Seq<char>)
    requires
        x.len() > 0,
        forall|i: int| 0 <= i < x.len() ==> !is_space(#[trigger] x[i]),
        rest.len() > 0 ==> is_space(rest[0]),
    ensures
        words(x + rest) == seq![x] + words(rest),
{
    let all = x + rest;
    lemma_word_stops(x, rest);
    assert(all[0] == x[0]);
    assert(all.take(x.len() as int) =~= x);
    assert(all.skip(x.len() as int) =~= rest);
}

/// A word ends where white space begins.
pub proof fn lemma_word_stops(x: Seq<char>, rest: Seq<char>)
    requires
        forall|i: int| 0 <= i < x.len() ==> !is_space(#[trigger] x[i]),
        rest.len() > 0 ==> is_space(rest[0]),
    ensures
        word_len(x + rest) == x.len(),
    decreases x.len(),
{
    if x.len() > 0 {
        assert((x + rest)[0] == x[0]);
        assert((x + rest).skip(1) =~= x.skip(1) + rest);
        assert forall|i: int| 0 <= i < x.skip(1).len() implies !is_space(#[trigger] x.skip(1)[i]) by {
            assert(x[i + 1] == x.skip(1)[i]);
        }
        lemma_word_stops(x.skip(1), rest);
    } else {
        assert(x + rest =~= rest);
    }
}

} // verus!
