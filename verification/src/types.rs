//! Keys, entries and errors.
use bytes::Bytes;
use uuid::Uuid;
use vstd::prelude::*;
use vstd::utf8::*;

use crate::text;
use crate::wire;

verus! {

// ---------------------------------------------------------------------------------------------
// Errors
// ---------------------------------------------------------------------------------------------
/// What can go wrong. I/O and serialisation failures carry the text of the underlying error.
#[derive(Debug, PartialEq, Eq)]
pub enum DbError {
    Io(String),
    Serde(String),
    InvalidUuid(String),
    WalCorruption(String),
    SstableCorruption(String),
    KeyNotFound,
    InvalidCommand(String),
    IndexError(String),
}

/// An error with its text as a sequence of characters.
pub enum ErrorView {
    Io(Seq<char>),
    Serde(Seq<char>),
    InvalidUuid(Seq<char>),
    WalCorruption(Seq<char>),
    SstableCorruption(Seq<char>),
    KeyNotFound,
    InvalidCommand(Seq<char>),
    IndexError(Seq<char>),
}

impl View for DbError {
    type V = ErrorView;

    open spec fn view(&self) -> ErrorView {
        match self {
            DbError::Io(s) => ErrorView::Io(s@),
            DbError::Serde(s) => ErrorView::Serde(s@),
            DbError::InvalidUuid(s) => ErrorView::InvalidUuid(s@),
            DbError::WalCorruption(s) => ErrorView::WalCorruption(s@),
            DbError::SstableCorruption(s) => ErrorView::SstableCorruption(s@),
            DbError::KeyNotFound => ErrorView::KeyNotFound,
            DbError::InvalidCommand(s) => ErrorView::InvalidCommand(s@),
            DbError::IndexError(s) => ErrorView::IndexError(s@),
        }
    }
}

/// The sentence that reports an error.
pub open spec fn error_text(e: ErrorView) -> Seq<char> {
    match e {
        ErrorView::Io(s) => "I/O error: "@ + s,
        ErrorView::Serde(s) => "Serialization/Deserialization error: "@ + s,
        ErrorView::InvalidUuid(s) => "Invalid UUID format: "@ + s,
        ErrorView::WalCorruption(s) => "WAL corruption detected: "@ + s,
        ErrorView::SstableCorruption(s) => "SSTable corruption detected: "@ + s,
        ErrorView::KeyNotFound => "Key not found"@,
        ErrorView::InvalidCommand(s) => "Invalid command: "@ + s,
        ErrorView::IndexError(s) => "Index error: "@ + s,
    }
}

impl DbError {
    /// The sentence that reports this error.
    pub fn to_text(&self) -> (r: String)
        ensures
            r@ == error_text(self@),
    {
        let (head, tail): (&str, &str) = match self {
            DbError::Io(s) => ("I/O error: ", s.as_str()),
            DbError::Serde(s) => ("Serialization/Deserialization error: ", s.as_str()),
            DbError::InvalidUuid(s) => ("Invalid UUID format: ", s.as_str()),
            DbError::WalCorruption(s) => ("WAL corruption detected: ", s.as_str()),
            DbError::SstableCorruption(s) => ("SSTable corruption detected: ", s.as_str()),
            DbError::KeyNotFound => ("Key not found", ""),
            DbError::InvalidCommand(s) => ("Invalid command: ", s.as_str()),
            DbError::IndexError(s) => ("Index error: ", s.as_str()),
        };
        let mut out = head.to_owned();
        text::push_text(&mut out, tail);
        proof {
            reveal_strlit("");
            assert(head@ + ""@ =~= head@);
        }
        out
    }
}

/// The result of an operation that can fail.
pub type Result<T> = core::result::Result<T, DbError>;

/// A result by views.
pub open spec fn result_view<T: View>(r: core::result::Result<T, DbError>) -> core::result::Result<
    T::V,
    ErrorView,
> {
    match r {
        Ok(v) => Ok(v@),
        Err(e) => Err(e@),
    }
}

// ---------------------------------------------------------------------------------------------
// UUIDs of the `uuid` crate
// ---------------------------------------------------------------------------------------------
#[verifier::external_type_specification]
#[verifier::external_body]
pub struct ExUuid(Uuid);

/// The 128 bits of a UUID, as a number.
pub uninterp spec fn uuid_bits(u: Uuid) -> u128;

/// The bits of the version 5 UUID for a name inside a namespace: a digest of the namespace's bits
/// and the name's bytes.
pub uninterp spec fn uuid_v5(namespace: u128, name: Seq<u8>) -> u128;

/// `Uuid::as_u128` gives the UUID's bits.
pub assume_specification [Uuid::as_u128] (u: &Uuid) -> (r: u128)
    ensures
        r == uuid_bits(*u),
;

/// `Uuid::from_u128` makes the UUID with these bits.
pub assume_specification [Uuid::from_u128] (v: u128) -> (r: Uuid)
    ensures
        uuid_bits(r) == v,
;

/// `Uuid::new_v5` is determined by the namespace and the name, and marks the UUID as one of version
/// 5 and of the RFC 4122 variant.
pub assume_specification [Uuid::new_v5] (namespace: &Uuid, name: &[u8]) -> (r: Uuid)
    ensures
        uuid_bits(r) == uuid_v5(uuid_bits(*namespace), name@),
        is_name_based(uuid_bits(r)),
;

/// The bits of a UUID say that it was derived from a name: version 5, RFC 4122 variant.
pub open spec fn is_name_based(bits: u128) -> bool {
    (bits >> 76) & 0xf == 5 && (bits >> 62) & 3 == 2
}

/// Text spells a UUID out: 36 characters, or its 32 digits alone.
pub open spec fn spells_uuid(s: Seq<char>) -> bool {
    let bytes = encode_utf8(text::trimmed(s));
    is_hyphenated(bytes) || bytes.len() == 32 && text::all_hex(bytes)
}

/// The hyphens of a UUID's text stand after 8, 12, 16 and 20 digits.
pub open spec fn hyphen_at(i: int) -> bool {
    i == 8 || i == 13 || i == 18 || i == 23
}

/// 36 bytes: 32 hexadecimal digits in groups of 8, 4, 4, 4 and 12, joined by hyphens.
pub open spec fn is_hyphenated(s: Seq<u8>) -> bool {
    &&& s.len() == 36
    &&& forall|i: int|
        0 <= i < 36 ==> if hyphen_at(i) {
            #[trigger] s[i] == 45
        } else {
            text::hex_digit(s[i]) is Some
        }
}

/// The digits of a hyphenated UUID's text.
pub open spec fn without_hyphens<A>(s: Seq<A>) -> Seq<A> {
    s.subrange(0, 8) + s.subrange(9, 13) + s.subrange(14, 18) + s.subrange(19, 23) + s.subrange(
        24,
        36,
    )
}

/// 32 digits with a hyphen after 8, 12, 16 and 20 of them.
pub open spec fn with_hyphens<A>(s: Seq<A>, hyphen: A) -> Seq<A> {
    s.subrange(0, 8).push(hyphen) + s.subrange(8, 12).push(hyphen) + s.subrange(12, 16).push(hyphen)
        + s.subrange(16, 20).push(hyphen) + s.subrange(20, 32)
}

/// The text of a UUID.
pub open spec fn uuid_text(bits: u128) -> Seq<char> {
    with_hyphens(text::hex_text(bits as nat, 32), '-')
}

/// `Uuid::parse_str` on text of 36 bytes accepts the hyphenated form, with digits of either case,
/// and nothing else; the bits are the number that the digits spell.
#[verifier::external_body]
fn parse_uuid(s: &str) -> (r: Option<Uuid>)
    requires
        encode_utf8(s@).len() == 36,
    ensures
        r is Some <==> is_hyphenated(encode_utf8(s@)),
        r matches Some(u) ==> uuid_bits(u) == text::hex_value(without_hyphens(encode_utf8(s@))),
{
    Uuid::parse_str(s).ok()
}

/// The text of a UUID is its hyphenated form in lower case.
#[verifier::external_body]
fn format_uuid(u: &Uuid) -> (r: String)
    ensures
        r@ == uuid_text(uuid_bits(*u)),
{
    u.to_string()
}

/// The namespace of keys that are not UUIDs themselves (the one for object identifiers).
pub const KEY_NAMESPACE: u128 = 0x6ba7b812_9dad_11d1_80b4_00c04fd430c8;

// ---------------------------------------------------------------------------------------------
// Keys
// ---------------------------------------------------------------------------------------------
/// A player's 16-byte UUID as a number, so that keys compare and index fast.
#[derive(Copy, Clone, Debug, PartialEq, Eq, PartialOrd, Ord, Hash, Default, Structural)]
pub struct PlayerId(pub u128);

/// What a key's text stands for: empty text for nothing, the text of a UUID (36 characters, or its
/// 32 digits alone) for that UUID, any other text for the UUID of that name.
pub open spec fn key_of_text(s: Seq<char>) -> core::result::Result<u128, ErrorView> {
    let bytes = encode_utf8(text::trimmed(s));
    if bytes.len() == 0 {
        Err(ErrorView::InvalidUuid("Empty key provided"@))
    } else if is_hyphenated(bytes) {
        Ok(text::hex_value(without_hyphens(bytes)) as u128)
    } else if bytes.len() == 32 && text::all_hex(bytes) {
        Ok(text::hex_value(bytes) as u128)
    } else {
        Ok(uuid_v5(KEY_NAMESPACE, bytes))
    }
}

/// The key for text: as `key_of_text`, and empty text by its name too.
pub open spec fn key_of_any_text(s: Seq<char>) -> u128 {
    match key_of_text(s) {
        Ok(k) => k,
        Err(_) => uuid_v5(KEY_NAMESPACE, encode_utf8(s)),
    }
}

impl PlayerId {
    pub fn new(val: u128) -> (r: Self)
        ensures
            r.0 == val,
    {
        PlayerId(val)
    }

    /// The key whose bytes, most significant first, are these.
    pub fn from_bytes(bytes: [u8; 16]) -> (r: Self)
        ensures
            r.0 == wire::be_value(bytes@),
    {
        let mut v: u128 = 0;
        let mut i: usize = 0;
        while i < 16
            invariant
                i <= 16,
                v == wire::be_value(bytes@.take(i as int)),
            decreases 16 - i,
        {
            proof {
                let p = bytes@.take(i as int);
                let q = bytes@.take(i + 1);
                assert(q.drop_last() =~= p);
                assert(q.last() == bytes@[i as int]);
                lemma_value_below(q);
            }
            v = v * 256 + bytes[i] as u128;
            i = i + 1;
        }
        assert(bytes@.take(16) =~= bytes@);
        PlayerId(v)
    }

    /// The key's bytes, most significant first.
    pub fn to_bytes(&self) -> (r: [u8; 16])
        ensures
            r@ == wire::be_bytes(self.0 as nat, 16),
    {
        let mut out: [u8; 16] = [0; 16];
        let mut v: u128 = self.0;
        let mut i: usize = 16;
        let ghost all = wire::be_bytes(self.0 as nat, 16);
        proof {
            wire::lemma_be_bytes_len(self.0 as nat, 16);
            assert(all =~= wire::be_bytes(v as nat, 16) + out@.skip(16));
        }
        while i > 0
            invariant
                i <= 16,
                all.len() == 16,
                all == wire::be_bytes(v as nat, i as nat) + out@.skip(i as int),
            decreases i,
        {
            let ghost before = out@;
            i = i - 1;
            out[i] = (v % 256) as u8;
            proof {
                let head = wire::be_bytes((v / 256) as nat, i as nat);
                wire::lemma_be_bytes_len((v / 256) as nat, i as nat);
                assert(all =~= head.push((v % 256) as u8) + before.skip(i + 1));
                assert(out@.skip(i as int) =~= seq![(v % 256) as u8] + before.skip(i + 1));
                assert(all =~= head + out@.skip(i as int));
            }
            v = v / 256;
        }
        assert(out@.skip(0) =~= out@);
        assert(wire::be_bytes(v as nat, 0) + out@ =~= out@);
        out
    }

    pub fn from_uuid(uuid: Uuid) -> (r: Self)
        ensures
            r.0 == uuid_bits(uuid),
    {
        PlayerId(uuid.as_u128())
    }

    pub fn to_uuid(&self) -> (r: Uuid)
        ensures
            uuid_bits(r) == self.0,
    {
        Uuid::from_u128(self.0)
    }

    /// Reads a key: the text of a UUID stands for that UUID, any other text for a UUID derived
    /// from it.
    pub fn parse(s: &str) -> (r: Result<Self>)
        ensures
            match r {
                Ok(k) => key_of_text(s@) == Ok::<u128, ErrorView>(k.0),
                Err(e) => key_of_text(s@) == Err::<u128, ErrorView>(e@),
            },
            r matches Ok(k) ==> spells_uuid(s@) || is_name_based(k.0),
    {
        let all = text::chars_of(s);
        let chars = text::trim(&all);
        let name = text::string_of(chars);
        let bytes = name.as_str().as_bytes();
        if bytes.len() == 0 {
            return Err(DbError::InvalidUuid("Empty key provided".to_owned()));
        }
        if bytes.len() == 36 && bytes[8] == 45 {
            if let Some(u) = parse_uuid(name.as_str()) {
                return Ok(PlayerId::from_uuid(u));
            }
        } else if bytes.len() == 32 && is_all_hex(bytes) {
            let spelled = hyphenate(bytes);
            if let Some(u) = parse_uuid(spelled.as_str()) {
                return Ok(PlayerId::from_uuid(u));
            }
        }
        let hashed = Uuid::new_v5(&Uuid::from_u128(KEY_NAMESPACE), bytes);
        Ok(PlayerId::from_uuid(hashed))
    }

    /// Reads a key of any text, empty text by its name too.
    pub fn from_key(s: &str) -> (r: Self)
        ensures
            r.0 == key_of_any_text(s@),
            !spells_uuid(s@) ==> is_name_based(r.0),
    {
        match PlayerId::parse(s) {
            Ok(k) => k,
            Err(_) => PlayerId::from_uuid(
                Uuid::new_v5(&Uuid::from_u128(KEY_NAMESPACE), s.as_bytes()),
            ),
        }
    }

    /// The hyphenated text of the key, in lower case.
    pub fn to_text(&self) -> (r: String)
        ensures
            r@ == uuid_text(self.0),
    {
        format_uuid(&self.to_uuid())
    }
}

impl From<Uuid> for PlayerId {
    fn from(uuid: Uuid) -> (r: Self) {
        PlayerId::from_uuid(uuid)
    }
}

impl vstd::std_specs::convert::FromSpecImpl<Uuid> for PlayerId {
    open spec fn obeys_from_spec() -> bool {
        true
    }

    open spec fn from_spec(uuid: Uuid) -> Self {
        PlayerId(uuid_bits(uuid))
    }
}

impl From<u128> for PlayerId {
    fn from(val: u128) -> (r: Self) {
        PlayerId(val)
    }
}

impl vstd::std_specs::convert::FromSpecImpl<u128> for PlayerId {
    open spec fn obeys_from_spec() -> bool {
        true
    }

    open spec fn from_spec(val: u128) -> Self {
        PlayerId(val)
    }
}

impl std::str::FromStr for PlayerId {
    type Err = DbError;

    fn from_str(s: &str) -> (r: core::result::Result<Self, DbError>)
        ensures
            match r {
                Ok(k) => key_of_text(s@) == Ok::<u128, ErrorView>(k.0),
                Err(e) => key_of_text(s@) == Err::<u128, ErrorView>(e@),
            },
    {
        PlayerId::parse(s)
    }
}

fn is_all_hex(s: &[u8]) -> (r: bool)
    ensures
        r == text::all_hex(s@),
{
    let mut i: usize = 0;
    while i < s.len()
        invariant
            i <= s@.len(),
            forall|j: int| 0 <= j < i ==> text::hex_digit(#[trigger] s@[j]) is Some,
        decreases s@.len() - i,
    {
        let b = s[i];
        if !((48 <= b && b <= 57) || (97 <= b && b <= 102) || (65 <= b && b <= 70)) {
            assert(text::hex_digit(s@[i as int]) is None);
            return false;
        }
        i = i + 1;
    }
    true
}

/// Spells 32 hexadecimal digits as a UUID's text.
fn hyphenate(digits: &[u8]) -> (r: String)
    requires
        digits@.len() == 32,
        text::all_hex(digits@),
    ensures
        is_hyphenated(encode_utf8(r@)),
        without_hyphens(encode_utf8(r@)) == digits@,
{
    let mut out = String::new();
    let mut i: usize = 0;
    while i < 32
        invariant
            i <= 32,
            digits@.len() == 32,
            text::all_hex(digits@),
            out@.len() == i + hyphens_before(i as int),
            is_ascii_chars(out@),
            forall|j: int|
                0 <= j < out@.len() ==> #[trigger] out@[j] as u8 == with_hyphens(digits@, 45u8)[j],
        decreases 32 - i,
    {
        if i == 8 || i == 12 || i == 16 || i == 20 {
            out.push('-');
        }
        assert(text::hex_digit(digits@[i as int]) is Some);
        out.push(digits[i] as char);
        i = i + 1;
    }
    proof {
        is_ascii_chars_encode_utf8(out@);
        let spelled = with_hyphens(digits@, 45u8);
        assert(encode_utf8(out@) =~= spelled);
        lemma_with_hyphens(digits@);
    }
    out
}

/// The hyphens that stand before digit `i` of a UUID's text.
spec fn hyphens_before(i: int) -> int {
    if i <= 8 {
        0
    } else if i <= 12 {
        1
    } else if i <= 16 {
        2
    } else if i <= 20 {
        3
    } else {
        4
    }
}

proof fn lemma_with_hyphens(digits: Seq<u8>)
    requires
        digits.len() == 32,
        text::all_hex(digits),
    ensures
        is_hyphenated(with_hyphens(digits, 45u8)),
        without_hyphens(with_hyphens(digits, 45u8)) == digits,
{
    let s = with_hyphens(digits, 45u8);
    assert forall|i: int| 0 <= i < 36 implies if hyphen_at(i) {
        #[trigger] s[i] == 45
    } else {
        text::hex_digit(s[i]) is Some
    } by {
        if !hyphen_at(i) {
            let k = if i < 8 {
                i
            } else if i < 13 {
                i - 1
            } else if i < 18 {
                i - 2
            } else if i < 23 {
                i - 3
            } else {
                i - 4
            };
            assert(s[i] == digits[k]);
        }
    }
    assert(without_hyphens(s) =~= digits);
}

proof fn lemma_hex_text(x: nat, n: nat)
    ensures
        text::hex_text(x, n).len() == n,
        is_ascii_chars(text::hex_text(x, n)),
        forall|i: int|
            0 <= i < n ==> text::hex_digit(#[trigger] text::hex_text(x, n)[i] as u8) is Some
                && !text::is_space(text::hex_text(x, n)[i]),
    decreases n,
{
    if n > 0 {
        lemma_hex_text(x / 16, (n - 1) as nat);
    }
}

/// `16^n`.
spec fn hex_pow(n: nat) -> nat
    decreases n,
{
    if n == 0 {
        1
    } else {
        16 * hex_pow((n - 1) as nat)
    }
}

proof fn lemma_hex_round_trip(x: nat, n: nat)
    requires
        x < hex_pow(n),
    ensures
        text::hex_value(text::hex_text(x, n).map_values(|c: char| c as u8)) == x,
    decreases n,
{
    let f = |c: char| c as u8;
    if n > 0 {
        lemma_hex_round_trip(x / 16, (n - 1) as nat);
        let t = text::hex_text(x, n).map_values(f);
        assert(t.drop_last() =~= text::hex_text(x / 16, (n - 1) as nat).map_values(f));
        assert(t.last() == text::hex_char(x % 16) as u8);
    }
}

/// A key's text reads back as the same key.
pub proof fn law_key_text_round_trip(key: u128)
    ensures
        key_of_text(uuid_text(key)) == Ok::<u128, ErrorView>(key),
{
    let f = |c: char| c as u8;
    let digits = text::hex_text(key as nat, 32);
    let t = uuid_text(key);
    lemma_hex_text(key as nat, 32);
    assert(hex_pow(32) == 0x1_0000_0000_0000_0000_0000_0000_0000_0000) by {
        reveal_with_fuel(hex_pow, 33);
    }
    lemma_hex_round_trip(key as nat, 32);
    assert(is_ascii_chars(t)) by {
        assert forall|i| 0 <= i < t.len() implies '\0' <= #[trigger] t[i] <= '\u{7f}' by {
            assert(t[i] == '-' || exists|k: int| 0 <= k < 32 && t[i] == digits[k]);
        }
    }
    assert(t[0] == digits[0] && t.last() == digits[31]);
    text::lemma_trimmed_id(t);
    is_ascii_chars_encode_utf8(t);
    let bytes = encode_utf8(t);
    let hex = digits.map_values(f);
    assert(bytes =~= with_hyphens(hex, 45u8));
    assert forall|i: int| 0 <= i < hex.len() implies text::hex_digit(#[trigger] hex[i]) is Some by {
        assert(hex[i] == digits[i] as u8);
    }
    lemma_with_hyphens(hex);
}

/// The text of a UUID is 36 characters, none of them white space.
pub proof fn lemma_uuid_word(key: u128)
    ensures
        uuid_text(key).len() == 36,
        forall|i: int| 0 <= i < 36 ==> !text::is_space(#[trigger] uuid_text(key)[i]),
{
    let digits = text::hex_text(key as nat, 32);
    let t = uuid_text(key);
    lemma_hex_text(key as nat, 32);
    assert forall|i: int| 0 <= i < 36 implies !text::is_space(#[trigger] t[i]) by {
        assert(t[i] == '-' || exists|k: int| 0 <= k < 32 && t[i] == digits[k]);
    }
}

proof fn lemma_same_digits(a: Seq<u8>, b: Seq<u8>)
    requires
        a.len() == b.len(),
        forall|i: int| 0 <= i < a.len() ==> text::hex_digit(#[trigger] a[i]) == text::hex_digit(b[i]),
    ensures
        text::hex_value(a) == text::hex_value(b),
    decreases a.len(),
{
    if a.len() > 0 {
        let x = a.drop_last();
        let y = b.drop_last();
        assert forall|i: int| 0 <= i < x.len() implies text::hex_digit(#[trigger] x[i])
            == text::hex_digit(y[i]) by {
            assert(x[i] == a[i]);
        }
        lemma_same_digits(x, y);
        assert(text::hex_digit(a[a.len() - 1]) == text::hex_digit(b[a.len() - 1]));
    }
}

/// The 32 digits of a key, with their hyphens or without them, in either case, stand for the key.
#[verifier::rlimit(40)]
pub proof fn law_key_digits_stand_for_the_key(key: u128, s: Seq<char>)
    ensures
        text::same_ignoring_case(s, text::hex_text(key as nat, 32)) ==> key_of_text(s) == Ok::<
            u128,
            ErrorView,
        >(key),
        text::same_ignoring_case(s, uuid_text(key)) ==> key_of_text(s) == Ok::<u128, ErrorView>(key),
{
    let f = |c: char| c as u8;
    let digits = text::hex_text(key as nat, 32);
    let hex = digits.map_values(f);
    lemma_hex_text(key as nat, 32);
    assert(hex_pow(32) == 0x1_0000_0000_0000_0000_0000_0000_0000_0000) by {
        reveal_with_fuel(hex_pow, 33);
    }
    lemma_hex_round_trip(key as nat, 32);
    if text::same_ignoring_case(s, digits) {
        lemma_case_of_digits(s, digits);
        text::lemma_trimmed_id(s);
        let bytes = encode_utf8(s);
        assert forall|i: int| 0 <= i < 32 implies text::hex_digit(#[trigger] bytes[i])
            == text::hex_digit(hex[i]) by {
            assert(hex[i] == digits[i] as u8);
            assert(bytes[i] == s[i] as u8);
        }
        assert forall|i: int| 0 <= i < bytes.len() implies text::hex_digit(#[trigger] bytes[i]) is Some by {
            assert(text::hex_digit(digits[i] as u8) is Some);
            assert(hex[i] == digits[i] as u8);
        }
        lemma_same_digits(bytes, hex);
    }
    if text::same_ignoring_case(s, uuid_text(key)) {
        let t = uuid_text(key);
        lemma_uuid_word(key);
        assert forall|i: int| 0 <= i < 36 implies (#[trigger] t[i] == '-' <==> hyphen_at(i)) && (
        t[i] == '-' || text::hex_digit(t[i] as u8) is Some) && t[i] <= '\u{7f}' by {
            if !hyphen_at(i) {
                let k = if i < 8 {
                    i
                } else if i < 13 {
                    i - 1
                } else if i < 18 {
                    i - 2
                } else if i < 23 {
                    i - 3
                } else {
                    i - 4
                };
                assert(t[i] == digits[k]);
            }
        }
        lemma_case_of_uuid(s, t);
        text::lemma_trimmed_id(s);
        let bytes = encode_utf8(s);
        let u = with_hyphens(hex, 45u8);
        assert forall|i: int| 0 <= i < hex.len() implies text::hex_digit(#[trigger] hex[i]) is Some by {
            assert(hex[i] == digits[i] as u8);
        }
        lemma_with_hyphens(hex);
        let x = without_hyphens(bytes);
        let y = without_hyphens(u);
        assert forall|i: int| 0 <= i < 36 implies #[trigger] u[i] == t[i] as u8 by {}
        assert forall|i: int| 0 <= i < 32 implies text::hex_digit(#[trigger] x[i])
            == text::hex_digit(y[i]) by {
            let k = if i < 8 {
                i
            } else if i < 12 {
                i + 1
            } else if i < 16 {
                i + 2
            } else if i < 20 {
                i + 3
            } else {
                i + 4
            };
            assert(x[i] == bytes[k]);
            assert(y[i] == u[k]);
            assert(text::hex_digit(s[k] as u8) == text::hex_digit(t[k] as u8));
        }
        lemma_same_digits(x, y);
        assert(is_hyphenated(bytes)) by {
            assert forall|i: int| 0 <= i < 36 implies if hyphen_at(i) {
                #[trigger] bytes[i] == 45
            } else {
                text::hex_digit(bytes[i]) is Some
            } by {
                assert(bytes[i] == s[i] as u8);
                assert(t[i] == '-' <==> hyphen_at(i));
                assert(text::hex_digit(s[i] as u8) == text::hex_digit(t[i] as u8));
            }
        }
    }
}

proof fn lemma_case_of_digits(s: Seq<char>, t: Seq<char>)
    requires
        text::same_ignoring_case(s, t),
        t.len() > 0,
        is_ascii_chars(t),
        forall|i: int| 0 <= i < t.len() ==> text::hex_digit(#[trigger] t[i] as u8) is Some,
    ensures
        is_ascii_chars(s),
        encode_utf8(s).len() == s.len(),
        forall|i: int| 0 <= i < s.len() ==> encode_utf8(s)[i] == (#[trigger] s[i]) as u8,
        forall|i: int|
            0 <= i < s.len() ==> text::hex_digit(#[trigger] s[i] as u8) == text::hex_digit(
                t[i] as u8,
            ),
        !text::is_space(s[0]),
        !text::is_space(s.last()),
{
    assert forall|i: int| 0 <= i < s.len() implies s[i] <= '\u{7f}' && !text::is_space(s[i])
        && text::hex_digit(#[trigger] s[i] as u8) == text::hex_digit(t[i] as u8) by {
        assert(text::ascii_lower(s[i]) == text::ascii_lower(t[i]));
        assert(text::hex_digit(t[i] as u8) is Some);
    }
    assert(!text::is_space(s[s.len() - 1]));
    is_ascii_chars_encode_utf8(s);
}

proof fn lemma_case_of_uuid(s: Seq<char>, t: Seq<char>)
    requires
        text::same_ignoring_case(s, t),
        t.len() == 36,
        forall|i: int|
            0 <= i < 36 ==> (#[trigger] t[i] == '-' <==> hyphen_at(i)) && (t[i] == '-'
                || text::hex_digit(t[i] as u8) is Some) && t[i] <= '\u{7f}',
    ensures
        is_ascii_chars(s),
        encode_utf8(s).len() == 36,
        forall|i: int| 0 <= i < 36 ==> encode_utf8(s)[i] == (#[trigger] s[i]) as u8,
        forall|i: int|
            0 <= i < 36 ==> text::hex_digit(#[trigger] s[i] as u8) == text::hex_digit(t[i] as u8),
        forall|i: int| 0 <= i < 36 && #[trigger] t[i] == '-' ==> s[i] == '-',
        !text::is_space(s[0]),
        !text::is_space(s.last()),
{
    assert forall|i: int| 0 <= i < 36 implies s[i] <= '\u{7f}' && !text::is_space(s[i])
        && text::hex_digit(#[trigger] s[i] as u8) == text::hex_digit(t[i] as u8) && (t[i] == '-'
        ==> s[i] == '-') by {
        assert(text::ascii_lower(s[i]) == text::ascii_lower(t[i]));
        assert(t[i] == '-' || text::hex_digit(t[i] as u8) is Some);
    }
    assert(!text::is_space(s[35]));
    is_ascii_chars_encode_utf8(s);
}

/// Text that is neither the text of a UUID nor 32 digits, white space aside, stands for the UUID of that
/// name in the namespace of object identifiers.
pub proof fn law_other_keys_stand_by_name(s: Seq<char>, i: int)
    requires
        is_ascii_chars(s),
        s.len() > 0,
        !text::is_space(s[0]),
        !text::is_space(s.last()),
        0 <= i < s.len(),
        s.len() != 32 && s.len() != 36 || s[i] != '-' && text::hex_digit(s[i] as u8) is None,
    ensures
        key_of_text(s) == Ok::<u128, ErrorView>(
            uuid_v5(0x6ba7b812_9dad_11d1_80b4_00c04fd430c8, encode_utf8(s)),
        ),
{
    text::lemma_trimmed_id(s);
    is_ascii_chars_encode_utf8(s);
    let bytes = encode_utf8(s);
    assert(bytes[i] == s[i] as u8);
    if is_hyphenated(bytes) {
        assert(if hyphen_at(i) {
            bytes[i] == 45
        } else {
            text::hex_digit(bytes[i]) is Some
        });
    }
}

/// A key's bytes read back as the same key.
pub proof fn law_key_bytes_round_trip(key: u128)
    ensures
        wire::be_value(wire::be_bytes(key as nat, 16)) == key,
{
    wire::lemma_be_ints(0, 0, 0, key);
}

/// Only text that is empty, white space aside, is no key.
pub proof fn law_only_empty_text_is_no_key(s: Seq<char>)
    ensures
        key_of_text(s) is Err <==> text::trimmed(s).len() == 0,
{
    let t = text::trimmed(s);
    if t.len() > 0 {
        encode_utf8_first_scalar(t);
    }
}

/// White space around a key's text does not count.
pub proof fn law_space_around_a_key_is_ignored(s: Seq<char>)
    ensures
        key_of_text(text::trimmed(s)) == key_of_text(s),
{
    text::lemma_trimmed_twice(s);
}

/// The first bytes in which two texts of bytes differ stand in order.
pub open spec fn bytes_before(a: Seq<u8>, b: Seq<u8>) -> bool {
    exists|i: int|
        0 <= i < a.len() && i < b.len() && #[trigger] a[i] < b[i] && forall|j: int|
            0 <= j < i ==> #[trigger] a[j] == b[j]
}

proof fn lemma_bytes_before(a: nat, b: nat, n: nat)
    requires
        a < b,
        wire::be_value(wire::be_bytes(b, n)) == b,
    ensures
        bytes_before(wire::be_bytes(a, n), wire::be_bytes(b, n)),
    decreases n,
{
    if n > 0 {
        let m = (n - 1) as nat;
        let x = wire::be_bytes(a / 256, m);
        let y = wire::be_bytes(b / 256, m);
        let s = wire::be_bytes(a, n);
        let t = wire::be_bytes(b, n);
        wire::lemma_be_bytes_len(a / 256, m);
        wire::lemma_be_bytes_len(b / 256, m);
        assert(t.drop_last() =~= y);
        if a / 256 < b / 256 {
            lemma_bytes_before(a / 256, b / 256, m);
            let i = choose|i: int|
                0 <= i < x.len() && i < y.len() && #[trigger] x[i] < y[i] && forall|j: int|
                    0 <= j < i ==> #[trigger] x[j] == y[j];
            assert(s[i] < t[i]);
            assert forall|j: int| 0 <= j < i implies #[trigger] s[j] == t[j] by {
                assert(x[j] == y[j]);
            }
        } else {
            assert(s[m as int] < t[m as int]);
        }
    }
}

/// The bytes of keys stand in the order of the keys.
pub proof fn law_key_bytes_stand_in_order(a: u128, b: u128)
    ensures
        a < b <==> bytes_before(wire::be_bytes(a as nat, 16), wire::be_bytes(b as nat, 16)),
{
    let s = wire::be_bytes(a as nat, 16);
    let t = wire::be_bytes(b as nat, 16);
    law_key_bytes_round_trip(a);
    law_key_bytes_round_trip(b);
    if a < b {
        lemma_bytes_before(a as nat, b as nat, 16);
    }
    if b < a {
        lemma_bytes_before(b as nat, a as nat, 16);
        let i = choose|i: int|
            0 <= i < t.len() && i < s.len() && #[trigger] t[i] < s[i] && forall|j: int|
                0 <= j < i ==> #[trigger] t[j] == s[j];
        if bytes_before(s, t) {
            let k = choose|k: int|
                0 <= k < s.len() && k < t.len() && #[trigger] s[k] < t[k] && forall|j: int|
                    0 <= j < k ==> #[trigger] s[j] == t[j];
            assert(t[i] < s[i] && s[k] < t[k]);
            assert(k < i ==> t[k] == s[k]);
            assert(i < k ==> s[i] == t[i]);
        }
    }
}

proof fn lemma_value_below(s: Seq<u8>)
    requires
        s.len() <= 16,
    ensures
        wire::be_value(s) <= u128::MAX,
{
    wire::lemma_be_value_bound(s);
    lemma_pow_monotone(s.len(), 16);
    wire::lemma_byte_pows();
}

proof fn lemma_pow_monotone(a: nat, b: nat)
    requires
        a <= b,
    ensures
        wire::byte_pow(a) <= wire::byte_pow(b),
    decreases b,
{
    if a < b {
        lemma_pow_monotone(a, (b - 1) as nat);
    }
}

// ---------------------------------------------------------------------------------------------
// Entries
// ---------------------------------------------------------------------------------------------
/// What a record of the log or of a table does.
#[derive(Debug, Clone, Copy, PartialEq, Eq, Structural)]
pub enum OpType {
    Put,
    Delete,
}

/// What is stored under a key. No value marks a deletion (a tombstone).
#[derive(Debug, PartialEq, Eq)]
pub struct ValueEntry {
    pub value: Option<Bytes>,
    pub seq_num: u64,
    pub timestamp: u64,
}

/// An entry with its value as a sequence of bytes.
pub struct EntryView {
    pub value: Option<Seq<u8>>,
    pub seq_num: u64,
    pub timestamp: u64,
}

/// The bytes of an optional value.
pub open spec fn value_view(v: Option<Bytes>) -> Option<Seq<u8>> {
    match v {
        Some(b) => Some(wire::bytes_view(b)),
        None => None,
    }
}

impl View for ValueEntry {
    type V = EntryView;

    open spec fn view(&self) -> EntryView {
        EntryView {
            value: value_view(self.value),
            seq_num: self.seq_num,
            timestamp: self.timestamp,
        }
    }
}

impl Clone for ValueEntry {
    fn clone(&self) -> (r: Self)
        ensures
            r@ == self@,
    {
        let value = match &self.value {
            Some(b) => Some(b.clone()),
            None => None,
        };
        ValueEntry { value, seq_num: self.seq_num, timestamp: self.timestamp }
    }
}

impl ValueEntry {
    pub fn put(value: Bytes, seq_num: u64, timestamp: u64) -> (r: Self)
        ensures
            r@ == (EntryView { value: Some(wire::bytes_view(value)), seq_num, timestamp }),
    {
        ValueEntry { value: Some(value), seq_num, timestamp }
    }

    pub fn delete(seq_num: u64, timestamp: u64) -> (r: Self)
        ensures
            r@ == (EntryView { value: None, seq_num, timestamp }),
    {
        ValueEntry { value: None, seq_num, timestamp }
    }

    pub fn is_tombstone(&self) -> (r: bool)
        ensures
            r == (self@.value is None),
    {
        self.value.is_none()
    }
}

/// The keys and entries of a list, by views.
pub open spec fn entries_view(s: Seq<(PlayerId, ValueEntry)>) -> Seq<(u128, EntryView)> {
    s.map_values(|e: (PlayerId, ValueEntry)| (e.0.0, e.1@))
}

} // verus!
