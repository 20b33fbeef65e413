//! JSON documents as plain values.
use bytes::Buf;
use serde_json::{Number, Value};
use vstd::prelude::*;

verus! {

/// A number of a document: a natural number, a negative one, or the IEEE 754 bits of a double.
#[derive(Debug, Clone, Copy, PartialEq, Eq, Structural)]
pub enum JsonNumber {
    PosInt(u64),
    NegInt(i64),
    Float(u64),
}

/// A document. Where an object names a field twice, the last one counts.
#[derive(Debug, PartialEq, Eq)]
pub enum JsonValue {
    Null,
    Bool(bool),
    Number(JsonNumber),
    String(String),
    Array(Vec<JsonValue>),
    Object(Vec<(String, JsonValue)>),
}

/// A document, by views.
pub enum JsonView {
    Null,
    Bool(bool),
    Number(JsonNumber),
    String(Seq<char>),
    Array(Seq<JsonView>),
    Object(Map<Seq<char>, JsonView>),
}

/// The view of a document.
pub open spec fn json_view(v: JsonValue) -> JsonView
    decreases v,
{
    match v {
        JsonValue::Null => JsonView::Null,
        JsonValue::Bool(b) => JsonView::Bool(b),
        JsonValue::Number(n) => JsonView::Number(n),
        JsonValue::String(s) => JsonView::String(s@),
        JsonValue::Array(a) => JsonView::Array(items_view(a@)),
        JsonValue::Object(o) => JsonView::Object(fields_view(o@)),
    }
}

/// The views of some documents.
pub open spec fn items_view(s: Seq<JsonValue>) -> Seq<JsonView>
    decreases s,
{
    if s.len() == 0 {
        Seq::empty()
    } else {
        items_view(s.drop_last()).push(json_view(s.last()))
    }
}

/// The fields of an object.
pub open spec fn fields_view(s: Seq<(String, JsonValue)>) -> Map<Seq<char>, JsonView>
    decreases s,
{
    if s.len() == 0 {
        Map::empty()
    } else {
        fields_view(s.drop_last()).insert(s.last().0@, json_view(s.last().1))
    }
}

impl View for JsonValue {
    type V = JsonView;

    open spec fn view(&self) -> JsonView {
        json_view(*self)
    }
}

// ---------------------------------------------------------------------------------------------
// Values of the `serde_json` crate
// ---------------------------------------------------------------------------------------------
#[verifier::external_type_specification]
#[verifier::external_body]
pub struct ExValue(Value);

#[verifier::external_type_specification]
#[verifier::external_body]
pub struct ExNumber(Number);

/// The document that a `Value` holds.
pub uninterp spec fn value_json(v: Value) -> JsonView;

/// The number that a `Number` holds.
pub uninterp spec fn number_json(n: Number) -> JsonNumber;

/// The document that some bytes spell, where they spell one.
pub uninterp spec fn parsed_json(bytes: Seq<u8>) -> Option<JsonView>;

/// The compact text of a document, fields in the order of their keys.
pub uninterp spec fn json_text(v: JsonView) -> Seq<char>;

/// The indented text of a document, fields in the order of their keys.
pub uninterp spec fn json_pretty_text(v: JsonView) -> Seq<char>;

/// The IEEE 754 bits of the double nearest to a whole number.
pub uninterp spec fn float_of_int(n: int) -> u64;

/// The IEEE 754 bits of the double that text spells, where it spells one. Which bits a NaN has is
/// left open.
pub uninterp spec fn double_of_text(s: Seq<char>) -> Option<u64>;

/// The bits that stand for a NaN that was read from text.
pub const NAN_BITS: u64 = 0x7ff8_0000_0000_0000;

/// The IEEE 754 bits of the double that text spells, where it spells one; every NaN is the same.
pub open spec fn float_of_text(s: Seq<char>) -> Option<u64> {
    match double_of_text(s) {
        Some(bits) if is_nan(bits) => Some(NAN_BITS),
        r => r,
    }
}

/// The bits of a double that is neither infinite nor a NaN.
pub open spec fn is_finite(bits: u64) -> bool {
    bits % 0x8000_0000_0000_0000 < 0x7ff0_0000_0000_0000
}

/// One level of a `Value`.
pub enum Parts {
    Null,
    Bool(bool),
    Number(Number),
    Text(String),
    Items(Vec<Value>),
    Fields(Vec<(String, Value)>),
}

/// The documents of some `Value`s.
pub open spec fn values_json(s: Seq<Value>) -> Seq<JsonView> {
    Seq::new(s.len(), |i: int| value_json(s[i]))
}

/// The fields of some `Value`s by name; of a name that occurs twice, the last.
pub open spec fn pairs_json(s: Seq<(String, Value)>) -> Map<Seq<char>, JsonView>
    decreases s.len(),
{
    if s.len() == 0 {
        Map::empty()
    } else {
        pairs_json(s.drop_last()).insert(s.last().0@, value_json(s.last().1))
    }
}

/// No name occurs twice.
pub open spec fn distinct_names(s: Seq<(String, Value)>) -> bool {
    forall|i: int, j: int| 0 <= i < j < s.len() ==> (#[trigger] s[i]).0@ != (#[trigger] s[j]).0@
}

/// The document that one level of a `Value` makes.
pub open spec fn parts_json(p: Parts) -> JsonView {
    match p {
        Parts::Null => JsonView::Null,
        Parts::Bool(b) => JsonView::Bool(b),
        Parts::Number(n) => JsonView::Number(number_json(n)),
        Parts::Text(s) => JsonView::String(s@),
        Parts::Items(a) => JsonView::Array(values_json(a@)),
        Parts::Fields(o) => JsonView::Object(pairs_json(o@)),
    }
}

/// `serde_json::from_slice` into a `Value` is determined by the bytes.
#[verifier::external_body]
fn parse_value(bytes: &[u8]) -> (r: Option<Value>)
    ensures
        r is Some <==> parsed_json(bytes@) is Some,
        r matches Some(v) ==> parsed_json(bytes@) == Some(value_json(v)),
{
    serde_json::from_slice(bytes).ok()
}

/// Tells the variants of a `serde_json::Value` apart. The fields of an object come with each name
/// once.
#[verifier::external_body]
fn open_value(v: Value) -> (r: Parts)
    ensures
        parts_json(r) == value_json(v),
        r matches Parts::Fields(o) ==> distinct_names(o@),
{
    match v {
        Value::Null => Parts::Null,
        Value::Bool(b) => Parts::Bool(b),
        Value::Number(n) => Parts::Number(n),
        Value::String(s) => Parts::Text(s),
        Value::Array(a) => Parts::Items(a),
        Value::Object(o) => Parts::Fields(o.into_iter().collect()),
    }
}

/// Makes a `serde_json::Value` of one level; a field given twice holds what came last.
#[verifier::external_body]
fn close_value(p: Parts) -> (r: Value)
    ensures
        value_json(r) == parts_json(p),
{
    match p {
        Parts::Null => Value::Null,
        Parts::Bool(b) => Value::Bool(b),
        Parts::Number(n) => Value::Number(n),
        Parts::Text(s) => Value::String(s),
        Parts::Items(a) => Value::Array(a),
        Parts::Fields(o) => Value::Object(o.into_iter().collect()),
    }
}

/// `Number::as_u64`, `Number::as_i64` and `Number::as_f64` tell a natural number, a negative whole
/// number and a double apart.
#[verifier::external_body]
fn open_number(n: &Number) -> (r: JsonNumber)
    ensures
        r == number_json(*n),
        r matches JsonNumber::NegInt(i) ==> i < 0,
        r matches JsonNumber::Float(bits) ==> is_finite(bits),
{
    match (n.as_u64(), n.as_i64()) {
        (Some(u), _) => JsonNumber::PosInt(u),
        (None, Some(i)) => JsonNumber::NegInt(i),
        (None, None) => JsonNumber::Float(n.as_f64().map_or(0, |x| x.to_bits())),
    }
}

/// `Number::from` of a natural number holds that number.
#[verifier::external_body]
fn number_of_u64(u: u64) -> (r: Number)
    ensures
        number_json(r) == JsonNumber::PosInt(u),
{
    Number::from(u)
}

/// `Number::from` of a signed number holds that number; one that is not negative is natural.
#[verifier::external_body]
fn number_of_i64(i: i64) -> (r: Number)
    ensures
        number_json(r) == (if i < 0 {
            JsonNumber::NegInt(i)
        } else {
            JsonNumber::PosInt(i as u64)
        }),
{
    Number::from(i)
}

/// `Number::from_f64` holds a double that is finite, and no other; `Buf::get_f64` makes the double
/// of its bits.
#[verifier::external_body]
fn number_of_bits(bits: u64) -> (r: Option<Number>)
    ensures
        r is Some <==> is_finite(bits),
        r matches Some(n) ==> number_json(n) == JsonNumber::Float(bits),
{
    Number::from_f64((&bits.to_be_bytes()[..]).get_f64())
}

/// `Number::as_f64` is the double that the number holds; of a whole number it is determined by that
/// number.
#[verifier::external_body]
fn float_of_number(n: &Number) -> (r: u64)
    ensures
        r == (match number_json(*n) {
            JsonNumber::PosInt(u) => float_of_int(u as int),
            JsonNumber::NegInt(i) => float_of_int(i as int),
            JsonNumber::Float(bits) => bits,
        }),
{
    n.as_f64().map_or(0, |x| x.to_bits())
}

/// How deep arrays and objects may be nested in text that is parsed.
pub const MAX_DEPTH: usize = 127;

/// A document whose numbers are whole, and whose arrays and objects are nested at most so deep.
pub open spec fn whole(v: JsonView, depth: nat) -> bool
    decreases depth,
{
    match v {
        JsonView::Number(JsonNumber::Float(_)) => false,
        JsonView::Number(JsonNumber::NegInt(i)) => i < 0,
        JsonView::Array(s) => depth > 0 && forall|i: int|
            0 <= i < s.len() ==> whole(#[trigger] s[i], (depth - 1) as nat),
        JsonView::Object(m) => depth > 0 && forall|k: Seq<char>| #[trigger]
            m.contains_key(k) ==> whole(m[k], (depth - 1) as nat),
        _ => true,
    }
}

/// `serde_json::to_string` of a `Value` succeeds and is determined by the document. Where its numbers
/// are whole, and it is nested no deeper than `serde_json::from_slice` takes, the text parses back to
/// the document; of other numbers the parser may give a neighbour.
#[verifier::external_body]
fn value_text(v: &Value) -> (r: String)
    ensures
        r@ == json_text(value_json(*v)),
        whole(value_json(*v), MAX_DEPTH as nat) ==> parsed_json(vstd::utf8::encode_utf8(r@)) == Some(
            value_json(*v),
        ),
{
    serde_json::to_string(v).unwrap_or_default()
}

/// `serde_json::to_string_pretty` of a `Value` succeeds and is determined by the document.
#[verifier::external_body]
fn value_pretty_text(v: &Value) -> (r: String)
    ensures
        r@ == json_pretty_text(value_json(*v)),
{
    serde_json::to_string_pretty(v).unwrap_or_default()
}

/// `str::parse` into a double is determined by the text, but for the bits of a NaN;
/// `BufMut::put_f64` takes the bits of the double.
#[verifier::external_body]
fn parse_double(s: &str) -> (r: Option<u64>)
    ensures
        r is Some <==> double_of_text(s@) is Some,
        r matches Some(bits) ==> double_of_text(s@) == Some(bits) || (is_nan(bits) && is_nan(
            double_of_text(s@).unwrap(),
        )),
{
    let mut out = [0u8; 8];
    s.parse().ok().map(|x| {
        bytes::BufMut::put_f64(&mut &mut out[..], x);
        u64::from_be_bytes(out)
    })
}

// ---------------------------------------------------------------------------------------------
// Conversions
// ---------------------------------------------------------------------------------------------
/// A whole number that is negative is held as such, another as a natural number; a double is
/// finite.
pub open spec fn number_ok(n: JsonNumber) -> bool {
    match n {
        JsonNumber::PosInt(_) => true,
        JsonNumber::NegInt(i) => i < 0,
        JsonNumber::Float(bits) => is_finite(bits),
    }
}

/// No name of an object occurs twice.
pub open spec fn distinct_fields(s: Seq<(String, JsonValue)>) -> bool {
    forall|i: int, j: int| 0 <= i < j < s.len() ==> (#[trigger] s[i]).0@ != (#[trigger] s[j]).0@
}

/// A sound document: numbers are held as they should be, and no object names a field twice.
pub open spec fn doc_ok(v: JsonValue) -> bool
    decreases v,
{
    match v {
        JsonValue::Number(n) => number_ok(n),
        JsonValue::Array(a) => forall|i: int| 0 <= i < a@.len() ==> doc_ok(#[trigger] a@[i]),
        JsonValue::Object(o) => distinct_fields(o@) && forall|i: int|
            0 <= i < o@.len() ==> doc_ok((#[trigger] o@[i]).1),
        _ => true,
    }
}

impl JsonNumber {
    /// The bits of the double nearest to the number.
    pub fn to_bits(&self) -> (r: u64)
        ensures
            r == number_bits(*self),
    {
        match *self {
            JsonNumber::PosInt(u) => float_of_number(&number_of_u64(u)),
            JsonNumber::NegInt(i) => float_of_number(&number_of_i64(i)),
            JsonNumber::Float(bits) => bits,
        }
    }
}

/// The bits of the double nearest to a number.
pub open spec fn number_bits(n: JsonNumber) -> u64 {
    match n {
        JsonNumber::PosInt(u) => float_of_int(u as int),
        JsonNumber::NegInt(i) => float_of_int(i as int),
        JsonNumber::Float(bits) => bits,
    }
}

/// Reads a double.
pub fn parse_float(s: &str) -> (r: Option<u64>)
    ensures
        r == float_of_text(s@),
{
    match parse_double(s) {
        Some(bits) => if bits_are_nan(bits) {
            Some(NAN_BITS)
        } else {
            Some(bits)
        },
        None => None,
    }
}

/// The items of a list in reverse order.
fn reversed<T>(v: Vec<T>) -> (r: Vec<T>)
    ensures
        r@ == v@.reverse(),
{
    let mut rest = v;
    let mut out: Vec<T> = Vec::new();
    let ghost all = rest@;
    while rest.len() > 0
        invariant
            rest@ == all.take(rest@.len() as int),
            rest@.len() + out@.len() == all.len(),
            forall|i: int| 0 <= i < out@.len() ==> #[trigger] out@[i] == all[all.len() - 1 - i],
        decreases rest@.len(),
    {
        let ghost held = rest@;
        if let Some(x) = rest.pop() {
            assert(held.drop_last() =~= all.take(rest@.len() as int));
            assert(x == all[rest@.len() as int]);
            out.push(x);
        }
    }
    assert(out@ =~= all.reverse());
    out
}

/// The views of some documents, one by one.
pub proof fn lemma_items_view(s: Seq<JsonValue>)
    ensures
        items_view(s).len() == s.len(),
        forall|i: int| 0 <= i < s.len() ==> #[trigger] items_view(s)[i] == json_view(s[i]),
    decreases s.len(),
{
    if s.len() > 0 {
        lemma_items_view(s.drop_last());
    }
}

proof fn lemma_fields_view(s: Seq<(String, JsonValue)>, given: Seq<(String, Value)>)
    requires
        s.len() == given.len(),
        forall|i: int|
            0 <= i < s.len() ==> (#[trigger] s[i]).0@ == given[i].0@ && json_view(s[i].1)
                == value_json(given[i].1),
    ensures
        fields_view(s) == pairs_json(given),
    decreases s.len(),
{
    if s.len() > 0 {
        let p = s.drop_last();
        let q = given.drop_last();
        assert forall|i: int| 0 <= i < p.len() implies (#[trigger] p[i]).0@ == q[i].0@ && json_view(
            p[i].1,
        ) == value_json(q[i].1) by {
            assert(p[i] == s[i]);
        }
        lemma_fields_view(p, q);
        assert(s[s.len() - 1] == s.last());
    }
}

proof fn lemma_pairs_json(s: Seq<(String, Value)>, i: int)
    requires
        0 <= i < s.len(),
        distinct_names(s),
    ensures
        pairs_json(s).dom().finite(),
        pairs_json(s).contains_key(s[i].0@),
        pairs_json(s)[s[i].0@] == value_json(s[i].1),
    decreases s.len(),
{
    let p = s.drop_last();
    assert forall|a: int, b: int| 0 <= a < b < p.len() implies (#[trigger] p[a]).0@ != (
    #[trigger] p[b]).0@ by {
        assert(p[a] == s[a] && p[b] == s[b]);
    }
    if i < p.len() {
        lemma_pairs_json(p, i);
        assert(s[i].0@ != s[s.len() - 1].0@);
    } else if p.len() > 0 {
        lemma_pairs_json(p, 0);
    } else {
        assert(pairs_json(p) == Map::<Seq<char>, JsonView>::empty());
    }
    assert(pairs_json(s).dom() =~= pairs_json(p).dom().insert(s.last().0@));
}

fn from_value(v: Value) -> (r: JsonValue)
    ensures
        json_view(r) == value_json(v),
        doc_ok(r),
    decreases value_json(v),
{
    match open_value(v) {
        Parts::Null => JsonValue::Null,
        Parts::Bool(b) => JsonValue::Bool(b),
        Parts::Number(n) => JsonValue::Number(open_number(&n)),
        Parts::Text(s) => JsonValue::String(s),
        Parts::Items(a) => {
            let ghost all = values_json(a@);
            assert(value_json(v) == JsonView::Array(all));
            let mut rest = a;
            let mut out: Vec<JsonValue> = Vec::new();
            // Items are taken from the end and put back in order afterwards.
            let ghost n = rest@.len();
            while rest.len() > 0
                invariant
                    all.len() == n,
                    value_json(v) == JsonView::Array(all),
                    rest@.len() + out@.len() == n,
                    forall|i: int| 0 <= i < rest@.len() ==> value_json(#[trigger] rest@[i]) == all[i],
                    forall|i: int|
                        0 <= i < out@.len() ==> json_view(#[trigger] out@[i]) == all[n - 1 - i]
                            && doc_ok(out@[i]),
                decreases rest@.len(),
            {
                let ghost held = rest@;
                if let Some(item) = rest.pop() {
                    assert(item == held[held.len() - 1]);
                    assert(value_json(item) == all[held.len() - 1]);
                    assert(decreases_to!(value_json(v) => value_json(v)->Array_0));
                    assert(decreases_to!(all => all[held.len() - 1]));
                    assert(decreases_to!(value_json(v) => all[held.len() - 1]));
                    out.push(from_value(item));
                }
            }
            let back = reversed(out);
            proof {
                assert forall|i: int| 0 <= i < n implies json_view(#[trigger] back@[i]) == all[i]
                    && doc_ok(back@[i]) by {
                    assert(back@[i] == out@[n - 1 - i]);
                }
                lemma_items_view(back@);
                assert(items_view(back@) =~= all);
            }
            JsonValue::Array(back)
        },
        Parts::Fields(o) => {
            let ghost all = pairs_json(o@);
            assert(value_json(v) == JsonView::Object(all));
            let mut rest = o;
            let mut out: Vec<(String, JsonValue)> = Vec::new();
            let ghost given = rest@;
            let ghost n = rest@.len();
            while rest.len() > 0
                invariant
                    given.len() == n,
                    distinct_names(given),
                    rest@.len() + out@.len() == n,
                    rest@ == given.take(rest@.len() as int),
                    value_json(v) == JsonView::Object(pairs_json(given)),
                    forall|i: int|
                        0 <= i < out@.len() ==> (#[trigger] out@[i]).0@ == given[n - 1 - i].0@
                            && json_view(out@[i].1) == value_json(given[n - 1 - i].1) && doc_ok(
                            out@[i].1,
                        ),
                decreases rest@.len(),
            {
                let ghost held = rest@;
                if let Some(item) = rest.pop() {
                    assert(held.drop_last() =~= given.take(rest@.len() as int));
                    assert(item == given[rest@.len() as int]);
                    proof {
                        let k = rest@.len() as int;
                        lemma_pairs_json(given, k);
                        let m = pairs_json(given);
                        vstd::map::axiom_map_index_decreases_finite(m, given[k].0@);
                        assert(decreases_to!(value_json(v) => value_json(v)->Object_0));
                        assert(decreases_to!(m => m[given[k].0@]));
                        assert(decreases_to!(value_json(v) => value_json(given[k].1)));
                    }
                    let name = item.0;
                    let value = item.1;
                    out.push((name, from_value(value)));
                }
            }
            let back = reversed(out);
            proof {
                assert forall|i: int| 0 <= i < n implies (#[trigger] back@[i]).0@ == given[i].0@
                    && json_view(back@[i].1) == value_json(given[i].1) && doc_ok(back@[i].1) by {
                    assert(back@[i] == out@[n - 1 - i]);
                }
                lemma_fields_view(back@, given);
            }
            JsonValue::Object(back)
        },
    }
}

fn to_value(v: &JsonValue) -> (r: Value)
    requires
        doc_ok(*v),
    ensures
        value_json(r) == json_view(*v),
    decreases v,
{
    match v {
        JsonValue::Null => close_value(Parts::Null),
        JsonValue::Bool(b) => close_value(Parts::Bool(*b)),
        JsonValue::Number(n) => {
            let number = match *n {
                JsonNumber::PosInt(u) => Some(number_of_u64(u)),
                JsonNumber::NegInt(i) => Some(number_of_i64(i)),
                JsonNumber::Float(bits) => number_of_bits(bits),
            };
            match number {
                Some(x) => close_value(Parts::Number(x)),
                None => close_value(Parts::Null),
            }
        },
        JsonValue::String(s) => close_value(Parts::Text(s.clone())),
        JsonValue::Array(a) => {
            let mut out: Vec<Value> = Vec::new();
            let mut i: usize = 0;
            while i < a.len()
                invariant
                    i <= a@.len(),
                    *v == JsonValue::Array(*a),
                    doc_ok(*v),
                    out@.len() == i,
                    forall|j: int| 0 <= j < i ==> value_json(#[trigger] out@[j]) == json_view(a@[j]),
                decreases a@.len() - i,
            {
                assert(doc_ok(v->Array_0@[i as int])) by {
                    reveal_with_fuel(doc_ok, 2);
                }
                assert(decreases_to!(*v => v->Array_0));
                assert(decreases_to!(a@ => a@[i as int]));
                out.push(to_value(&a[i]));
                i = i + 1;
            }
            proof {
                lemma_items_view(a@);
                assert(values_json(out@) =~= items_view(a@));
            }
            close_value(Parts::Items(out))
        },
        JsonValue::Object(o) => {
            let mut out: Vec<(String, Value)> = Vec::new();
            let mut i: usize = 0;
            while i < o.len()
                invariant
                    i <= o@.len(),
                    *v == JsonValue::Object(*o),
                    doc_ok(*v),
                    out@.len() == i,
                    forall|j: int|
                        0 <= j < i ==> (#[trigger] out@[j]).0@ == o@[j].0@ && value_json(out@[j].1)
                            == json_view(o@[j].1),
                decreases o@.len() - i,
            {
                assert(doc_ok(o@[i as int].1));
                assert(decreases_to!(*v => v->Object_0));
                assert(decreases_to!(o@ => o@[i as int]));
                assert(decreases_to!(o@[i as int] => o@[i as int].1));
                out.push((o[i].0.clone(), to_value(&o[i].1)));
                i = i + 1;
            }
            proof {
                lemma_fields_view(o@, out@);
            }
            close_value(Parts::Fields(out))
        },
    }
}

impl JsonValue {
    /// Reads a document.
    pub fn parse(bytes: &[u8]) -> (r: Option<JsonValue>)
        ensures
            r matches Some(v) ==> doc_ok(v) && parsed_json(bytes@) == Some(v@),
            r is None ==> parsed_json(bytes@) is None,
    {
        match parse_value(bytes) {
            Some(v) => Some(from_value(v)),
            None => None,
        }
    }

    /// The compact text of the document.
    pub fn to_text(&self) -> (r: String)
        requires
            doc_ok(*self),
        ensures
            r@ == json_text(self@),
            whole(self@, MAX_DEPTH as nat) ==> parsed_json(vstd::utf8::encode_utf8(r@)) == Some(
                self@,
            ),
    {
        let v = to_value(self);
        value_text(&v)
    }

    /// The indented text of the document.
    pub fn to_pretty_text(&self) -> (r: String)
        requires
            doc_ok(*self),
        ensures
            r@ == json_pretty_text(self@),
    {
        let v = to_value(self);
        value_pretty_text(&v)
    }

    /// A number from its bits; none but a finite double is one.
    pub fn from_bits(bits: u64) -> (r: JsonValue)
        ensures
            doc_ok(r),
            r@ == float_json(bits),
    {
        if bits % 0x8000_0000_0000_0000 < 0x7ff0_0000_0000_0000 {
            JsonValue::Number(JsonNumber::Float(bits))
        } else {
            JsonValue::Null
        }
    }

    /// A whole number.
    pub fn from_u64(n: u64) -> (r: JsonValue)
        ensures
            doc_ok(r),
            r@ == JsonView::Number(JsonNumber::PosInt(n)),
    {
        JsonValue::Number(JsonNumber::PosInt(n))
    }

    pub fn from_text(s: &str) -> (r: JsonValue)
        ensures
            doc_ok(r),
            r@ == JsonView::String(s@),
    {
        JsonValue::String(s.to_owned())
    }
}

/// The document of a double: a number, or nothing where it is not finite.
pub open spec fn float_json(bits: u64) -> JsonView {
    if is_finite(bits) {
        JsonView::Number(JsonNumber::Float(bits))
    } else {
        JsonView::Null
    }
}

// ---------------------------------------------------------------------------------------------
// The order of doubles
// ---------------------------------------------------------------------------------------------
/// The bits of a NaN.
pub open spec fn is_nan(bits: u64) -> bool {
    bits % 0x8000_0000_0000_0000 > 0x7ff0_0000_0000_0000
}

/// A number that orders doubles as their values do: the magnitude, negative where the sign is.
/// Both zeros give 0.
pub open spec fn float_rank(bits: u64) -> i64 {
    if bits < 0x8000_0000_0000_0000 {
        bits as i64
    } else {
        (0x8000_0000_0000_0000 - bits) as i64
    }
}

/// The first double is below the second; never with a NaN.
pub open spec fn float_less(a: u64, b: u64) -> bool {
    !is_nan(a) && !is_nan(b) && float_rank(a) < float_rank(b)
}

/// The first double is not above the second; never with a NaN.
pub open spec fn float_at_most(a: u64, b: u64) -> bool {
    !is_nan(a) && !is_nan(b) && float_rank(a) <= float_rank(b)
}

pub fn bits_are_nan(bits: u64) -> (r: bool)
    ensures
        r == is_nan(bits),
{
    bits % 0x8000_0000_0000_0000 > 0x7ff0_0000_0000_0000
}

/// The number that orders a double.
pub fn rank_of_bits(bits: u64) -> (r: i64)
    ensures
        r == float_rank(bits),
{
    if bits < 0x8000_0000_0000_0000 {
        bits as i64
    } else {
        -((bits - 0x8000_0000_0000_0000) as i64)
    }
}

pub fn bits_less(a: u64, b: u64) -> (r: bool)
    ensures
        r == float_less(a, b),
{
    !bits_are_nan(a) && !bits_are_nan(b) && rank_of_bits(a) < rank_of_bits(b)
}

pub fn bits_at_most(a: u64, b: u64) -> (r: bool)
    ensures
        r == float_at_most(a, b),
{
    !bits_are_nan(a) && !bits_are_nan(b) && rank_of_bits(a) <= rank_of_bits(b)
}

} // verus!
