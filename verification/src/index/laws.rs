//! What filters, documents and rankings promise.
use vstd::prelude::*;
use vstd::utf8::*;

use crate::index::json;
use crate::index::json::{JsonNumber, JsonView};
use crate::index::query;
use crate::index::query::{ConditionView, LiteralView, Operator};
use crate::index::secondary;
use crate::index::secondary::IndexView;
use crate::text;

verus! {

// ---------------------------------------------------------------------------------------------
// Doubles
// ---------------------------------------------------------------------------------------------
/// Doubles that are numbers are ordered by sign and magnitude: the bits of two doubles without a sign
/// order them, those of two with one order them the other way round, a double with a sign is below one
/// without unless both are zero, and nothing is below or above a NaN.
pub proof fn law_doubles_are_ordered_by_value(x: u64, y: u64)
    ensures
        ({
            let sign = 0x8000_0000_0000_0000u64;
            let infinity = 0x7ff0_0000_0000_0000u64;
            &&& x <= infinity && y <= infinity ==> (json::float_less(x, y) <==> x < y)
            &&& x <= infinity && y <= infinity ==> (json::float_at_most(x, y) <==> x <= y)
            &&& x <= infinity && y <= infinity ==> (json::float_less(
                (sign + x) as u64,
                (sign + y) as u64,
            ) <==> y < x)
            &&& x <= infinity && y <= infinity ==> (json::float_at_most(
                (sign + x) as u64,
                (sign + y) as u64,
            ) <==> y <= x)
            &&& x <= infinity && y <= infinity ==> json::float_at_most((sign + x) as u64, y)
            &&& x <= infinity && y <= infinity ==> (json::float_less((sign + x) as u64, y) <==> x > 0
                || y > 0)
            &&& x <= infinity && y <= infinity ==> !json::float_less(y, (sign + x) as u64)
            &&& infinity < x < sign || infinity < x - sign ==> !json::float_less(x, y)
                && !json::float_less(y, x) && !json::float_at_most(x, y) && !json::float_at_most(y, x)
        }),
{
}

// ---------------------------------------------------------------------------------------------
// What a condition says of a value
// ---------------------------------------------------------------------------------------------
/// A condition of equality with a truth value holds of a truth value exactly where the two are the
/// same, and one of difference exactly where they are not.
pub proof fn law_truth_values_equal_themselves(
    path: Seq<char>,
    a: bool,
    b: bool,
    near: spec_fn(u64, u64) -> Option<bool>,
)
    ensures
        query::holds(
            (ConditionView { path, op: Operator::Eq, value: LiteralView::Bool(a) }),
            Some(JsonView::Bool(b)),
            near,
        ) <==> a == b,
        query::holds(
            (ConditionView { path, op: Operator::Ne, value: LiteralView::Bool(a) }),
            Some(JsonView::Bool(b)),
            near,
        ) <==> a != b,
{
}

/// A condition of equality with a text holds of a text exactly where the two are the same, and one
/// of difference exactly where they are not.
pub proof fn law_texts_equal_themselves(
    path: Seq<char>,
    a: Seq<char>,
    b: Seq<char>,
    near: spec_fn(u64, u64) -> Option<bool>,
)
    ensures
        query::holds(
            (ConditionView { path, op: Operator::Eq, value: LiteralView::String(a) }),
            Some(JsonView::String(b)),
            near,
        ) <==> a == b,
        query::holds(
            (ConditionView { path, op: Operator::Ne, value: LiteralView::String(a) }),
            Some(JsonView::String(b)),
            near,
        ) <==> a != b,
{
}

/// The double that a JSON number stands for.
pub open spec fn is_double_of(bits: u64, n: JsonNumber) -> bool {
    match n {
        JsonNumber::PosInt(k) => bits == json::float_of_int(k as int),
        JsonNumber::NegInt(k) => bits == json::float_of_int(k as int),
        JsonNumber::Float(b) => bits == b,
    }
}

/// A condition of equality with a number holds of a number exactly where the two are near, and one of
/// difference exactly where they are known not to be.
pub proof fn law_numbers_equal_those_near(
    path: Seq<char>,
    a: u64,
    n: JsonNumber,
    b: u64,
    near: spec_fn(u64, u64) -> Option<bool>,
)
    requires
        is_double_of(b, n),
    ensures
        query::holds(
            (ConditionView { path, op: Operator::Eq, value: LiteralView::Number(a) }),
            Some(JsonView::Number(n)),
            near,
        ) <==> near(b, a) == Some(true),
        query::holds(
            (ConditionView { path, op: Operator::Ne, value: LiteralView::Number(a) }),
            Some(JsonView::Number(n)),
            near,
        ) <==> near(b, a) == Some(false),
{
}

/// The literal that spells a value, where one does.
pub open spec fn spelling(v: JsonView) -> Option<LiteralView> {
    match v {
        JsonView::Null => Some(LiteralView::Null),
        JsonView::Bool(b) => Some(LiteralView::Bool(b)),
        JsonView::String(s) => Some(LiteralView::String(s)),
        JsonView::Number(JsonNumber::Float(bits)) => Some(LiteralView::Number(bits)),
        JsonView::Number(JsonNumber::PosInt(k)) => Some(
            LiteralView::Number(json::float_of_int(k as int)),
        ),
        JsonView::Number(JsonNumber::NegInt(k)) => Some(
            LiteralView::Number(json::float_of_int(k as int)),
        ),
        _ => None,
    }
}

/// Every value equals the literal that spells it, a number as long as it is near itself; and what is
/// no number equals no other literal.
pub proof fn law_values_equal_what_spells_them(
    path: Seq<char>,
    v: JsonView,
    value: LiteralView,
    near: spec_fn(u64, u64) -> Option<bool>,
)
    requires
        forall|bits: u64| #![auto] !json::is_nan(bits) ==> near(bits, bits) == Some(true),
    ensures
        spelling(v) == Some(value) && !(value matches LiteralView::Number(bits) && json::is_nan(bits))
            ==> query::holds((ConditionView { path, op: Operator::Eq, value }), Some(v), near)
            && !query::holds((ConditionView { path, op: Operator::Ne, value }), Some(v), near),
        spelling(v) != Some(value) && !(v is Number && value is Number) ==> !query::holds(
            (ConditionView { path, op: Operator::Eq, value }),
            Some(v),
            near,
        ) && query::holds((ConditionView { path, op: Operator::Ne, value }), Some(v), near),
{
}

/// A comparison with a number holds of a number exactly where the value stands to the number as the
/// operator says, and of nothing else.
pub proof fn law_comparisons_follow_the_numbers(
    path: Seq<char>,
    value: LiteralView,
    v: JsonView,
    near: spec_fn(u64, u64) -> Option<bool>,
)
    ensures
        ({
            let of = |op: Operator| query::holds((ConditionView { path, op, value }), Some(v), near);
            match (value, v) {
                (LiteralView::Number(a), JsonView::Number(n)) => forall|b: u64| #[trigger]
                    is_double_of(b, n) ==> {
                        &&& of(Operator::Gt) <==> json::float_less(a, b)
                        &&& of(Operator::Gte) <==> json::float_at_most(a, b)
                        &&& of(Operator::Lt) <==> json::float_less(b, a)
                        &&& of(Operator::Lte) <==> json::float_at_most(b, a)
                    },
                _ => !of(Operator::Gt) && !of(Operator::Gte) && !of(Operator::Lt) && !of(
                    Operator::Lte,
                ),
            }
        }),
{
}

/// A text contains another exactly where the other stands somewhere in it, an array contains a text
/// exactly where the text is one of its items, and nothing else contains anything.
pub proof fn law_contains_means_within(
    path: Seq<char>,
    value: LiteralView,
    v: JsonView,
    near: spec_fn(u64, u64) -> Option<bool>,
)
    ensures
        ({
            let within = query::holds(
                (ConditionView { path, op: Operator::Contains, value }),
                Some(v),
                near,
            );
            match (value, v) {
                (LiteralView::String(s), JsonView::String(t)) => {
                    &&& forall|a: Seq<char>, b: Seq<char>| #[trigger] (a + s + b) == t ==> within
                    &&& within ==> exists|a: Seq<char>, b: Seq<char>| #[trigger] (a + s + b) == t
                },
                (LiteralView::String(s), JsonView::Array(items)) => within <==> items.contains(
                    JsonView::String(s),
                ),
                _ => !within,
            }
        }),
{
    match (value, v) {
        (LiteralView::String(s), JsonView::String(t)) => {
            assert forall|a: Seq<char>, b: Seq<char>| #[trigger] (a + s + b) == t implies query::holds(
                (ConditionView { path, op: Operator::Contains, value }),
                Some(v),
                near,
            ) by {
                assert(t.subrange(a.len() as int, (a.len() + s.len()) as int) =~= s);
                text::lemma_found(t, s, a.len() as int);
            }
            text::lemma_place_of(t, s, 0);
            if let Some(i) = text::place_of(t, s, 0) {
                assert(t =~= t.take(i) + s + t.skip(i + s.len()));
            }
        },
        _ => {},
    }
}

// ---------------------------------------------------------------------------------------------
// What a filter is written as
// ---------------------------------------------------------------------------------------------
/// Text in double quotes, or in single ones, is the text between them.
pub proof fn law_quoted_literals_are_texts(s: Seq<char>)
    ensures
        query::literal_of(seq!['"'] + s + seq!['"']) == LiteralView::String(s),
        query::literal_of(seq!['\''] + s + seq!['\'']) == LiteralView::String(s),
{
    let a = seq!['"'] + s + seq!['"'];
    let b = seq!['\''] + s + seq!['\''];
    text::lemma_trimmed_id(a);
    text::lemma_trimmed_id(b);
    assert(a.subrange(1, a.len() - 1) =~= s);
    assert(b.subrange(1, b.len() - 1) =~= s);
}

/// The words for the truth values and for nothing, in any case, are those; other text is the number
/// that it spells, or else itself.
pub proof fn law_words_and_numbers_are_literals(s: Seq<char>)
    requires
        s.len() > 0,
        !text::is_space(s[0]),
        !text::is_space(s.last()),
        s[0] != '"',
        s[0] != '\'',
    ensures
        text::same_ignoring_case(s, seq!['t', 'r', 'u', 'e']) ==> query::literal_of(s)
            == LiteralView::Bool(true),
        text::same_ignoring_case(s, seq!['f', 'a', 'l', 's', 'e']) ==> query::literal_of(s)
            == LiteralView::Bool(false),
        text::same_ignoring_case(s, seq!['n', 'u', 'l', 'l']) ==> query::literal_of(s)
            == LiteralView::Null,
        !text::same_ignoring_case(s, seq!['t', 'r', 'u', 'e']) && !text::same_ignoring_case(
            s,
            seq!['f', 'a', 'l', 's', 'e'],
        ) && !text::same_ignoring_case(s, seq!['n', 'u', 'l', 'l']) ==> query::literal_of(s) == (
        match json::float_of_text(s) {
            Some(bits) => LiteralView::Number(bits),
            None => LiteralView::String(s),
        }),
{
    reveal_strlit("true");
    reveal_strlit("false");
    reveal_strlit("null");
    text::lemma_trimmed_id(s);
    assert("true"@ =~= seq!['t', 'r', 'u', 'e']);
    assert("false"@ =~= seq!['f', 'a', 'l', 's', 'e']);
    assert("null"@ =~= seq!['n', 'u', 'l', 'l']);
    if text::same_ignoring_case(s, "null"@) {
        assert(text::ascii_lower(s[0]) == 'n');
    }
}

/// A text stands somewhere in another.
pub open spec fn stands_in(s: Seq<char>, t: Seq<char>) -> bool {
    exists|a: Seq<char>, b: Seq<char>| #[trigger] (a + s + b) == t
}

/// A character from which operators are made.
pub open spec fn in_operator(c: char) -> bool {
    c == '<' || c == '>' || c == '=' || c == '!'
}

/// A path as filters name it: some characters, no white space and none of an operator.
pub open spec fn is_path(s: Seq<char>) -> bool {
    s.len() > 0 && forall|i: int|
        0 <= i < s.len() ==> !text::is_space(#[trigger] s[i]) && !in_operator(s[i])
}

/// A value as filters write it: some characters, none of an operator, no white space around them.
pub open spec fn is_operand(s: Seq<char>) -> bool {
    s.len() > 0 && !text::is_space(s[0]) && !text::is_space(s.last()) && forall|i: int|
        0 <= i < s.len() ==> !in_operator(#[trigger] s[i])
}

/// Some blanks.
pub open spec fn is_padding(s: Seq<char>) -> bool {
    forall|i: int| 0 <= i < s.len() ==> #[trigger] s[i] == ' '
}

proof fn lemma_not_in(s: Seq<char>, sep: Seq<char>, k: int)
    requires
        0 <= k < sep.len(),
        forall|i: int| 0 <= i < s.len() ==> #[trigger] s[i] != sep[k],
    ensures
        text::place_of(s, sep, 0) is None,
{
    text::lemma_place_of(s, sep, 0);
    if let Some(i) = text::place_of(s, sep, 0) {
        assert(s.subrange(i, i + sep.len())[k] == s[i + k]);
    }
}

proof fn lemma_not_standing(s: Seq<char>, sep: Seq<char>)
    requires
        !stands_in(sep, s),
    ensures
        text::place_of(s, sep, 0) is None,
{
    text::lemma_place_of(s, sep, 0);
    if let Some(i) = text::place_of(s, sep, 0) {
        assert(s =~= s.take(i) + sep + s.skip(i + sep.len()));
        assert(stands_in(sep, s));
    }
}

/// What the pieces around an operator are.
proof fn lemma_condition_around(
    path: Seq<char>,
    a: Seq<char>,
    sym: (Seq<char>, Operator),
    b: Seq<char>,
    value: Seq<char>,
)
    requires
        is_path(path),
        is_padding(a),
        is_padding(b),
        is_operand(value),
        sym.0.len() > 0,
    ensures
        text::trimmed(path + a + sym.0 + b + value) == path + a + sym.0 + b + value,
        query::condition_at(path + a + sym.0 + b + value, sym, (path.len() + a.len()) as int) == Ok::<
            ConditionView,
            crate::types::ErrorView,
        >(ConditionView { path, op: sym.1, value: query::literal_of(value) }),
{
    let t = path + a + sym.0 + b + value;
    assert(t[0] == path[0]);
    assert(t.last() == value.last());
    text::lemma_trimmed_id(t);
    let at = (path.len() + a.len()) as int;
    assert(t.take(at) =~= Seq::<char>::empty() + path + a);
    text::law_trimming_drops_white_space_around(Seq::empty(), path, a);
    assert(t.skip(at + sym.0.len()) =~= b + value + Seq::<char>::empty());
    text::law_trimming_drops_white_space_around(b, value, Seq::empty());
}

/// A sign made of operator characters is found first where it is written.
proof fn lemma_sign_place(
    path: Seq<char>,
    a: Seq<char>,
    sign: Seq<char>,
    b: Seq<char>,
    value: Seq<char>,
)
    requires
        is_path(path),
        is_padding(a),
        is_padding(b),
        is_operand(value),
        sign.len() > 0,
        in_operator(sign[0]),
    ensures
        text::place_of(path + a + sign + b + value, sign, 0) == Some((path.len() + a.len()) as int),
{
    let t = path + a + sign + b + value;
    let at = (path.len() + a.len()) as int;
    assert(t.subrange(at, at + sign.len()) =~= sign);
    assert forall|i: int| 0 <= i < at implies !(#[trigger] text::occurs_at(t, sign, i)) by {
        if text::occurs_at(t, sign, i) {
            assert(t.subrange(i, i + sign.len())[0] == t[i]);
            if i < path.len() {
                assert(t[i] == path[i]);
            } else {
                assert(t[i] == a[i - path.len()]);
            }
        }
    }
    text::lemma_place_is_first(t, sign, 0, at);
}

proof fn lemma_signs()
    ensures
        ">="@ == seq!['>', '='],
        "<="@ == seq!['<', '='],
        "!="@ == seq!['!', '='],
        "=="@ == seq!['=', '='],
        "="@ == seq!['='],
        ">"@ == seq!['>'],
        "<"@ == seq!['<'],
{
    reveal_strlit(">=");
    reveal_strlit("<=");
    reveal_strlit("!=");
    reveal_strlit("==");
    reveal_strlit("=");
    reveal_strlit(">");
    reveal_strlit("<");
    assert(">="@ =~= seq!['>', '=']);
    assert("<="@ =~= seq!['<', '=']);
    assert("!="@ =~= seq!['!', '=']);
    assert("=="@ =~= seq!['=', '=']);
    assert("="@ =~= seq!['=']);
    assert(">"@ =~= seq!['>']);
    assert("<"@ =~= seq!['<']);
}

/// The sign of an operator, and the operator that it stands for.
pub open spec fn is_sign(sign: Seq<char>, op: Operator) -> bool {
    match op {
        Operator::Eq => sign == seq!['='] || sign == seq!['=', '='],
        Operator::Ne => sign == seq!['!', '='],
        Operator::Gt => sign == seq!['>'],
        Operator::Gte => sign == seq!['>', '='],
        Operator::Lt => sign == seq!['<'],
        Operator::Lte => sign == seq!['<', '='],
        Operator::Contains => false,
    }
}

/// A path, a sign and a value, with or without blanks around the sign, are the condition that the sign
/// stands for, of that path and with the literal that the value spells.
#[verifier::rlimit(60)]
pub proof fn law_written_conditions_are_read(
    path: Seq<char>,
    a: Seq<char>,
    sign: Seq<char>,
    op: Operator,
    b: Seq<char>,
    value: Seq<char>,
)
    requires
        is_path(path),
        is_padding(a),
        is_padding(b),
        is_operand(value),
        is_sign(sign, op),
    ensures
        query::condition_of(path + a + sign + b + value) == Ok::<
            ConditionView,
            crate::types::ErrorView,
        >(ConditionView { path, op, value: query::literal_of(value) }),
{
    let t = path + a + sign + b + value;
    lemma_signs();
    lemma_condition_around(path, a, (sign, op), b, value);
    lemma_sign_place(path, a, sign, b, value);
    let ops = query::operators();
    reveal_with_fuel(query::condition_from, 10);
    if op == Operator::Gte {
        assert(ops[0] == (sign, op));
    } else if op == Operator::Lte {
        assert(ops[1] == (sign, op));
        lemma_other_sign(path, a, sign, b, value, ops[0].0, 0);
    } else if op == Operator::Ne {
        assert(ops[2] == (sign, op));
        lemma_other_sign(path, a, sign, b, value, ops[0].0, 0);
        lemma_other_sign(path, a, sign, b, value, ops[1].0, 0);
    } else {
        lemma_other_sign(path, a, sign, b, value, ops[0].0, if op == Operator::Gt { 1 } else { 0 });
        lemma_other_sign(path, a, sign, b, value, ops[1].0, if op == Operator::Lt { 1 } else { 0 });
        lemma_other_sign(path, a, sign, b, value, ops[2].0, 0);
        if sign.len() == 2 {
            assert(ops[3] == (sign, op));
        } else {
            lemma_other_sign(path, a, sign, b, value, ops[3].0, 0);
            if op == Operator::Eq {
                assert(ops[4] == (sign, op));
            } else {
                lemma_other_sign(path, a, sign, b, value, ops[4].0, 0);
                if op == Operator::Gt {
                    assert(ops[5] == (sign, op));
                } else {
                    lemma_other_sign(path, a, sign, b, value, ops[5].0, 0);
                    assert(ops[6] == (sign, op));
                }
            }
        }
    }
}

/// No sign is found of which some character is not written, nor one longer than what is written.
proof fn lemma_other_sign(
    path: Seq<char>,
    a: Seq<char>,
    sign: Seq<char>,
    b: Seq<char>,
    value: Seq<char>,
    other: Seq<char>,
    k: int,
)
    requires
        is_path(path),
        is_padding(a),
        is_padding(b),
        is_operand(value),
        0 <= k < other.len(),
        in_operator(other[k]),
        !sign.contains(other[k]) || sign.len() == 1 && other.len() == 2 && in_operator(other[0])
            && in_operator(other[1]),
    ensures
        text::place_of(path + a + sign + b + value, other, 0) is None,
{
    let t = path + a + sign + b + value;
    assert forall|i: int| 0 <= i < t.len() && in_operator(#[trigger] t[i]) implies path.len() + a.len()
        <= i < path.len() + a.len() + sign.len() && sign.contains(t[i]) by {
        if i < path.len() {
            assert(t[i] == path[i]);
        } else if i < path.len() + a.len() {
            assert(t[i] == a[i - path.len()]);
        } else if i < path.len() + a.len() + sign.len() {
            assert(t[i] == sign[i - path.len() - a.len()]);
        } else if i < path.len() + a.len() + sign.len() + b.len() {
            assert(t[i] == b[i - path.len() - a.len() - sign.len()]);
        } else {
            assert(t[i] == value[i - path.len() - a.len() - sign.len() - b.len()]);
        }
    }
    if !sign.contains(other[k]) {
        lemma_not_in(t, other, k);
    } else {
        text::lemma_place_of(t, other, 0);
        if let Some(i) = text::place_of(t, other, 0) {
            assert(t.subrange(i, i + 2)[0] == t[i]);
            assert(t.subrange(i, i + 2)[1] == t[i + 1]);
        }
    }
}

/// A path, the word for containing, in capitals or not, and a value are the condition that the value
/// at the path contains the literal.
#[verifier::rlimit(60)]
pub proof fn law_written_containment_is_read(path: Seq<char>, capitals: bool, value: Seq<char>)
    requires
        is_path(path),
        is_operand(value),
        !capitals ==> !stands_in(" CONTAINS "@, path + " contains "@ + value),
    ensures
        query::condition_of(path + (if capitals { " CONTAINS "@ } else { " contains "@ }) + value)
            == Ok::<ConditionView, crate::types::ErrorView>(
            ConditionView { path, op: Operator::Contains, value: query::literal_of(value) },
        ),
{
    lemma_signs();
    reveal_strlit(" CONTAINS ");
    reveal_strlit(" contains ");
    let none = Seq::<char>::empty();
    let word = if capitals { " CONTAINS "@ } else { " contains "@ };
    let t = path + word + value;
    assert(path + none + word + none + value =~= t);
    lemma_condition_around(path, none, (word, Operator::Contains), none, value);
    let at = path.len() as int;
    assert(t.subrange(at, at + word.len()) =~= word);
    assert forall|i: int| 0 <= i < at implies !(#[trigger] text::occurs_at(t, word, i)) by {
        if text::occurs_at(t, word, i) {
            assert(t.subrange(i, i + word.len())[0] == t[i]);
            assert(t[i] == path[i]);
        }
    }
    text::lemma_place_is_first(t, word, 0, at);
    let ops = query::operators();
    lemma_other_sign(path, none, word, none, value, ops[0].0, 0);
    lemma_other_sign(path, none, word, none, value, ops[1].0, 0);
    lemma_other_sign(path, none, word, none, value, ops[2].0, 0);
    lemma_other_sign(path, none, word, none, value, ops[3].0, 0);
    lemma_other_sign(path, none, word, none, value, ops[4].0, 0);
    lemma_other_sign(path, none, word, none, value, ops[5].0, 0);
    lemma_other_sign(path, none, word, none, value, ops[6].0, 0);
    reveal_with_fuel(query::condition_from, 10);
    if !capitals {
        lemma_not_standing(t, " CONTAINS "@);
    }
}

/// A filter without `AND` and `OR` is its one condition: a document meets it exactly where the
/// condition holds of the value at its path.
pub proof fn law_single_filter_is_its_condition(
    t: Seq<char>,
    c: ConditionView,
    root: JsonView,
    near: spec_fn(u64, u64) -> Option<bool>,
)
    requires
        t.len() > 0,
        !text::is_space(t[0]),
        !text::is_space(t.last()),
        !stands_in(" AND "@, t),
        !stands_in(" OR "@, t),
        query::condition_of(t) == Ok::<ConditionView, crate::types::ErrorView>(c),
    ensures
        query::filter_of(t) matches Ok(e) && (query::meets(e, root, near) <==> query::holds(
            c,
            query::value_at(root, query::path_parts(c.path)),
            near,
        )),
{
    text::lemma_trimmed_id(t);
    lemma_not_standing(t, " AND "@);
    lemma_not_standing(t, " OR "@);
}

// ---------------------------------------------------------------------------------------------
// Paths
// ---------------------------------------------------------------------------------------------
/// A path without a dot names a field of an object, and nothing of anything else.
pub proof fn law_path_names_a_field(root: JsonView, path: Seq<char>)
    requires
        !path.contains('.'),
    ensures
        query::value_at(root, query::path_parts(path)) == (match root {
            JsonView::Object(m) => if m.contains_key(path) {
                Some(m[path])
            } else {
                None
            },
            _ => None,
        }),
{
    reveal_strlit(".");
    assert forall|i: int| 0 <= i < path.len() implies #[trigger] path[i] != "."@[0] by {
        assert(path.contains(path[i]));
    }
    lemma_not_in(path, "."@, 0);
    assert(query::path_parts(path) =~= seq![path]);
    assert(seq![path].skip(1) =~= Seq::<Seq<char>>::empty());
    reveal_with_fuel(query::value_at, 3);
}

/// A dotted path is followed field by field: what it names is what the path behind the first dot names
/// in the field before that dot.
pub proof fn law_dotted_path_goes_field_by_field(root: JsonView, field: Seq<char>, path: Seq<char>)
    requires
        !field.contains('.'),
    ensures
        query::value_at(root, query::path_parts(field + "."@ + path)) == (match root {
            JsonView::Object(m) => if m.contains_key(field) {
                query::value_at(m[field], query::path_parts(path))
            } else {
                None
            },
            _ => None,
        }),
{
    reveal_strlit(".");
    let all = field + "."@ + path;
    assert forall|at: int| at < field.len() && #[trigger] text::occurs_at(all, "."@, at) implies at
        + "."@.len() <= field.len() by {}
    text::lemma_joined_pieces(field, "."@, path);
    assert forall|i: int| 0 <= i < field.len() implies #[trigger] field[i] != "."@[0] by {
        assert(field.contains(field[i]));
    }
    lemma_not_in(field, "."@, 0);
    assert(query::path_parts(all) =~= seq![field] + query::path_parts(path));
    assert(query::path_parts(all).skip(1) =~= query::path_parts(path));
    assert(query::path_parts(all)[0] == field);
}

// ---------------------------------------------------------------------------------------------
// The value of a field that is set
// ---------------------------------------------------------------------------------------------
/// Text that parses as JSON, and is not in single quotes, stands for the document that it is, whatever
/// kind of document; set at a path, that document is found there.
pub proof fn law_json_text_is_the_document(
    raw: Seq<char>,
    v: JsonView,
    root: JsonView,
    path: Seq<char>,
)
    requires
        json::parsed_json(encode_utf8(text::trimmed(raw))) == Some(v),
        !(text::trimmed(raw).len() >= 2 && text::trimmed(raw)[0] == '\'' && text::trimmed(raw).last()
            == '\''),
    ensures
        query::raw_value(raw) == v,
        query::value_at(
            query::with_value(root, query::path_parts(path), query::raw_value(raw)),
            query::path_parts(path),
        ) == Some(v),
{
    query::law_set_value_is_found(root, query::path_parts(path), v);
}

/// Text in single quotes, white space around it or not, stands for the text between the quotes.
pub proof fn law_single_quoted_text_is_text(a: Seq<char>, s: Seq<char>, b: Seq<char>)
    requires
        forall|i: int| 0 <= i < a.len() ==> text::is_space(#[trigger] a[i]),
        forall|i: int| 0 <= i < b.len() ==> text::is_space(#[trigger] b[i]),
    ensures
        query::raw_value(a + (seq!['\''] + s + seq!['\'']) + b) == JsonView::String(s),
{
    let t = seq!['\''] + s + seq!['\''];
    text::law_trimming_drops_white_space_around(a, t, b);
    assert(t.subrange(1, t.len() - 1) =~= s);
}

/// Text that is no JSON stands for the number that it spells, the truth value or the nothing that it
/// names in any case, and else for itself.
pub proof fn law_other_text_is_read_plainly(s: Seq<char>)
    requires
        s.len() > 0,
        !text::is_space(s[0]),
        !text::is_space(s.last()),
        s[0] != '\'',
        json::parsed_json(encode_utf8(s)) is None,
    ensures
        match query::raw_value(s) {
            JsonView::Number(JsonNumber::PosInt(n)) => text::parsed_signed(s) == Some(n as int),
            JsonView::Number(JsonNumber::NegInt(n)) => n < 0 && text::parsed_signed(s) == Some(
                n as int,
            ),
            JsonView::Number(JsonNumber::Float(bits)) => text::parsed_signed(s) is None
                && json::is_finite(bits) && json::float_of_text(s) == Some(bits),
            JsonView::Bool(b) => text::same_ignoring_case(
                s,
                if b {
                    seq!['t', 'r', 'u', 'e']
                } else {
                    seq!['f', 'a', 'l', 's', 'e']
                },
            ),
            JsonView::Null => text::same_ignoring_case(s, seq!['n', 'u', 'l', 'l']),
            JsonView::String(t) => t == s && text::parsed_signed(s) is None && (match json::float_of_text(
                s,
            ) {
                Some(bits) => !json::is_finite(bits),
                None => !text::same_ignoring_case(s, seq!['t', 'r', 'u', 'e'])
                    && !text::same_ignoring_case(s, seq!['f', 'a', 'l', 's', 'e'])
                    && !text::same_ignoring_case(s, seq!['n', 'u', 'l', 'l']),
            }),
            _ => false,
        },
{
    reveal_strlit("true");
    reveal_strlit("false");
    reveal_strlit("null");
    assert("true"@ =~= seq!['t', 'r', 'u', 'e']);
    assert("false"@ =~= seq!['f', 'a', 'l', 's', 'e']);
    assert("null"@ =~= seq!['n', 'u', 'l', 'l']);
    text::lemma_trimmed_id(s);
}

// ---------------------------------------------------------------------------------------------
// Rankings
// ---------------------------------------------------------------------------------------------
/// The ranks around a rank are ranks, the rank itself is one of them, there are `limit` of them or as
/// many as there are ranks, and half of the limit stand before the rank unless the ranks end on one
/// side.
pub proof fn law_ranks_around_a_rank(rank: int, total: int, limit: int)
    requires
        1 <= rank <= total,
        limit > 0,
    ensures
        ({
            let (first, last) = secondary::around(rank, total, limit);
            &&& 1 <= first <= rank <= last <= total
            &&& last - first + 1 == if limit < total { limit } else { total }
            &&& rank - first == limit / 2 || first == 1 || last == total
            &&& rank - first > limit / 2 ==> last == total
            &&& rank - first < limit / 2 ==> first == 1
        }),
{
}

/// The rows of the ranks from `start` to `end` are those of the ranks that there are, one after the
/// other, each with its rank and with the player and the score that stand there.
pub proof fn law_rows_of_ranks(s: Seq<(u128, u64)>, start: int, end: int)
    ensures
        ({
            let rows = secondary::rank_rows(s, start, end);
            let last = if end < s.len() { end } else { s.len() as int };
            &&& rows.len() == if 1 <= start && start <= last { last - start + 1 } else { 0 }
            &&& forall|rank: int|
                #![trigger s[rank - 1]]
                1 <= start <= rank <= last ==> rows[rank - start] == (
                    s[rank - 1].0,
                    s[rank - 1].1,
                    rank as nat,
                )
        }),
{
}

/// A player stands before another exactly where its score is higher, or where the scores are the same
/// and its key is larger; and it stands with the score that it has.
pub proof fn law_higher_scores_stand_first(scores: Map<u128, u64>, player: u128, other: u128)
    requires
        scores.dom().finite(),
        scores.contains_key(player),
        scores.contains_key(other),
        !json::is_nan(scores[player]),
        !json::is_nan(scores[other]),
    ensures
        secondary::place_in(secondary::standings(scores), player) < secondary::place_in(
            secondary::standings(scores),
            other,
        ) <==> json::float_less(scores[other], scores[player]) || !json::float_less(
            scores[player],
            scores[other],
        ) && player > other,
{
    if player != other {
        secondary::law_rank_counts_those_before(scores, other, player);
    }
}

/// The players above a score are the first ones of the standings, as many as are counted.
pub proof fn law_those_above_a_score_stand_first(s: Seq<(u128, u64)>, target: u64, i: int)
    requires
        secondary::in_order(s),
        forall|j: int| 0 <= j < s.len() ==> !json::is_nan((#[trigger] s[j]).1),
        0 <= i < s.len(),
    ensures
        secondary::above_score(s, target) <= s.len(),
        i < secondary::above_score(s, target) <==> json::float_less(target, s[i].1),
    decreases s.len(),
{
    let rest = s.drop_last();
    assert forall|j: int, k: int| 0 <= j < k < rest.len() implies secondary::before(
        #[trigger] rest[j],
        #[trigger] rest[k],
    ) by {
        assert(secondary::before(s[j], s[k]));
    }
    assert forall|j: int| 0 <= j < rest.len() implies !json::is_nan((#[trigger] rest[j]).1) by {
        assert(rest[j] == s[j]);
    }
    if rest.len() > 0 {
        let k = if i < rest.len() { i } else { rest.len() - 1 };
        law_those_above_a_score_stand_first(rest, target, k);
        law_those_above_a_score_stand_first(rest, target, rest.len() - 1);
        assert(rest[rest.len() - 1] == s[s.len() - 2]);
        assert(secondary::before(s[s.len() - 2], s[s.len() - 1]));
        assert(rest[k] == s[k]);
    }
}

/// The rows between two scores are those of the players whose score is not below the first and not
/// above the second, each with its rank, in the order of the ranks.
#[verifier::rlimit(40)]
pub proof fn law_rows_between_scores(s: Seq<(u128, u64)>, min: u64, max: u64, n: int, rank: int)
    requires
        0 <= n <= s.len(),
        forall|j: int| 0 <= j < s.len() ==> !json::is_nan((#[trigger] s[j]).1),
        !json::is_nan(min),
        !json::is_nan(max),
    ensures
        ({
            let rows = secondary::score_rows(s, min, max, n);
            &&& rows.len() <= n
            &&& forall|i: int|
                #![trigger rows[i]]
                0 <= i < rows.len() ==> 1 <= rows[i].2 <= n && (rows[i].0, rows[i].1)
                    == s[rows[i].2 - 1] && json::float_at_most(min, rows[i].1)
                    && json::float_at_most(rows[i].1, max)
            &&& forall|i: int, j: int|
                #![trigger rows[i], rows[j]]
                0 <= i < j < rows.len() ==> rows[i].2 < rows[j].2
            &&& 1 <= rank <= n && json::float_at_most(min, s[rank - 1].1) && json::float_at_most(
                s[rank - 1].1,
                max,
            ) ==> rows.contains((s[rank - 1].0, s[rank - 1].1, rank as nat))
        }),
    decreases n,
{
    if n > 0 {
        law_rows_between_scores(s, min, max, n - 1, rank);
        let head = secondary::score_rows(s, min, max, n - 1);
        let rows = secondary::score_rows(s, min, max, n);
        assert(!json::is_nan(s[n - 1].1));
        let row = (s[n - 1].0, s[n - 1].1, n as nat);
        if rows != head {
            assert(rows == head.push(row));
            assert(rows[head.len() as int] == row);
            assert forall|i: int| 0 <= i < head.len() implies rows[i] == #[trigger] head[i] by {}
            if 1 <= rank <= n - 1 && head.contains((s[rank - 1].0, s[rank - 1].1, rank as nat)) {
                let i = choose|i: int|
                    0 <= i < head.len() && head[i] == (s[rank - 1].0, s[rank - 1].1, rank as nat);
                assert(rows[i] == head[i]);
            }
        }
    }
}

// ---------------------------------------------------------------------------------------------
// Numbers in JSON texts
// ---------------------------------------------------------------------------------------------
/// Some decimal digits, as bytes.
pub open spec fn are_digits(s: Seq<u8>) -> bool {
    s.len() > 0 && forall|i: int| 0 <= i < s.len() ==> 48 <= #[trigger] s[i] <= 57
}

/// A JSON number, as bytes: a minus sign or none, digits, a fraction or none, an exponent or none.
pub open spec fn is_number(s: Seq<u8>) -> bool {
    exists|minus: Seq<u8>, whole: Seq<u8>, fraction: Seq<u8>, exponent: Seq<u8>| #[trigger]
        (minus + whole + fraction + exponent) == s && (minus.len() == 0 || minus == seq![45u8])
            && are_digits(whole) && (fraction.len() == 0 || fraction[0] == 46 && are_digits(
            fraction.skip(1),
        )) && (exponent.len() == 0 || (exponent[0] == 101 || exponent[0] == 69) && (are_digits(
            exponent.skip(1),
        ) || exponent.len() > 1 && (exponent[1] == 43 || exponent[1] == 45) && are_digits(
            exponent.skip(2),
        )))
}

/// Bytes that JSON has between its tokens: blanks, tabs and line ends.
pub open spec fn are_blanks(s: Seq<u8>) -> bool {
    forall|i: int|
        0 <= i < s.len() ==> #[trigger] s[i] == 32 || s[i] == 9 || s[i] == 10 || s[i] == 13
}

/// A name in double quotes.
pub open spec fn quoted(name: Seq<char>) -> Seq<u8> {
    seq![34u8] + encode_utf8(name) + seq![34u8]
}

/// A name in double quotes, a colon, and blanks around the colon.
pub open spec fn field_head(name: Seq<char>, a: Seq<u8>, b: Seq<u8>) -> Seq<u8> {
    quoted(name) + a + seq![58u8] + b
}

/// No name in double quotes starts within the first `n` bytes of a text.
pub open spec fn not_quoted_before(s: Seq<u8>, name: Seq<char>, n: int) -> bool {
    forall|a: Seq<u8>, b: Seq<u8>| #[trigger] (a + quoted(name) + b) == s ==> a.len() >= n
}

proof fn lemma_skips(s: Seq<u8>, a: int, b: int)
    requires
        0 <= a <= b <= s.len(),
        are_blanks(s.subrange(a, b)),
        b < s.len() ==> !secondary::is_blank(s[b]),
    ensures
        secondary::skip_blanks(s, a) == b,
    decreases b - a,
{
    if a < b {
        assert(s.subrange(a, b)[0] == s[a]);
        assert forall|i: int| 0 <= i < s.subrange(a + 1, b).len() implies (#[trigger] s.subrange(
            a + 1,
            b,
        )[i] == 32 || s.subrange(a + 1, b)[i] == 9 || s.subrange(a + 1, b)[i] == 10 || s.subrange(
            a + 1,
            b,
        )[i] == 13) by {
            assert(s.subrange(a, b)[i + 1] == s.subrange(a + 1, b)[i]);
        }
        lemma_skips(s, a + 1, b);
    }
}

proof fn lemma_number_bytes(s: Seq<u8>)
    requires
        is_number(s),
    ensures
        s.len() > 0,
        forall|i: int| 0 <= i < s.len() ==> secondary::in_number(#[trigger] s[i]),
{
    let (minus, whole, fraction, exponent) = choose|
        minus: Seq<u8>,
        whole: Seq<u8>,
        fraction: Seq<u8>,
        exponent: Seq<u8>,
    | #[trigger]
        (minus + whole + fraction + exponent) == s && (minus.len() == 0 || minus == seq![45u8])
            && are_digits(whole) && (fraction.len() == 0 || fraction[0] == 46 && are_digits(
            fraction.skip(1),
        )) && (exponent.len() == 0 || (exponent[0] == 101 || exponent[0] == 69) && (are_digits(
            exponent.skip(1),
        ) || exponent.len() > 1 && (exponent[1] == 43 || exponent[1] == 45) && are_digits(
            exponent.skip(2),
        )));
    let all = minus + whole + fraction + exponent;
    assert forall|i: int| 0 <= i < s.len() implies secondary::in_number(#[trigger] s[i]) by {
        let a = minus.len() as int;
        let b = a + whole.len();
        let c = b + fraction.len();
        if i < a {
            assert(all[i] == minus[i]);
        } else if i < b {
            assert(all[i] == whole[i - a]);
        } else if i < c {
            assert(all[i] == fraction[i - b]);
            if i > b {
                assert(fraction.skip(1)[i - b - 1] == fraction[i - b]);
            }
        } else {
            let k = i - c;
            assert(all[i] == exponent[k]);
            if k >= 1 && are_digits(exponent.skip(1)) {
                assert(exponent.skip(1)[k - 1] == exponent[k]);
            } else if k >= 2 {
                assert(exponent.skip(2)[k - 2] == exponent[k]);
            }
        }
    }
}

proof fn lemma_number_ends(s: Seq<u8>, a: int, b: int)
    requires
        0 <= a <= b <= s.len(),
        forall|i: int| a <= i < b ==> secondary::in_number(#[trigger] s[i]),
        b < s.len() ==> !secondary::in_number(s[b]),
    ensures
        secondary::number_end(s, a) == b,
    decreases b - a,
{
    if a < b {
        lemma_number_ends(s, a + 1, b);
    }
}

/// The value behind the first quoted name and colon is found.
#[verifier::rlimit(40)]
proof fn lemma_field_found(
    s: Seq<u8>,
    name: Seq<char>,
    from: int,
    at: int,
    a: Seq<u8>,
    b: Seq<u8>,
)
    requires
        0 <= from <= at,
        at + field_head(name, a, b).len() < s.len(),
        s.subrange(at, at + field_head(name, a, b).len()) == field_head(name, a, b),
        are_blanks(a),
        are_blanks(b),
        !secondary::is_blank(s[at + field_head(name, a, b).len()]),
        forall|i: int|
            from <= i < at && i + encode_utf8(name).len() + 3 <= s.len()
                ==> !(#[trigger] secondary::name_at(s, encode_utf8(name), i)),
    ensures
        secondary::value_place(s, encode_utf8(name), from) == Some(
            at + field_head(name, a, b).len() as int,
        ),
    decreases at - from,
{
    let n = encode_utf8(name);
    let head = field_head(name, a, b);
    if from < at {
        assert(!secondary::name_at(s, n, from));
        lemma_field_found(s, name, from + 1, at, a, b);
    } else {
        assert forall|i: int| 0 <= i < head.len() implies s[at + i] == #[trigger] head[i] by {
            assert(s.subrange(at, at + head.len())[i] == s[at + i]);
        }
        assert(s[at] == head[0]);
        assert(s.subrange(at + 1, at + 1 + n.len()) =~= n) by {
            assert forall|i: int| 0 <= i < n.len() implies s[at + 1 + i] == #[trigger] n[i] by {
                assert(head[1 + i] == n[i]);
            }
        }
        assert(head[1 + n.len() as int] == 34);
        assert(secondary::name_at(s, n, at));
        let colon = at + n.len() + 2 + a.len();
        assert(head[n.len() + 2 + a.len() as int] == 58);
        assert(s[colon] == 58);
        assert(s.subrange(at + n.len() + 2, colon) =~= a) by {
            assert forall|i: int| 0 <= i < a.len() implies s[at + n.len() + 2 + i]
                == #[trigger] a[i] by {
                assert(head[n.len() + 2 + i] == a[i]);
            }
        }
        lemma_skips(s, at + n.len() + 2, colon);
        let end = at + head.len();
        assert(s.subrange(colon + 1, end) =~= b) by {
            assert forall|i: int| 0 <= i < b.len() implies s[colon + 1 + i] == #[trigger] b[i] by {
                assert(head[n.len() + 3 + a.len() + i] == b[i]);
            }
        }
        lemma_skips(s, colon + 1, end);
    }
}

/// Where a name in quotes does not start, it is not found.
proof fn lemma_no_name(s: Seq<u8>, name: Seq<char>, n: int, i: int)
    requires
        not_quoted_before(s, name, n),
        0 <= i < n,
        i + encode_utf8(name).len() + 3 <= s.len(),
    ensures
        !secondary::name_at(s, encode_utf8(name), i),
{
    let b = encode_utf8(name);
    if secondary::name_at(s, b, i) {
        let end = i + b.len() + 2;
        assert(s =~= s.take(i) + quoted(name) + s.skip(end)) by {
            assert forall|j: int| 0 <= j < b.len() implies s[i + 1 + j] == #[trigger] b[j] by {
                assert(s.subrange(i + 1, i + 1 + b.len())[j] == s[i + 1 + j]);
            }
        }
    }
}

/// The first name in quotes from a place on, and the value behind it.
#[verifier::rlimit(40)]
proof fn lemma_field_place(
    s: Seq<u8>,
    from: int,
    name: Seq<char>,
    head: Seq<u8>,
    a: Seq<u8>,
    b: Seq<u8>,
    rest: Seq<u8>,
)
    requires
        0 <= from <= s.len(),
        s.skip(from) == head + field_head(name, a, b) + rest,
        are_blanks(a),
        are_blanks(b),
        rest.len() > 0,
        !secondary::is_blank(rest[0]),
        not_quoted_before(s.skip(from), name, head.len() as int),
    ensures
        secondary::value_place(s, encode_utf8(name), from) == Some(
            from + head.len() + field_head(name, a, b).len(),
        ),
{
    let fh = field_head(name, a, b);
    let t = s.skip(from);
    let place = from + head.len() as int;
    assert(t.len() == s.len() - from);
    assert(t.len() == head.len() + fh.len() + rest.len());
    assert(t[head.len() + fh.len() as int] == rest[0]);
    assert(s.subrange(place, place + fh.len()) =~= fh) by {
        assert forall|i: int| 0 <= i < fh.len() implies s[place + i] == #[trigger] fh[i] by {
            assert(t[head.len() + i] == fh[i]);
        }
    }
    let n = encode_utf8(name);
    assert forall|i: int| from <= i < place && i + n.len() + 3 <= s.len() implies !(
    #[trigger] secondary::name_at(s, n, i)) by {
        lemma_no_name(t, name, head.len() as int, i - from);
        assert(t.subrange(i - from + 1, i - from + 1 + n.len()) =~= s.subrange(
            i + 1,
            i + 1 + n.len(),
        ));
        assert(t[i - from] == s[i]);
        assert(t[i - from + 1 + n.len()] == s[i + 1 + n.len()]);
    }
    lemma_field_found(s, name, from, place, a, b);
}

/// What may stand behind a number: the end of the text, white space, a comma, or what closes an object
/// or an array.
pub open spec fn ends_a_number(tail: Seq<u8>) -> bool {
    tail.len() > 0 ==> tail[0] == 44 || tail[0] == 125 || tail[0] == 93 || tail[0] == 32 || tail[0]
        == 9 || tail[0] == 10 || tail[0] == 13
}

/// The number that stands at a place is read from there.
proof fn lemma_number_text(s: Seq<u8>, at: int, number: Seq<u8>, tail: Seq<u8>)
    requires
        0 <= at <= s.len(),
        s.skip(at) == number + tail,
        is_number(number),
        ends_a_number(tail),
    ensures
        secondary::number_end(s, at) == at + number.len(),
        number.len() > 0,
        Seq::new(number.len(), |i: int| s[at + i] as char) == Seq::new(
            number.len(),
            |i: int| number[i] as char,
        ),
{
    let t = s.skip(at);
    assert(t.len() == s.len() - at);
    assert(t.len() == number.len() + tail.len());
    lemma_number_bytes(number);
    assert forall|i: int| at <= i < at + number.len() implies s[i] == number[i - at]
        && secondary::in_number(#[trigger] s[i]) by {
        assert(t[i - at] == s[i]);
        assert(secondary::in_number(number[i - at]));
    }
    if tail.len() > 0 {
        assert(t[number.len() as int] == tail[0]);
        assert(s[at + number.len()] == tail[0]);
    }
    lemma_number_ends(s, at, at + number.len());
    assert(Seq::new(number.len(), |i: int| s[at + i] as char) =~= Seq::new(
        number.len(),
        |i: int| number[i] as char,
    ));
}

/// The characters of a number.
pub open spec fn number_chars(number: Seq<u8>) -> Seq<char> {
    Seq::new(number.len(), |i: int| number[i] as char)
}

/// A number of any sign that stands behind a field's name and a colon is the number that is extracted
/// at that field, as long as the name does not stand in quotes before: whatever stands before the
/// name, whatever blanks stand around the colon, and whatever else follows the number.
pub proof fn law_number_at_a_field_is_extracted(
    path: Seq<char>,
    head: Seq<u8>,
    a: Seq<u8>,
    b: Seq<u8>,
    number: Seq<u8>,
    tail: Seq<u8>,
)
    requires
        !path.contains('.'),
        are_blanks(a),
        are_blanks(b),
        is_number(number),
        ends_a_number(tail),
        not_quoted_before(
            head + field_head(path, a, b) + (number + tail),
            path,
            head.len() as int,
        ),
    ensures
        secondary::extracted(path, head + field_head(path, a, b) + (number + tail))
            == json::float_of_text(number_chars(number)),
{
    let s = head + field_head(path, a, b) + (number + tail);
    assert(text::pieces(path, "."@) =~= seq![path]) by {
        reveal_strlit(".");
        assert forall|i: int| 0 <= i < path.len() implies #[trigger] path[i] != "."@[0] by {
            assert(path.contains(path[i]));
        }
        lemma_not_in(path, "."@, 0);
    }
    assert(s.skip(0) =~= s);
    lemma_number_bytes(number);
    assert(secondary::in_number((number + tail)[0]));
    lemma_field_place(s, 0, path, head, a, b, number + tail);
    let at = (head.len() + field_head(path, a, b).len()) as int;
    assert(s.skip(at) =~= number + tail);
    lemma_number_text(s, at, number, tail);
    assert(seq![path].skip(1) =~= Seq::<Seq<char>>::empty());
    reveal_with_fuel(secondary::path_place, 2);
}

/// Of an object with one field, a number of any sign, that number is extracted at the field.
pub proof fn law_single_field_is_extracted(path: Seq<char>, number: Seq<u8>)
    requires
        !path.contains('.'),
        !encode_utf8(path).contains(34),
        is_number(number),
    ensures
        secondary::extracted(path, seq![123u8] + quoted(path) + seq![58u8] + number + seq![125u8])
            == json::float_of_text(number_chars(number)),
{
    let none = Seq::<u8>::empty();
    let open = seq![123u8];
    let tail = seq![125u8];
    let s = open + field_head(path, none, none) + (number + tail);
    assert(s =~= seq![123u8] + quoted(path) + seq![58u8] + number + seq![125u8]);
    assert forall|x: Seq<u8>, y: Seq<u8>| #[trigger] (x + quoted(path) + y) == s implies x.len()
        >= open.len() by {
        if x.len() == 0 {
            assert((x + quoted(path) + y)[0] == 34);
            assert(s[0] == 123);
        }
    }
    law_number_at_a_field_is_extracted(path, open, none, none, number, tail);
}

/// A dotted path is followed name by name: behind the first quoted name and colon the rest of the path
/// is looked for as it is in what follows there.
#[verifier::rlimit(40)]
pub proof fn law_extraction_goes_name_by_name(
    field: Seq<char>,
    path: Seq<char>,
    head: Seq<u8>,
    a: Seq<u8>,
    b: Seq<u8>,
    rest: Seq<u8>,
)
    requires
        !field.contains('.'),
        are_blanks(a),
        are_blanks(b),
        rest.len() > 0,
        rest[0] == 123,
        not_quoted_before(head + field_head(field, a, b) + rest, field, head.len() as int),
    ensures
        secondary::extracted(field + "."@ + path, head + field_head(field, a, b) + rest)
            == secondary::extracted(path, rest),
{
    let s = head + field_head(field, a, b) + rest;
    let all = field + "."@ + path;
    assert(text::pieces(all, "."@) =~= seq![field] + text::pieces(path, "."@)) by {
        reveal_strlit(".");
        assert forall|at: int| at < field.len() && #[trigger] text::occurs_at(all, "."@, at) implies at
            + "."@.len() <= field.len() by {}
        text::lemma_joined_pieces(field, "."@, path);
        assert forall|i: int| 0 <= i < field.len() implies #[trigger] field[i] != "."@[0] by {
            assert(field.contains(field[i]));
        }
        lemma_not_in(field, "."@, 0);
    }
    let names = text::pieces(all, "."@);
    let more = text::pieces(path, "."@);
    assert(names[0] == field);
    assert(names.skip(1) =~= more);
    assert(s.skip(0) =~= s);
    lemma_field_place(s, 0, field, head, a, b, rest);
    let at = (head.len() + field_head(field, a, b).len()) as int;
    assert(s.skip(at) =~= rest);
    lemma_path_shift(s, at, more, 0);
    if let Some(p) = secondary::path_place(rest, more, 0) {
        lemma_path_place(rest, more, 0);
        lemma_number_shift(s, at, p);
        let end = secondary::number_end(rest, p);
        assert(Seq::new((end - p) as nat, |i: int| s[at + p + i] as char) =~= Seq::new(
            (end - p) as nat,
            |i: int| rest[p + i] as char,
        )) by {
            lemma_number_end(rest, p);
        }
    }
}

proof fn lemma_blanks_shift(s: Seq<u8>, at: int, i: int)
    requires
        0 <= at <= s.len(),
        0 <= i,
    ensures
        secondary::skip_blanks(s, at + i) == at + secondary::skip_blanks(s.skip(at), i),
    decreases s.len() - at - i,
{
    if at + i < s.len() && secondary::is_blank(s[at + i]) {
        assert(s.skip(at)[i] == s[at + i]);
        lemma_blanks_shift(s, at, i + 1);
    } else if at + i < s.len() {
        assert(s.skip(at)[i] == s[at + i]);
    }
}

proof fn lemma_value_shift(s: Seq<u8>, at: int, name: Seq<u8>, i: int)
    requires
        0 <= at <= s.len(),
        0 <= i,
    ensures
        secondary::value_place(s, name, at + i) == (match secondary::value_place(
            s.skip(at),
            name,
            i,
        ) {
            Some(p) => Some(at + p),
            None => None,
        }),
    decreases s.len() - at - i,
{
    let t = s.skip(at);
    if i + name.len() + 3 <= t.len() {
        assert(t.subrange(i + 1, i + 1 + name.len()) =~= s.subrange(
            at + i + 1,
            at + i + 1 + name.len(),
        ));
        assert(secondary::name_at(t, name, i) == secondary::name_at(s, name, at + i));
        if secondary::name_at(t, name, i) {
            secondary::lemma_skip_blanks(s, at + i + name.len() + 2);
            secondary::lemma_skip_blanks(t, i + name.len() + 2);
            lemma_blanks_shift(s, at, i + name.len() + 2);
            let after = secondary::skip_blanks(t, i + name.len() + 2);
            if after < t.len() && t[after] == 58 {
                lemma_blanks_shift(s, at, after + 1);
            } else {
                lemma_value_shift(s, at, name, after);
            }
        } else {
            lemma_value_shift(s, at, name, i + 1);
        }
    }
}

proof fn lemma_path_shift(s: Seq<u8>, at: int, names: Seq<Seq<char>>, i: int)
    requires
        0 <= at <= s.len(),
        0 <= i,
    ensures
        secondary::path_place(s, names, at + i) == (match secondary::path_place(s.skip(at), names, i) {
            Some(p) => Some(at + p),
            None => None,
        }),
    decreases names.len(),
{
    if names.len() > 0 {
        let name = encode_utf8(names[0]);
        lemma_value_shift(s, at, name, i);
        if let Some(p) = secondary::value_place(s.skip(at), name, i) {
            lemma_value_place(s.skip(at), name, i);
            lemma_path_shift(s, at, names.skip(1), p);
        }
    }
}

proof fn lemma_value_place(s: Seq<u8>, name: Seq<u8>, i: int)
    requires
        0 <= i,
    ensures
        secondary::value_place(s, name, i) matches Some(p) ==> 0 <= p,
    decreases s.len() - i,
{
    if i + name.len() + 3 <= s.len() {
        if secondary::name_at(s, name, i) {
            secondary::lemma_skip_blanks(s, i + name.len() + 2);
            let after = secondary::skip_blanks(s, i + name.len() + 2);
            secondary::lemma_skip_blanks(s, after + 1);
            lemma_value_place(s, name, after);
        } else {
            lemma_value_place(s, name, i + 1);
        }
    }
}

proof fn lemma_path_place(s: Seq<u8>, names: Seq<Seq<char>>, i: int)
    requires
        0 <= i,
    ensures
        secondary::path_place(s, names, i) matches Some(p) ==> 0 <= p,
    decreases names.len(),
{
    if names.len() > 0 {
        lemma_value_place(s, encode_utf8(names[0]), i);
        if let Some(p) = secondary::value_place(s, encode_utf8(names[0]), i) {
            lemma_path_place(s, names.skip(1), p);
        }
    }
}

proof fn lemma_number_shift(s: Seq<u8>, at: int, i: int)
    requires
        0 <= at <= s.len(),
        0 <= i,
    ensures
        secondary::number_end(s, at + i) == at + secondary::number_end(s.skip(at), i),
    decreases s.len() - at - i,
{
    if at + i < s.len() {
        assert(s.skip(at)[i] == s[at + i]);
        if secondary::in_number(s[at + i]) {
            lemma_number_shift(s, at, i + 1);
        }
    }
}

proof fn lemma_number_end(s: Seq<u8>, i: int)
    requires
        0 <= i,
    ensures
        secondary::number_end(s, i) == i || i < secondary::number_end(s, i) <= s.len(),
    decreases s.len() - i,
{
    if i < s.len() && secondary::in_number(s[i]) {
        lemma_number_end(s, i + 1);
    }
}

// ---------------------------------------------------------------------------------------------
// Numbers of documents
// ---------------------------------------------------------------------------------------------
/// The number at a path is the number that stands there, or the one that the text there spells; anything
/// else there is none, nor is nothing.
pub proof fn law_number_at_a_path(root: JsonView, path: Seq<char>, n: JsonNumber, bits: u64)
    requires
        is_double_of(bits, n),
    ensures
        match query::value_at(root, query::path_parts(path)) {
            Some(JsonView::Number(x)) => x == n ==> query::number_at(root, path) == Some(bits),
            Some(JsonView::String(s)) => query::number_at(root, path) == json::float_of_text(s),
            _ => query::number_at(root, path) is None,
        },
{
}

// ---------------------------------------------------------------------------------------------
// Indices
// ---------------------------------------------------------------------------------------------
/// A document that is put ranks its key by the number at the index's field, and touches no other key;
/// one without such a number changes nothing.
pub proof fn law_put_ranks_its_key_alone(x: IndexView, player: u128, doc: Seq<u8>, other: u128)
    ensures
        ({
            let after = secondary::after_put(x, player, doc);
            &&& after.path == x.path
            &&& other != player ==> after.scores.contains_key(other) == x.scores.contains_key(other)
                && after.scores[other] == x.scores[other]
            &&& match secondary::extracted(x.path, doc) {
                Some(bits) => !json::is_nan(bits) ==> after.scores.contains_key(player)
                    && after.scores[player] == bits,
                None => after == x,
            }
        }),
{
}

/// A document of one field, a number of any sign that is no NaN, ranks its key by that number in the
/// index of the field.
pub proof fn law_document_of_one_field_is_ranked(
    x: IndexView,
    player: u128,
    number: Seq<u8>,
    bits: u64,
)
    requires
        !x.path.contains('.'),
        !encode_utf8(x.path).contains(34),
        is_number(number),
        json::float_of_text(number_chars(number)) == Some(bits),
        !json::is_nan(bits),
    ensures
        secondary::after_put(
            x,
            player,
            seq![123u8] + quoted(x.path) + seq![58u8] + number + seq![125u8],
        ) == (IndexView { path: x.path, scores: x.scores.insert(player, bits) }),
{
    law_single_field_is_extracted(x.path, number);
}

/// Where the name of a field stands nowhere in quotes, no number is extracted at it.
pub proof fn law_nothing_is_extracted_without_the_name(path: Seq<char>, s: Seq<u8>)
    requires
        !path.contains('.'),
        not_quoted_before(s, path, s.len() as int + 1),
    ensures
        secondary::extracted(path, s) is None,
{
    assert(text::pieces(path, "."@) =~= seq![path]) by {
        reveal_strlit(".");
        assert forall|i: int| 0 <= i < path.len() implies #[trigger] path[i] != "."@[0] by {
            assert(path.contains(path[i]));
        }
        lemma_not_in(path, "."@, 0);
    }
    lemma_never_found(s, path, 0);
}

proof fn lemma_never_found(s: Seq<u8>, name: Seq<char>, from: int)
    requires
        0 <= from,
        not_quoted_before(s, name, s.len() as int + 1),
    ensures
        secondary::value_place(s, encode_utf8(name), from) is None,
    decreases s.len() - from,
{
    if from + encode_utf8(name).len() + 3 <= s.len() {
        lemma_no_name(s, name, s.len() as int + 1, from);
        lemma_never_found(s, name, from + 1);
    }
}

// ---------------------------------------------------------------------------------------------
// Filters that are refused
// ---------------------------------------------------------------------------------------------
/// Text without an operator is no condition; nor is one with nothing before its sign or behind it; nor is
/// a filter of white space alone.
#[verifier::rlimit(40)]
pub proof fn law_incomplete_conditions_are_refused(
    s: Seq<char>,
    sign: Seq<char>,
    op: Operator,
    value: Seq<char>,
)
    requires
        is_operand(s),
        !stands_in(" CONTAINS "@, s),
        !stands_in(" contains "@, s),
        is_sign(sign, op),
        is_operand(value),
    ensures
        query::condition_of(s) matches Err(crate::types::ErrorView::InvalidCommand(_)),
        query::condition_of(sign + value) matches Err(crate::types::ErrorView::InvalidCommand(_)),
        query::filter_of(Seq::empty()) matches Err(crate::types::ErrorView::InvalidCommand(_)),
{
    lemma_signs();
    reveal_with_fuel(query::condition_from, 10);
    text::lemma_trimmed_id(s);
    let ops = query::operators();
    lemma_not_in(s, ops[0].0, 0);
    lemma_not_in(s, ops[1].0, 0);
    lemma_not_in(s, ops[2].0, 0);
    lemma_not_in(s, ops[3].0, 0);
    lemma_not_in(s, ops[4].0, 0);
    lemma_not_in(s, ops[5].0, 0);
    lemma_not_in(s, ops[6].0, 0);
    lemma_not_standing(s, " CONTAINS "@);
    lemma_not_standing(s, " contains "@);
    let t = sign + value;
    assert(t[0] == sign[0]);
    assert(t.last() == value.last());
    text::lemma_trimmed_id(t);
    assert(t.take(0) =~= Seq::<char>::empty());
    lemma_sign_first(sign, op, value);
}

/// A sign at the front is found there, whichever operator is found first.
#[verifier::rlimit(40)]
proof fn lemma_sign_first(sign: Seq<char>, op: Operator, value: Seq<char>)
    requires
        is_sign(sign, op),
        is_operand(value),
    ensures
        query::condition_of(sign + value) matches Err(crate::types::ErrorView::InvalidCommand(_)),
{
    lemma_signs();
    let t = sign + value;
    let ops = query::operators();
    assert(t[0] == sign[0]);
    assert(t.last() == value.last());
    text::lemma_trimmed_id(t);
    assert(t.take(0) =~= Seq::<char>::empty());
    assert(text::trimmed(Seq::<char>::empty()).len() == 0);
    assert forall|i: int| 0 <= i < t.len() && in_operator(#[trigger] t[i]) implies i < sign.len() by {
        if i >= sign.len() {
            assert(t[i] == value[i - sign.len()]);
        }
    }
    assert forall|k: int| 0 <= k < 7 implies match text::place_of(t, (#[trigger] ops[k]).0, 0) {
        Some(at) => at == 0 || sign.len() == 2 && ops[k].0 == seq!['='],
        None => true,
    } by {
        text::lemma_place_of(t, ops[k].0, 0);
        if let Some(at) = text::place_of(t, ops[k].0, 0) {
            let x = ops[k].0;
            assert(t.subrange(at, at + x.len())[0] == t[at]);
            assert(in_operator(x[0]));
            if at > 0 {
                assert(at == 1 && sign.len() == 2);
                assert(t[1] == sign[1]);
                if x.len() == 2 {
                    assert(t.subrange(at, at + 2)[1] == t[at + 1]);
                    assert(in_operator(x[1]));
                }
            }
        }
    }
    assert(text::place_of(t, sign, 0) == Some(0int)) by {
        assert(t.subrange(0, sign.len() as int) =~= sign);
        text::lemma_found(t, sign, 0);
        text::lemma_place_of(t, sign, 0);
    }
    reveal_with_fuel(query::condition_from, 10);
    assert(ops[0] == (">="@, Operator::Gte));
    assert(ops[1] == ("<="@, Operator::Lte));
    assert(ops[2] == ("!="@, Operator::Ne));
    assert(ops[3] == ("=="@, Operator::Eq));
    assert(ops[4] == ("="@, Operator::Eq));
    assert(ops[5] == (">"@, Operator::Gt));
    assert(ops[6] == ("<"@, Operator::Lt));
}

// ---------------------------------------------------------------------------------------------
// Names that stand as values
// ---------------------------------------------------------------------------------------------
/// A name in quotes that no colon follows names no field, and is passed over: what is extracted is what is
/// extracted from what follows it.
#[verifier::rlimit(40)]
pub proof fn law_quoted_values_are_passed_over(
    path: Seq<char>,
    head: Seq<u8>,
    a: Seq<u8>,
    rest: Seq<u8>,
)
    requires
        !path.contains('.'),
        are_blanks(a),
        rest.len() > 0,
        rest[0] != 58,
        !are_blanks(seq![rest[0]]),
        not_quoted_before(head + (quoted(path) + a + rest), path, head.len() as int),
    ensures
        secondary::extracted(path, head + (quoted(path) + a + rest)) == secondary::extracted(path, rest),
{
    let tail = quoted(path) + a + rest;
    let s = head + tail;
    let n = encode_utf8(path);
    assert(text::pieces(path, "."@) =~= seq![path]) by {
        reveal_strlit(".");
        assert forall|i: int| 0 <= i < path.len() implies #[trigger] path[i] != "."@[0] by {
            assert(path.contains(path[i]));
        }
        lemma_not_in(path, "."@, 0);
    }
    assert(seq![path].skip(1) =~= Seq::<Seq<char>>::empty());
    assert(!secondary::is_blank(rest[0])) by {
        if secondary::is_blank(rest[0]) {
            assert(are_blanks(seq![rest[0]]));
        }
    }
    lemma_passes(s, path, 0, head.len() as int);
    let at = head.len() as int;
    let after = at + n.len() + 2 + a.len();
    assert(s.skip(at) =~= tail);
    assert(s.skip(after) =~= rest);
    lemma_passed_name(s, at, path, a, rest);
    lemma_value_shift(s, after, n, 0);
    lemma_value_place(rest, n, 0);
    if let Some(p) = secondary::value_place(rest, n, 0) {
        lemma_number_shift(s, after, p);
        let end = secondary::number_end(rest, p);
        lemma_number_end(rest, p);
        assert(Seq::new((end - p) as nat, |i: int| s[after + p + i] as char) =~= Seq::new(
            (end - p) as nat,
            |i: int| rest[p + i] as char,
        ));
    }
    reveal_with_fuel(secondary::path_place, 2);
}

/// A name in quotes with no colon behind it is passed over.
#[verifier::rlimit(40)]
proof fn lemma_passed_name(s: Seq<u8>, at: int, name: Seq<char>, a: Seq<u8>, rest: Seq<u8>)
    requires
        0 <= at <= s.len(),
        s.skip(at) == quoted(name) + a + rest,
        are_blanks(a),
        rest.len() > 0,
        rest[0] != 58,
        !secondary::is_blank(rest[0]),
    ensures
        secondary::value_place(s, encode_utf8(name), at) == secondary::value_place(
            s,
            encode_utf8(name),
            at + encode_utf8(name).len() + 2 + a.len(),
        ),
{
    let n = encode_utf8(name);
    let q = quoted(name);
    let tail = q + a + rest;
    let after = at + n.len() + 2 + a.len();
    assert(q.len() == n.len() + 2);
    assert(s.len() == at + tail.len());
    assert forall|i: int| 0 <= i < tail.len() implies s[at + i] == #[trigger] tail[i] by {
        assert(s.skip(at)[i] == s[at + i]);
    }
    assert(s[at + (n.len() + 2 + a.len())] == tail[n.len() + 2 + a.len() as int]);
    assert(s[at + 0] == tail[0] && tail[0] == q[0]);
    assert(s.subrange(at + 1, at + 1 + n.len()) =~= n) by {
        assert forall|i: int| 0 <= i < n.len() implies s[at + 1 + i] == #[trigger] n[i] by {
            assert(q[1 + i] == n[i]);
            assert(s[at + (1 + i)] == tail[1 + i]);
        }
    }
    assert(q[1 + n.len() as int] == 34);
    assert(s[at + (1 + n.len())] == tail[1 + n.len() as int]);
    assert(secondary::name_at(s, n, at));
    assert(s.subrange(at + n.len() + 2, after) =~= a) by {
        assert forall|i: int| 0 <= i < a.len() implies s[at + n.len() + 2 + i] == #[trigger] a[i] by {
            assert(s[at + (n.len() + 2 + i)] == tail[n.len() + 2 + i]);
        }
    }
    lemma_skips(s, at + n.len() + 2, after);
}

proof fn lemma_passes(s: Seq<u8>, name: Seq<char>, from: int, at: int)
    requires
        0 <= from <= at,
        not_quoted_before(s, name, at),
    ensures
        secondary::value_place(s, encode_utf8(name), from) == secondary::value_place(
            s,
            encode_utf8(name),
            at,
        ) || at + encode_utf8(name).len() + 3 > s.len() && secondary::value_place(
            s,
            encode_utf8(name),
            from,
        ) is None && secondary::value_place(s, encode_utf8(name), at) is None,
    decreases at - from,
{
    if from < at {
        if from + encode_utf8(name).len() + 3 <= s.len() {
            lemma_no_name(s, name, at, from);
        }
        lemma_passes(s, name, from + 1, at);
    }
}

} // verus!
