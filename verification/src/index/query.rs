//! Filters over JSON documents, and paths into them.
use vstd::prelude::*;

use crate::index::json::{JsonNumber, JsonValue, JsonView};
use crate::index::json;
use crate::text;
use crate::types::{DbError, ErrorView, Result};

verus! {

/// How a condition compares.
#[derive(Debug, Clone, Copy, PartialEq, Eq, Structural)]
pub enum Operator {
    Eq,
    Ne,
    Gt,
    Gte,
    Lt,
    Lte,
    Contains,
}

/// What a condition compares with. A number is held as the bits of a double.
#[derive(Debug, PartialEq, Eq)]
pub enum Literal {
    String(String),
    Number(u64),
    Bool(bool),
    Null,
}

/// A comparison of the value at a path.
#[derive(Debug, PartialEq, Eq)]
pub struct Condition {
    pub path: String,
    pub op: Operator,
    pub value: Literal,
}

/// A filter's expression.
#[derive(Debug, PartialEq, Eq)]
pub enum Expression {
    Single(Condition),
    And(Vec<Expression>),
    Or(Vec<Expression>),
}

/// A literal, by view.
pub enum LiteralView {
    String(Seq<char>),
    Number(u64),
    Bool(bool),
    Null,
}

/// A condition, by view.
pub struct ConditionView {
    pub path: Seq<char>,
    pub op: Operator,
    pub value: LiteralView,
}

/// An expression, by view.
pub enum ExpressionView {
    Single(ConditionView),
    And(Seq<ExpressionView>),
    Or(Seq<ExpressionView>),
}

impl View for Literal {
    type V = LiteralView;

    open spec fn view(&self) -> LiteralView {
        match self {
            Literal::String(s) => LiteralView::String(s@),
            Literal::Number(n) => LiteralView::Number(*n),
            Literal::Bool(b) => LiteralView::Bool(*b),
            Literal::Null => LiteralView::Null,
        }
    }
}

impl View for Condition {
    type V = ConditionView;

    open spec fn view(&self) -> ConditionView {
        ConditionView { path: self.path@, op: self.op, value: self.value@ }
    }
}

/// The view of an expression.
pub open spec fn expression_view(e: Expression) -> ExpressionView
    decreases e,
{
    match e {
        Expression::Single(c) => ExpressionView::Single(c@),
        Expression::And(list) => ExpressionView::And(expressions_view(list@)),
        Expression::Or(list) => ExpressionView::Or(expressions_view(list@)),
    }
}

/// The views of some expressions.
pub open spec fn expressions_view(s: Seq<Expression>) -> Seq<ExpressionView>
    decreases s,
{
    if s.len() == 0 {
        Seq::empty()
    } else {
        expressions_view(s.drop_last()).push(expression_view(s.last()))
    }
}

impl View for Expression {
    type V = ExpressionView;

    open spec fn view(&self) -> ExpressionView {
        expression_view(*self)
    }
}

proof fn lemma_expressions_view(s: Seq<Expression>)
    ensures
        expressions_view(s).len() == s.len(),
        forall|i: int| 0 <= i < s.len() ==> #[trigger] expressions_view(s)[i] == expression_view(s[i]),
    decreases s.len(),
{
    if s.len() > 0 {
        lemma_expressions_view(s.drop_last());
    }
}

// ---------------------------------------------------------------------------------------------
// What filters mean
// ---------------------------------------------------------------------------------------------
/// The test whether two doubles differ by less than a billionth is told of each pair of bits, or of none
/// where their difference is a NaN. It can be called with anything, and does not answer a question in
/// two ways.
pub open spec fn can_compare<N: Fn(u64, u64) -> Option<bool>>(near: N) -> bool {
    &&& forall|a: u64, b: u64| #[trigger] call_requires(near, (a, b))
    &&& forall|a: u64, b: u64, r: Option<bool>, q: Option<bool>|
        #[trigger] call_ensures(near, (a, b), r) && #[trigger] call_ensures(near, (a, b), q) ==> r
            == q
}

/// What a test answers.
pub open spec fn answers<N: Fn(u64, u64) -> Option<bool>>(near: N) -> spec_fn(
    u64,
    u64,
) -> Option<bool> {
    |a: u64, b: u64|
        if call_ensures(near, (a, b), Some(true)) {
            Some(true)
        } else if call_ensures(near, (a, b), Some(false)) {
            Some(false)
        } else {
            None
        }
}

/// A test gives what it answers.
pub proof fn lemma_answers<N: Fn(u64, u64) -> Option<bool>>(
    near: N,
    a: u64,
    b: u64,
    r: Option<bool>,
)
    requires
        can_compare(near),
        call_ensures(near, (a, b), r),
    ensures
        r == answers(near)(a, b),
{
    match r {
        None => {
            let yes = call_ensures(near, (a, b), Some(true));
            let no = call_ensures(near, (a, b), Some(false));
        },
        Some(x) => {
            let no = call_ensures(near, (a, b), Some(false));
        },
    }
}

/// A literal equals a value; numbers do where they are near.
pub open spec fn equal_to(
    lit: LiteralView,
    v: JsonView,
    near: spec_fn(u64, u64) -> Option<bool>,
) -> bool {
    match (lit, v) {
        (LiteralView::String(s), JsonView::String(t)) => s == t,
        (LiteralView::Number(n), JsonView::Number(x)) => near(json::number_bits(x), n) == Some(true),
        (LiteralView::Bool(a), JsonView::Bool(b)) => a == b,
        (LiteralView::Null, JsonView::Null) => true,
        _ => false,
    }
}

/// A literal differs from a value; numbers do where they are known not to be near.
pub open spec fn different_from(
    lit: LiteralView,
    v: JsonView,
    near: spec_fn(u64, u64) -> Option<bool>,
) -> bool {
    match (lit, v) {
        (LiteralView::String(s), JsonView::String(t)) => s != t,
        (LiteralView::Number(n), JsonView::Number(x)) => near(json::number_bits(x), n) == Some(
            false,
        ),
        (LiteralView::Bool(a), JsonView::Bool(b)) => a != b,
        (LiteralView::Null, JsonView::Null) => false,
        _ => true,
    }
}

/// The literal and the value are both numbers: the bits of both doubles.
pub open spec fn number_pair(lit: LiteralView, v: JsonView) -> Option<(u64, u64)> {
    match (lit, v) {
        (LiteralView::Number(n), JsonView::Number(x)) => Some((n, json::number_bits(x))),
        _ => None,
    }
}

/// A text contains the literal, or an array has it as an item.
pub open spec fn contained_in(lit: LiteralView, v: JsonView) -> bool {
    match (lit, v) {
        (LiteralView::String(s), JsonView::String(t)) => text::place_of(t, s, 0) is Some,
        (LiteralView::String(s), JsonView::Array(items)) => exists|i: int|
            0 <= i < items.len() && #[trigger] items[i] == JsonView::String(s),
        _ => false,
    }
}

/// A condition holds of the value at its path; where there is none, only that it differs does.
pub open spec fn holds(
    c: ConditionView,
    target: Option<JsonView>,
    near: spec_fn(u64, u64) -> Option<bool>,
) -> bool {
    match target {
        None => c.op == Operator::Ne,
        Some(v) => {
            let pair = number_pair(c.value, v);
            match c.op {
                Operator::Eq => equal_to(c.value, v, near),
                Operator::Ne => different_from(c.value, v, near),
                Operator::Gt => pair is Some && json::float_less(pair.unwrap().0, pair.unwrap().1),
                Operator::Gte => pair is Some && json::float_at_most(
                    pair.unwrap().0,
                    pair.unwrap().1,
                ),
                Operator::Lt => pair is Some && json::float_less(pair.unwrap().1, pair.unwrap().0),
                Operator::Lte => pair is Some && json::float_at_most(
                    pair.unwrap().1,
                    pair.unwrap().0,
                ),
                Operator::Contains => contained_in(c.value, v),
            }
        },
    }
}

/// The value at a path of field names.
pub open spec fn value_at(root: JsonView, parts: Seq<Seq<char>>) -> Option<JsonView>
    decreases parts.len(),
{
    if parts.len() == 0 {
        Some(root)
    } else {
        match root {
            JsonView::Object(m) => if m.contains_key(parts[0]) {
                value_at(m[parts[0]], parts.skip(1))
            } else {
                None
            },
            _ => None,
        }
    }
}

/// The field names of a dotted path.
pub open spec fn path_parts(path: Seq<char>) -> Seq<Seq<char>> {
    text::pieces(path, "."@)
}

/// A document meets an expression.
pub open spec fn meets(
    e: ExpressionView,
    root: JsonView,
    near: spec_fn(u64, u64) -> Option<bool>,
) -> bool
    decreases e,
{
    match e {
        ExpressionView::Single(c) => holds(c, value_at(root, path_parts(c.path)), near),
        ExpressionView::And(list) => forall|i: int|
            0 <= i < list.len() ==> meets(#[trigger] list[i], root, near),
        ExpressionView::Or(list) => exists|i: int|
            0 <= i < list.len() && meets(#[trigger] list[i], root, near),
    }
}

// ---------------------------------------------------------------------------------------------
// What filters are written as
// ---------------------------------------------------------------------------------------------
/// Text in double or single quotes.
pub open spec fn is_quoted(s: Seq<char>) -> bool {
    s.len() >= 2 && (s[0] == '"' && s.last() == '"' || s[0] == '\'' && s.last() == '\'')
}

/// The literal that text spells: quoted text, a truth value, nothing, a number, else text.
pub open spec fn literal_of(s: Seq<char>) -> LiteralView {
    let t = text::trimmed(s);
    if is_quoted(t) {
        LiteralView::String(t.subrange(1, t.len() - 1))
    } else if text::same_ignoring_case(t, "true"@) {
        LiteralView::Bool(true)
    } else if text::same_ignoring_case(t, "false"@) {
        LiteralView::Bool(false)
    } else if text::same_ignoring_case(t, "null"@) {
        LiteralView::Null
    } else {
        match json::float_of_text(t) {
            Some(n) => LiteralView::Number(n),
            None => LiteralView::String(t),
        }
    }
}

/// The operators in the order in which they are looked for.
pub open spec fn operators() -> Seq<(Seq<char>, Operator)> {
    seq![
        (">="@, Operator::Gte),
        ("<="@, Operator::Lte),
        ("!="@, Operator::Ne),
        ("=="@, Operator::Eq),
        ("="@, Operator::Eq),
        (">"@, Operator::Gt),
        ("<"@, Operator::Lt),
        (" CONTAINS "@, Operator::Contains),
        (" contains "@, Operator::Contains),
    ]
}

/// The condition around an operator at a place of trimmed text.
pub open spec fn condition_at(
    input: Seq<char>,
    op: (Seq<char>, Operator),
    at: int,
) -> core::result::Result<ConditionView, ErrorView> {
    let t = text::trimmed(input);
    let path = text::trimmed(t.take(at));
    let value = text::trimmed(t.skip(at + op.0.len()));
    if path.len() == 0 || value.len() == 0 {
        Err(ErrorView::InvalidCommand("Invalid condition syntax: '"@ + input + "'"@))
    } else {
        Ok(ConditionView { path, op: op.1, value: literal_of(value) })
    }
}

/// The condition that text spells, operators looked for from the `i`-th on.
pub open spec fn condition_from(input: Seq<char>, i: int) -> core::result::Result<
    ConditionView,
    ErrorView,
>
    decreases 9 - i,
{
    if i < 0 || i >= 9 {
        Err(ErrorView::InvalidCommand("Could not parse condition: '"@ + input + "'"@))
    } else {
        match text::place_of(text::trimmed(input), operators()[i].0, 0) {
            Some(at) => condition_at(input, operators()[i], at),
            None => condition_from(input, i + 1),
        }
    }
}

/// The condition that text spells.
pub open spec fn condition_of(input: Seq<char>) -> core::result::Result<ConditionView, ErrorView> {
    condition_from(input, 0)
}

/// The conditions that the first `n` pieces spell.
pub open spec fn conditions_of(parts: Seq<Seq<char>>, n: int) -> core::result::Result<
    Seq<ExpressionView>,
    ErrorView,
>
    decreases n,
{
    if n <= 0 {
        Ok(Seq::empty())
    } else {
        match conditions_of(parts, n - 1) {
            Err(e) => Err(e),
            Ok(head) => match condition_of(parts[n - 1]) {
                Err(e) => Err(e),
                Ok(c) => Ok(head.push(ExpressionView::Single(c))),
            },
        }
    }
}

/// The conjunction that text spells.
pub open spec fn conjunction_of(input: Seq<char>) -> core::result::Result<
    ExpressionView,
    ErrorView,
> {
    let parts = text::pieces(input, " AND "@);
    if parts.len() > 1 {
        match conditions_of(parts, parts.len() as int) {
            Err(e) => Err(e),
            Ok(list) => Ok(ExpressionView::And(list)),
        }
    } else {
        match condition_of(input) {
            Err(e) => Err(e),
            Ok(c) => Ok(ExpressionView::Single(c)),
        }
    }
}

/// The conjunctions that the first `n` pieces spell.
pub open spec fn conjunctions_of(parts: Seq<Seq<char>>, n: int) -> core::result::Result<
    Seq<ExpressionView>,
    ErrorView,
>
    decreases n,
{
    if n <= 0 {
        Ok(Seq::empty())
    } else {
        match conjunctions_of(parts, n - 1) {
            Err(e) => Err(e),
            Ok(head) => match conjunction_of(parts[n - 1]) {
                Err(e) => Err(e),
                Ok(c) => Ok(head.push(c)),
            },
        }
    }
}

/// The expression that text spells: conjunctions joined by `OR`, of conditions joined by `AND`.
pub open spec fn filter_of(input: Seq<char>) -> core::result::Result<ExpressionView, ErrorView> {
    let t = text::trimmed(input);
    let parts = text::pieces(t, " OR "@);
    if t.len() == 0 {
        Err(ErrorView::InvalidCommand("Empty filter query"@))
    } else if parts.len() > 1 {
        match conjunctions_of(parts, parts.len() as int) {
            Err(e) => Err(e),
            Ok(list) => Ok(ExpressionView::Or(list)),
        }
    } else {
        conjunction_of(t)
    }
}

// ---------------------------------------------------------------------------------------------
// Parsing
// ---------------------------------------------------------------------------------------------
fn quote_error(head: &str, input: &[char]) -> (r: DbError)
    ensures
        r@ == ErrorView::InvalidCommand(head@ + input@ + "'"@),
{
    let mut msg = head.to_owned();
    let body = text::string_of(input);
    text::push_text(&mut msg, body.as_str());
    text::push_text(&mut msg, "'");
    DbError::InvalidCommand(msg)
}

fn eq_word(s: &[char], word: &str) -> (r: bool)
    ensures
        r == text::same_ignoring_case(s@, word@),
{
    let w = text::chars_of(word);
    text::eq_ignore_case(s, &w)
}

fn parse_literal(s: &[char]) -> (r: Literal)
    ensures
        r@ == literal_of(s@),
{
    let t = text::trim(s);
    let n: usize = t.len();
    if n >= 2 {
        let a = t[0];
        let b = t[n - 1];
        if (a == '"' && b == '"') || (a == '\'' && b == '\'') {
            let inner = &t[1..n - 1];
            return Literal::String(text::string_of(inner));
        }
    }
    if eq_word(t, "true") {
        return Literal::Bool(true);
    }
    if eq_word(t, "false") {
        return Literal::Bool(false);
    }
    if eq_word(t, "null") {
        return Literal::Null;
    }
    let whole = text::string_of(t);
    match json::parse_float(whole.as_str()) {
        Some(bits) => Literal::Number(bits),
        None => Literal::String(whole),
    }
}

/// Tries one operator.
fn try_operator(input: &[char], symbol: &str, op: Operator) -> (r: Option<Result<Condition>>)
    ensures
        match r {
            None => text::place_of(text::trimmed(input@), symbol@, 0) is None,
            Some(res) => text::place_of(text::trimmed(input@), symbol@, 0) matches Some(at)
                && match res {
                Ok(c) => condition_at(input@, (symbol@, op), at) == Ok::<ConditionView, ErrorView>(
                    c@,
                ),
                Err(e) => condition_at(input@, (symbol@, op), at) == Err::<
                    ConditionView,
                    ErrorView,
                >(e@),
            },
        },
{
    let t = text::trim(input);
    let sym = text::chars_of(symbol);
    match text::find(t, &sym) {
        None => None,
        Some(at) => {
            let n: usize = t.len();
            assert(at + sym@.len() <= n);
            let head = &t[0..at];
            let tail = &t[at + sym.len()..n];
            proof {
                assert(head@ =~= t@.take(at as int));
                assert(tail@ =~= t@.skip(at + sym@.len()));
            }
            let path = text::trim(head);
            let value = text::trim(tail);
            if path.len() == 0 || value.len() == 0 {
                return Some(Err(quote_error("Invalid condition syntax: '", input)));
            }
            Some(
                Ok(
                    Condition {
                        path: text::string_of(path),
                        op,
                        value: parse_literal(value),
                    },
                ),
            )
        },
    }
}

fn parse_single_condition(input: &[char]) -> (r: Result<Condition>)
    ensures
        match r {
            Ok(c) => condition_of(input@) == Ok::<ConditionView, ErrorView>(c@),
            Err(e) => condition_of(input@) == Err::<ConditionView, ErrorView>(e@),
        },
{
    proof {
        reveal_with_fuel(condition_from, 10);
    }
    if let Some(r) = try_operator(input, ">=", Operator::Gte) {
        return r;
    }
    if let Some(r) = try_operator(input, "<=", Operator::Lte) {
        return r;
    }
    if let Some(r) = try_operator(input, "!=", Operator::Ne) {
        return r;
    }
    if let Some(r) = try_operator(input, "==", Operator::Eq) {
        return r;
    }
    if let Some(r) = try_operator(input, "=", Operator::Eq) {
        return r;
    }
    if let Some(r) = try_operator(input, ">", Operator::Gt) {
        return r;
    }
    if let Some(r) = try_operator(input, "<", Operator::Lt) {
        return r;
    }
    if let Some(r) = try_operator(input, " CONTAINS ", Operator::Contains) {
        return r;
    }
    if let Some(r) = try_operator(input, " contains ", Operator::Contains) {
        return r;
    }
    Err(quote_error("Could not parse condition: '", input))
}

proof fn lemma_conditions_stop(parts: Seq<Seq<char>>, n: int, m: int)
    requires
        0 <= n <= m,
        conditions_of(parts, n) is Err,
    ensures
        conditions_of(parts, m) == conditions_of(parts, n),
    decreases m - n,
{
    if n < m {
        lemma_conditions_stop(parts, n, m - 1);
    }
}

proof fn lemma_conjunctions_stop(parts: Seq<Seq<char>>, n: int, m: int)
    requires
        0 <= n <= m,
        conjunctions_of(parts, n) is Err,
    ensures
        conjunctions_of(parts, m) == conjunctions_of(parts, n),
    decreases m - n,
{
    if n < m {
        lemma_conjunctions_stop(parts, n, m - 1);
    }
}

fn parse_and_expr(input: &[char]) -> (r: Result<Expression>)
    ensures
        match r {
            Ok(e) => conjunction_of(input@) == Ok::<ExpressionView, ErrorView>(e@),
            Err(e) => conjunction_of(input@) == Err::<ExpressionView, ErrorView>(e@),
        },
{
    let sep = text::chars_of(" AND ");
    proof {
        reveal_strlit(" AND ");
    }
    let parts = text::split(input, &sep);
    let ghost pv = text::pieces_view(parts@);
    if parts.len() > 1 {
        let mut list: Vec<Expression> = Vec::new();
        let mut i: usize = 0;
        assert(expressions_view(list@) =~= Seq::empty());
        while i < parts.len()
            invariant
                i <= parts@.len(),
                parts@.len() > 1,
                pv == text::pieces_view(parts@),
                pv == text::pieces(input@, " AND "@),
                conditions_of(pv, i as int) == Ok::<Seq<ExpressionView>, ErrorView>(
                    expressions_view(list@),
                ),
            decreases parts@.len() - i,
        {
            assert(pv[i as int] == parts@[i as int]@);
            match parse_single_condition(&parts[i]) {
                Ok(c) => {
                    let ghost held = list@;
                    assert(expression_view(Expression::Single(c)) == ExpressionView::Single(c@));
                    list.push(Expression::Single(c));
                    assert(list@.drop_last() =~= held);
                },
                Err(e) => {
                    proof {
                        lemma_conditions_stop(pv, i + 1, pv.len() as int);
                    }
                    return Err(e);
                },
            }
            i = i + 1;
        }
        Ok(Expression::And(list))
    } else {
        match parse_single_condition(input) {
            Ok(c) => Ok(Expression::Single(c)),
            Err(e) => Err(e),
        }
    }
}

// ---------------------------------------------------------------------------------------------
// Filters
// ---------------------------------------------------------------------------------------------
/// A filter over documents.
#[derive(Debug)]
pub struct QueryFilter {
    expr: Expression,
}

impl View for QueryFilter {
    type V = ExpressionView;

    closed spec fn view(&self) -> ExpressionView {
        expression_view(self.expr)
    }
}

/// What a filter says of some bytes: nothing that is no document meets it.
pub open spec fn bytes_meet(
    e: ExpressionView,
    bytes: Seq<u8>,
    near: spec_fn(u64, u64) -> Option<bool>,
) -> bool {
    match json::parsed_json(bytes) {
        Some(v) => meets(e, v, near),
        None => false,
    }
}

impl QueryFilter {
    /// Reads a filter.
    pub fn parse(input: &str) -> (r: Result<Self>)
        ensures
            match r {
                Ok(f) => filter_of(input@) == Ok::<ExpressionView, ErrorView>(f@),
                Err(e) => filter_of(input@) == Err::<ExpressionView, ErrorView>(e@),
            },
    {
        let all = text::chars_of(input);
        let t = text::trim(&all);
        if t.len() == 0 {
            return Err(DbError::InvalidCommand("Empty filter query".to_owned()));
        }
        let sep = text::chars_of(" OR ");
        proof {
            reveal_strlit(" OR ");
        }
        let parts = text::split(t, &sep);
        let ghost pv = text::pieces_view(parts@);
        if parts.len() > 1 {
            let mut list: Vec<Expression> = Vec::new();
            let mut i: usize = 0;
            assert(expressions_view(list@) =~= Seq::empty());
            while i < parts.len()
                invariant
                    i <= parts@.len(),
                    parts@.len() > 1,
                    t@.len() > 0,
                    t@ == text::trimmed(input@),
                    pv == text::pieces_view(parts@),
                    pv == text::pieces(t@, " OR "@),
                    conjunctions_of(pv, i as int) == Ok::<Seq<ExpressionView>, ErrorView>(
                        expressions_view(list@),
                    ),
                decreases parts@.len() - i,
            {
                assert(pv[i as int] == parts@[i as int]@);
                match parse_and_expr(&parts[i]) {
                    Ok(c) => {
                        let ghost held = list@;
                        list.push(c);
                        assert(list@.drop_last() =~= held);
                    },
                    Err(e) => {
                        proof {
                            lemma_conjunctions_stop(pv, i + 1, pv.len() as int);
                        }
                        return Err(e);
                    },
                }
                i = i + 1;
            }
            return Ok(QueryFilter { expr: Expression::Or(list) });
        }
        match parse_and_expr(t) {
            Ok(expr) => Ok(QueryFilter { expr }),
            Err(e) => Err(e),
        }
    }

    /// Whether a document, given as bytes, meets the filter. `near` tells whether two doubles
    /// differ by less than a billionth.
    pub fn matches<N: Fn(u64, u64) -> Option<bool>>(&self, json_bytes: &[u8], near: &N) -> (r: bool)
        requires
            can_compare(*near),
        ensures
            r == bytes_meet(self@, json_bytes@, answers(*near)),
    {
        match JsonValue::parse(json_bytes) {
            Some(v) => self.matches_value(&v, near),
            None => false,
        }
    }

    /// Whether a document meets the filter.
    pub fn matches_value<N: Fn(u64, u64) -> Option<bool>>(&self, value: &JsonValue, near: &N) -> (r:
        bool)
        requires
            can_compare(*near),
        ensures
            r == meets(self@, value@, answers(*near)),
    {
        eval_expression(&self.expr, value, near)
    }

    /// The value at a dotted path.
    pub fn get_json_path<'a>(root: &'a JsonValue, path: &str) -> (r: Option<&'a JsonValue>)
        ensures
            match r {
                Some(v) => value_at(root@, path_parts(path@)) == Some(v@) && (json::doc_ok(*root)
                    ==> json::doc_ok(*v)),
                None => value_at(root@, path_parts(path@)) is None,
            },
    {
        let chars = text::chars_of(path);
        let dot = text::chars_of(".");
        proof {
            reveal_strlit(".");
        }
        let parts = text::split(&chars, &dot);
        let ghost pv = text::pieces_view(parts@);
        let mut current = root;
        let mut i: usize = 0;
        assert(pv.skip(0) =~= pv);
        while i < parts.len()
            invariant
                i <= parts@.len(),
                pv == text::pieces_view(parts@),
                pv == path_parts(path@),
                json::doc_ok(*root) ==> json::doc_ok(*current),
                value_at(root@, pv) == value_at(current@, pv.skip(i as int)),
            decreases parts@.len() - i,
        {
            proof {
                assert(pv.skip(i as int)[0] == parts@[i as int]@);
                assert(pv.skip(i as int).skip(1) =~= pv.skip(i + 1));
            }
            match current {
                JsonValue::Object(fields) => {
                    match find_field(fields, &parts[i]) {
                        Some(at) => {
                            current = &fields[at].1;
                        },
                        None => {
                            return None;
                        },
                    }
                },
                _ => {
                    return None;
                },
            }
            i = i + 1;
        }
        Some(current)
    }
}

/// The last place of a field of that name.
fn find_field(fields: &Vec<(String, JsonValue)>, name: &[char]) -> (r: Option<usize>)
    ensures
        match r {
            Some(at) => at < fields@.len() && fields@[at as int].0@ == name@ && json::fields_view(
                fields@,
            ).contains_key(name@) && json::fields_view(fields@)[name@] == json::json_view(
                fields@[at as int].1,
            ) && forall|j: int| at < j < fields@.len() ==> (#[trigger] fields@[j]).0@ != name@,
            None => !json::fields_view(fields@).contains_key(name@) && forall|j: int|
                0 <= j < fields@.len() ==> (#[trigger] fields@[j]).0@ != name@,
        },
{
    let ghost all = json::fields_view(fields@);
    let wanted = text::string_of(name);
    let mut i: usize = fields.len();
    assert(fields@.take(i as int) =~= fields@);
    while i > 0
        invariant
            i <= fields@.len(),
            wanted@ == name@,
            all == json::fields_view(fields@),
            all.contains_key(name@) == json::fields_view(fields@.take(i as int)).contains_key(name@),
            all.contains_key(name@) ==> all[name@] == json::fields_view(
                fields@.take(i as int),
            )[name@],
            forall|j: int| i <= j < fields@.len() ==> (#[trigger] fields@[j]).0@ != name@,
        decreases i,
    {
        proof {
            let s = fields@.take(i as int);
            assert(s.drop_last() =~= fields@.take(i - 1));
            assert(s.last() == fields@[i - 1]);
        }
        if fields[i - 1].0 == wanted {
            return Some(i - 1);
        }
        i = i - 1;
    }
    assert(fields@.take(0) =~= Seq::empty());
    None
}

fn array_has_text(items: &Vec<JsonValue>, s: &String) -> (r: bool)
    ensures
        r == (exists|i: int|
            0 <= i < items@.len() && #[trigger] json::items_view(items@)[i] == JsonView::String(
                s@,
            )),
{
    proof {
        json::lemma_items_view(items@);
    }
    let mut i: usize = 0;
    while i < items.len()
        invariant
            i <= items@.len(),
            json::items_view(items@).len() == items@.len(),
            forall|j: int|
                0 <= j < items@.len() ==> #[trigger] json::items_view(items@)[j]
                    == json::json_view(items@[j]),
            forall|j: int|
                0 <= j < i ==> #[trigger] json::items_view(items@)[j] != JsonView::String(s@),
        decreases items@.len() - i,
    {
        assert(json::items_view(items@)[i as int] == json::json_view(items@[i as int]));
        if let JsonValue::String(t) = &items[i] {
            if *t == *s {
                return true;
            }
        }
        i = i + 1;
    }
    false
}

fn eval_equal<N: Fn(u64, u64) -> Option<bool>>(lit: &Literal, v: &JsonValue, near: &N) -> (r: bool)
    requires
        can_compare(*near),
    ensures
        r == equal_to(lit@, v@, answers(*near)),
{
    match lit {
        Literal::String(s) => match v {
            JsonValue::String(t) => *s == *t,
            _ => false,
        },
        Literal::Number(n) => match v {
            JsonValue::Number(x) => {
                let bits: u64 = x.to_bits();
                let told = near(bits, *n);
                proof {
                    lemma_answers(*near, bits, *n, told);
                }
                match told {
                    Some(b) => b,
                    None => false,
                }
            },
            _ => false,
        },
        Literal::Bool(a) => match v {
            JsonValue::Bool(b) => *a == *b,
            _ => false,
        },
        Literal::Null => match v {
            JsonValue::Null => true,
            _ => false,
        },
    }
}

fn eval_different<N: Fn(u64, u64) -> Option<bool>>(lit: &Literal, v: &JsonValue, near: &N) -> (r:
    bool)
    requires
        can_compare(*near),
    ensures
        r == different_from(lit@, v@, answers(*near)),
{
    match lit {
        Literal::String(s) => match v {
            JsonValue::String(t) => !(*s == *t),
            _ => true,
        },
        Literal::Number(n) => match v {
            JsonValue::Number(x) => {
                let bits: u64 = x.to_bits();
                let told = near(bits, *n);
                proof {
                    lemma_answers(*near, bits, *n, told);
                }
                match told {
                    Some(b) => !b,
                    None => false,
                }
            },
            _ => true,
        },
        Literal::Bool(a) => match v {
            JsonValue::Bool(b) => *a != *b,
            _ => true,
        },
        Literal::Null => match v {
            JsonValue::Null => false,
            _ => true,
        },
    }
}

fn both_numbers(lit: &Literal, v: &JsonValue) -> (r: Option<(u64, u64)>)
    ensures
        r == number_pair(lit@, v@),
{
    match lit {
        Literal::Number(n) => match v {
            JsonValue::Number(x) => Some((*n, x.to_bits())),
            _ => None,
        },
        _ => None,
    }
}

fn eval_contains(lit: &Literal, v: &JsonValue) -> (r: bool)
    ensures
        r == contained_in(lit@, v@),
{
    match lit {
        Literal::String(s) => match v {
            JsonValue::String(t) => {
                let hay = text::chars_of(t.as_str());
                let needle = text::chars_of(s.as_str());
                text::find(&hay, &needle).is_some()
            },
            JsonValue::Array(items) => {
                proof {
                    json::lemma_items_view(items@);
                }
                array_has_text(items, s)
            },
            _ => false,
        },
        _ => false,
    }
}

/// Whether the value at a condition's path meets it.
pub fn eval_condition<N: Fn(u64, u64) -> Option<bool>>(c: &Condition, root: &JsonValue, near: &N) -> (r:
    bool)
    requires
        can_compare(*near),
    ensures
        r == holds(c@, value_at(root@, path_parts(c.path@)), answers(*near)),
{
    let v = match QueryFilter::get_json_path(root, c.path.as_str()) {
        Some(v) => v,
        None => {
            return match c.op {
                Operator::Ne => true,
                _ => false,
            };
        },
    };
    match c.op {
        Operator::Eq => eval_equal(&c.value, v, near),
        Operator::Ne => eval_different(&c.value, v, near),
        Operator::Contains => eval_contains(&c.value, v),
        Operator::Gt => match both_numbers(&c.value, v) {
            Some((n, x)) => json::bits_less(n, x),
            None => false,
        },
        Operator::Gte => match both_numbers(&c.value, v) {
            Some((n, x)) => json::bits_at_most(n, x),
            None => false,
        },
        Operator::Lt => match both_numbers(&c.value, v) {
            Some((n, x)) => json::bits_less(x, n),
            None => false,
        },
        Operator::Lte => match both_numbers(&c.value, v) {
            Some((n, x)) => json::bits_at_most(x, n),
            None => false,
        },
    }
}

proof fn lemma_and_fails(
    list: Seq<ExpressionView>,
    root: JsonView,
    near: spec_fn(u64, u64) -> Option<bool>,
    i: int,
)
    requires
        0 <= i < list.len(),
        !meets(list[i], root, near),
    ensures
        !meets(ExpressionView::And(list), root, near),
{
    let e = ExpressionView::And(list);
    if meets(e, root, near) {
        assert(meets(e->And_0[i], root, near));
    }
}

proof fn lemma_or_meets(
    list: Seq<ExpressionView>,
    root: JsonView,
    near: spec_fn(u64, u64) -> Option<bool>,
    i: int,
)
    requires
        0 <= i < list.len(),
        meets(list[i], root, near),
    ensures
        meets(ExpressionView::Or(list), root, near),
{
    let e = ExpressionView::Or(list);
    assert(meets(e->Or_0[i], root, near));
}

fn eval_expression<N: Fn(u64, u64) -> Option<bool>>(e: &Expression, root: &JsonValue, near: &N) -> (r:
    bool)
    requires
        can_compare(*near),
    ensures
        r == meets(e@, root@, answers(*near)),
    decreases e,
{
    match e {
        Expression::Single(c) => eval_condition(c, root, near),
        Expression::And(list) => {
            proof {
                lemma_expressions_view(list@);
            }
            let ghost lv = expressions_view(list@);
            let mut i: usize = 0;
            while i < list.len()
                invariant
                    i <= list@.len(),
                    *e == Expression::And(*list),
                    e@ == ExpressionView::And(lv),
                    can_compare(*near),
                    lv == expressions_view(list@),
                    lv.len() == list@.len(),
                    forall|j: int| 0 <= j < list@.len() ==> #[trigger] lv[j] == expression_view(list@[j]),
                    forall|j: int|
                        0 <= j < i ==> meets(#[trigger] lv[j], root@, answers(*near)),
                decreases list@.len() - i,
            {
                assert(decreases_to!(*e => e->And_0));
                assert(decreases_to!(list@ => list@[i as int]));
                let one = eval_expression(&list[i], root, near);
                if !one {
                    proof {
                        lemma_and_fails(lv, root@, answers(*near), i as int);
                    }
                    return false;
                }
                i = i + 1;
            }
            true
        },
        Expression::Or(list) => {
            proof {
                lemma_expressions_view(list@);
            }
            let ghost lv = expressions_view(list@);
            let mut i: usize = 0;
            while i < list.len()
                invariant
                    i <= list@.len(),
                    *e == Expression::Or(*list),
                    e@ == ExpressionView::Or(lv),
                    can_compare(*near),
                    lv == expressions_view(list@),
                    lv.len() == list@.len(),
                    forall|j: int| 0 <= j < list@.len() ==> #[trigger] lv[j] == expression_view(list@[j]),
                    forall|j: int|
                        0 <= j < i ==> !meets(#[trigger] lv[j], root@, answers(*near)),
                decreases list@.len() - i,
            {
                assert(decreases_to!(*e => e->Or_0));
                assert(decreases_to!(list@ => list@[i as int]));
                let one = eval_expression(&list[i], root, near);
                if one {
                    proof {
                        lemma_or_meets(lv, root@, answers(*near), i as int);
                    }
                    return true;
                }
                i = i + 1;
            }
            false
        },
    }
}

// ---------------------------------------------------------------------------------------------
// Paths and values
// ---------------------------------------------------------------------------------------------
/// The document with another value at a path. What stands in the way and is no object is replaced
/// by one.
pub open spec fn with_value(root: JsonView, parts: Seq<Seq<char>>, new_val: JsonView) -> JsonView
    decreases parts.len(),
{
    if parts.len() == 0 {
        new_val
    } else {
        let fields = match root {
            JsonView::Object(m) => m,
            _ => Map::empty(),
        };
        let child = if fields.contains_key(parts[0]) {
            fields[parts[0]]
        } else {
            JsonView::Null
        };
        JsonView::Object(fields.insert(parts[0], with_value(child, parts.skip(1), new_val)))
    }
}

/// The number that a value stands for: itself, or what its text spells.
pub open spec fn number_of(v: JsonView) -> Option<u64> {
    match v {
        JsonView::Number(n) => Some(json::number_bits(n)),
        JsonView::String(s) => json::float_of_text(s),
        _ => None,
    }
}

/// The number at a path.
pub open spec fn number_at(root: JsonView, path: Seq<char>) -> Option<u64> {
    match value_at(root, path_parts(path)) {
        Some(v) => number_of(v),
        None => None,
    }
}

/// The value that raw text stands for: text in single quotes, a document, a number, a truth value,
/// nothing, else text.
pub open spec fn raw_value(raw: Seq<char>) -> JsonView {
    let t = text::trimmed(raw);
    if t.len() >= 2 && t[0] == '\'' && t.last() == '\'' {
        JsonView::String(t.subrange(1, t.len() - 1))
    } else {
        match json::parsed_json(vstd::utf8::encode_utf8(t)) {
            Some(v) => v,
            None => match text::parsed_signed(t) {
                Some(n) => if n < 0 {
                    JsonView::Number(JsonNumber::NegInt(n as i64))
                } else {
                    JsonView::Number(JsonNumber::PosInt(n as u64))
                },
                None => match json::float_of_text(t) {
                    Some(bits) => if json::is_finite(bits) {
                        JsonView::Number(JsonNumber::Float(bits))
                    } else {
                        JsonView::String(t)
                    },
                    None => if text::same_ignoring_case(t, "true"@) {
                        JsonView::Bool(true)
                    } else if text::same_ignoring_case(t, "false"@) {
                        JsonView::Bool(false)
                    } else if text::same_ignoring_case(t, "null"@) {
                        JsonView::Null
                    } else {
                        JsonView::String(t)
                    },
                },
            },
        }
    }
}

proof fn lemma_fields_update(s: Seq<(String, JsonValue)>, at: int, v: JsonValue)
    requires
        0 <= at < s.len(),
        forall|j: int| at < j < s.len() ==> (#[trigger] s[j]).0@ != s[at].0@,
    ensures
        json::fields_view(s.update(at, (s[at].0, v))) == json::fields_view(s).insert(
            s[at].0@,
            json::json_view(v),
        ),
    decreases s.len(),
{
    let u = s.update(at, (s[at].0, v));
    let name = s[at].0@;
    if at == s.len() - 1 {
        assert(u.drop_last() =~= s.drop_last());
        assert(json::fields_view(u) =~= json::fields_view(s).insert(name, json::json_view(v)));
    } else {
        let p = s.drop_last();
        assert(u.drop_last() =~= p.update(at, (s[at].0, v)));
        assert forall|j: int| at < j < p.len() implies (#[trigger] p[j]).0@ != p[at].0@ by {
            assert(p[j] == s[j]);
        }
        lemma_fields_update(p, at, v);
        assert(s[s.len() - 1].0@ != name);
        assert(json::fields_view(u) =~= json::fields_view(s).insert(name, json::json_view(v)));
    }
}

/// A field taken out and put back in its place with another value.
fn replace_field(fields: Vec<(String, JsonValue)>, at: usize, value: JsonValue) -> (r: Vec<
    (String, JsonValue),
>)
    requires
        at < fields@.len(),
    ensures
        r@.len() == fields@.len(),
        forall|j: int| 0 <= j < r@.len() && j != at ==> #[trigger] r@[j] == fields@[j],
        r@[at as int] == (fields@[at as int].0, value),
{
    let mut out = fields;
    let ghost all = out@;
    let old_field = out.remove(at);
    out.insert(at, (old_field.0, value));
    assert(out@ =~= all.update(at as int, (all[at as int].0, value)));
    out
}

fn set_in(root: JsonValue, parts: &Vec<Vec<char>>, i: usize, new_val: JsonValue) -> (r: JsonValue)
    requires
        i < parts@.len(),
        json::doc_ok(root),
        json::doc_ok(new_val),
    ensures
        json::doc_ok(r),
        r@ == with_value(root@, text::pieces_view(parts@).skip(i as int), new_val@),
    decreases parts@.len() - i,
{
    let ghost pv = text::pieces_view(parts@);
    let ghost rest = pv.skip(i as int);
    proof {
        assert(rest[0] == parts@[i as int]@);
        assert(rest.skip(1) =~= pv.skip(i + 1));
    }
    let mut fields: Vec<(String, JsonValue)> = match root {
        JsonValue::Object(o) => o,
        _ => Vec::new(),
    };
    let ghost held = fields@;
    assert(!(root is Object) ==> json::fields_view(held) =~= Map::empty());
    let found = find_field(&fields, &parts[i]);
    let count: usize = parts.len();
    let last = i == count - 1;
    match found {
        Some(at) => {
            let child = if last {
                assert(rest.skip(1).len() == 0);
                new_val
            } else {
                let field = fields.remove(at);
                let name = field.0;
                let inner = field.1;
                proof {
                    assert(json::doc_ok(held[at as int].1));
                }
                let child = set_in(inner, parts, i + 1, new_val);
                fields.insert(at, (name, JsonValue::Null));
                assert(fields@ =~= held.update(at as int, (held[at as int].0, JsonValue::Null)));
                child
            };
            let ghost cv = child;
            let out = replace_field(fields, at, child);
            proof {
                assert(out@ =~= held.update(at as int, (held[at as int].0, cv)));
                lemma_fields_update(held, at as int, cv);
                assert(json::distinct_fields(out@)) by {
                    assert forall|a: int, b: int| 0 <= a < b < out@.len() implies (
                    #[trigger] out@[a]).0@ != (#[trigger] out@[b]).0@ by {
                        assert(held[a].0@ != held[b].0@);
                    }
                }
                assert forall|j: int| 0 <= j < out@.len() implies json::doc_ok(
                    (#[trigger] out@[j]).1,
                ) by {
                    if j != at {
                        assert(out@[j] == held[j]);
                    }
                }
            }
            JsonValue::Object(out)
        },
        None => {
            let child = if last {
                assert(rest.skip(1).len() == 0);
                new_val
            } else {
                set_in(JsonValue::Null, parts, i + 1, new_val)
            };
            let ghost cv = child;
            fields.push((text::string_of(&parts[i]), child));
            proof {
                assert(fields@.drop_last() =~= held);
                assert(json::distinct_fields(fields@)) by {
                    assert forall|a: int, b: int| 0 <= a < b < fields@.len() implies (
                    #[trigger] fields@[a]).0@ != (#[trigger] fields@[b]).0@ by {
                        assert(fields@[a] == held[a]);
                        if b < held.len() {
                            assert(fields@[b] == held[b]);
                        }
                    }
                }
                assert forall|j: int| 0 <= j < fields@.len() implies json::doc_ok(
                    (#[trigger] fields@[j]).1,
                ) by {
                    if j < held.len() {
                        assert(fields@[j] == held[j]);
                    }
                }
            }
            JsonValue::Object(fields)
        },
    }
}

/// An object with one field set.
pub fn with_field(root: JsonValue, name: &str, value: JsonValue) -> (r: JsonValue)
    requires
        json::doc_ok(root),
        json::doc_ok(value),
        root is Object,
    ensures
        r is Object,
        json::doc_ok(r),
        r@ == JsonView::Object(root@->Object_0.insert(name@, value@)),
{
    let mut parts: Vec<Vec<char>> = Vec::new();
    parts.push(text::chars_of(name));
    let ghost pv = text::pieces_view(parts@);
    proof {
        assert(pv.skip(0) =~= pv);
        assert(pv[0] == name@);
        assert(pv.skip(1).len() == 0);
        reveal_with_fuel(with_value, 2);
    }
    set_in(root, &parts, 0, value)
}

impl QueryFilter {
    /// Puts a value at a dotted path; objects are made on the way where there are none.
    pub fn set_json_path(root: JsonValue, path: &str, new_val: JsonValue) -> (r: JsonValue)
        requires
            json::doc_ok(root),
            json::doc_ok(new_val),
        ensures
            json::doc_ok(r),
            r@ == with_value(root@, path_parts(path@), new_val@),
    {
        let chars = text::chars_of(path);
        let dot = text::chars_of(".");
        proof {
            reveal_strlit(".");
        }
        let parts = text::split(&chars, &dot);
        assert(text::pieces_view(parts@).skip(0) =~= text::pieces_view(parts@));
        set_in(root, &parts, 0, new_val)
    }

    /// The number at a dotted path, as the bits of a double.
    pub fn extract_number(root: &JsonValue, path: &str) -> (r: Option<u64>)
        ensures
            r == number_at(root@, path@),
    {
        match QueryFilter::get_json_path(root, path) {
            Some(v) => match v {
                JsonValue::Number(n) => Some(n.to_bits()),
                JsonValue::String(s) => json::parse_float(s.as_str()),
                _ => None,
            },
            None => None,
        }
    }

    /// Reads raw text as a value.
    pub fn parse_json_value(raw: &str) -> (r: JsonValue)
        ensures
            json::doc_ok(r),
            r@ == raw_value(raw@),
    {
        let all = text::chars_of(raw);
        let t = text::trim(&all);
        let n: usize = t.len();
        if n >= 2 && t[0] == '\'' && t[n - 1] == '\'' {
            return JsonValue::String(text::string_of(&t[1..n - 1]));
        }
        let whole = text::string_of(t);
        if let Some(v) = JsonValue::parse(whole.as_str().as_bytes()) {
            return v;
        }
        if let Some(i) = text::parse_i64(t) {
            return if i < 0 {
                JsonValue::Number(JsonNumber::NegInt(i))
            } else {
                JsonValue::Number(JsonNumber::PosInt(i as u64))
            };
        }
        if let Some(bits) = json::parse_float(whole.as_str()) {
            return if bits % 0x8000_0000_0000_0000 < 0x7ff0_0000_0000_0000 {
                JsonValue::Number(JsonNumber::Float(bits))
            } else {
                JsonValue::String(whole)
            };
        }
        if eq_word(t, "true") {
            return JsonValue::Bool(true);
        }
        if eq_word(t, "false") {
            return JsonValue::Bool(false);
        }
        if eq_word(t, "null") {
            return JsonValue::Null;
        }
        JsonValue::String(whole)
    }
}

// ---------------------------------------------------------------------------------------------
// Laws
// ---------------------------------------------------------------------------------------------
/// What was put at a path is found there.
pub proof fn law_set_value_is_found(root: JsonView, parts: Seq<Seq<char>>, new_val: JsonView)
    ensures
        value_at(with_value(root, parts, new_val), parts) == Some(new_val),
    decreases parts.len(),
{
    if parts.len() > 0 {
        let fields = match root {
            JsonView::Object(m) => m,
            _ => Map::empty(),
        };
        let child = if fields.contains_key(parts[0]) {
            fields[parts[0]]
        } else {
            JsonView::Null
        };
        law_set_value_is_found(child, parts.skip(1), new_val);
    }
}

/// Putting a value at a path changes no value at a path that parts from it.
pub proof fn law_set_value_keeps_the_rest(
    root: JsonView,
    parts: Seq<Seq<char>>,
    new_val: JsonView,
    other: Seq<Seq<char>>,
    fork: int,
)
    requires
        0 <= fork < parts.len(),
        fork < other.len(),
        forall|i: int| 0 <= i < fork ==> parts[i] == #[trigger] other[i],
        parts[fork] != other[fork],
    ensures
        value_at(with_value(root, parts, new_val), other) == value_at(root, other),
    decreases parts.len(),
{
    let fields = match root {
        JsonView::Object(m) => m,
        _ => Map::empty(),
    };
    let child = if fields.contains_key(parts[0]) {
        fields[parts[0]]
    } else {
        JsonView::Null
    };
    if fork > 0 {
        assert(parts[0] == other[0]);
        assert forall|i: int| 0 <= i < fork - 1 implies parts.skip(1)[i]
            == #[trigger] other.skip(1)[i] by {
            assert(parts[i + 1] == other[i + 1]);
        }
        law_set_value_keeps_the_rest(child, parts.skip(1), new_val, other.skip(1), fork - 1);
        assert(value_at(JsonView::Null, other.skip(1)) is None);
    }
}

// ---------------------------------------------------------------------------------------------
// Laws
// ---------------------------------------------------------------------------------------------
/// That a value equals a literal and that it differs are opposites, as long as it can be told whether
/// the numbers are near, which it can of all but a NaN. Where there is no value, only that it differs
/// holds.
pub proof fn law_equal_and_different_are_opposites(
    path: Seq<char>,
    value: LiteralView,
    target: Option<JsonView>,
    near: spec_fn(u64, u64) -> Option<bool>,
)
    requires
        match target {
            Some(v) => match number_pair(value, v) {
                Some(pair) => near(pair.1, pair.0) is Some,
                None => true,
            },
            None => true,
        },
    ensures
        holds(ConditionView { path, op: Operator::Eq, value }, target, near) == !holds(
            ConditionView { path, op: Operator::Ne, value },
            target,
            near,
        ),
{
    if let Some(v) = target {
        if value is Number && v is Number {
            let near_enough = near(json::number_bits(v->Number_0), value->Number_0);
            assert(near_enough is Some);
            if near_enough->Some_0 {
                assert(near_enough == Some(true));
            } else {
                assert(near_enough == Some(false));
            }
        }
    }
}

/// Where there is no value at the path, a condition holds exactly where it asks for a difference.
pub proof fn law_nothing_only_differs(
    c: ConditionView,
    near: spec_fn(u64, u64) -> Option<bool>,
)
    ensures
        holds(c, None, near) <==> c.op == Operator::Ne,
{
}

/// A comparison holds only between numbers, and there at least is the opposite of below, at most
/// that of above.
pub proof fn law_comparisons_are_opposites(
    path: Seq<char>,
    value: LiteralView,
    v: JsonView,
    near: spec_fn(u64, u64) -> Option<bool>,
)
    ensures
        ({
            let of = |op: Operator| holds(ConditionView { path, op, value }, Some(v), near);
            &&& of(Operator::Gt) || of(Operator::Gte) || of(Operator::Lt) || of(Operator::Lte)
                ==> number_pair(value, v) is Some
            &&& match number_pair(value, v) {
                Some(pair) => json::is_nan(pair.0) || json::is_nan(pair.1) || of(Operator::Gte)
                    == !of(Operator::Lt) && of(Operator::Lte) == !of(Operator::Gt),
                None => true,
            }
        }),
{
}

proof fn lemma_conjunctions(parts: Seq<Seq<char>>, n: int)
    requires
        0 <= n <= parts.len(),
    ensures
        match conjunctions_of(parts, n) {
            Ok(list) => list.len() == n && forall|i: int|
                0 <= i < n ==> conjunction_of(#[trigger] parts[i]) == Ok::<
                    ExpressionView,
                    ErrorView,
                >(list[i]),
            Err(_) => exists|i: int| 0 <= i < n && conjunction_of(#[trigger] parts[i]) is Err,
        },
    decreases n,
{
    if n > 0 {
        lemma_conjunctions(parts, n - 1);
        if conjunctions_of(parts, n - 1) is Ok && conjunction_of(parts[n - 1]) is Err {
            assert(conjunction_of(parts[n - 1]) is Err);
        }
    }
}

proof fn lemma_conditions(parts: Seq<Seq<char>>, n: int)
    requires
        0 <= n <= parts.len(),
    ensures
        match conditions_of(parts, n) {
            Ok(list) => list.len() == n && forall|i: int|
                0 <= i < n ==> (condition_of(#[trigger] parts[i]) matches Ok(c) && list[i]
                    == ExpressionView::Single(c)),
            Err(_) => exists|i: int| 0 <= i < n && condition_of(#[trigger] parts[i]) is Err,
        },
    decreases n,
{
    if n > 0 {
        lemma_conditions(parts, n - 1);
        if conditions_of(parts, n - 1) is Ok && condition_of(parts[n - 1]) is Err {
            assert(condition_of(parts[n - 1]) is Err);
        }
    }
}

proof fn lemma_one_piece(s: Seq<char>, sep: Seq<char>)
    requires
        sep.len() > 0,
        text::pieces(s, sep).len() <= 1,
    ensures
        text::pieces(s, sep) == seq![s],
{
    text::lemma_place_of(s, sep, 0);
    if let Some(i) = text::place_of(s, sep, 0) {
        lemma_some_piece(s.skip(i + sep.len()), sep);
    }
}

proof fn lemma_some_piece(s: Seq<char>, sep: Seq<char>)
    ensures
        text::pieces(s, sep).len() > 0,
{
}

/// Every piece spells a conjunction.
spec fn all_conjunctions(parts: Seq<Seq<char>>) -> bool {
    forall|i: int| 0 <= i < parts.len() ==> conjunction_of(#[trigger] parts[i]) is Ok
}

/// One of the conjunctions that some pieces spell is met.
spec fn one_met(
    parts: Seq<Seq<char>>,
    root: JsonView,
    near: spec_fn(u64, u64) -> Option<bool>,
) -> bool {
    exists|i: int|
        0 <= i < parts.len() && meets(conjunction_of(#[trigger] parts[i])->Ok_0, root, near)
}

/// Every piece spells a condition.
spec fn all_conditions(parts: Seq<Seq<char>>) -> bool {
    forall|i: int| 0 <= i < parts.len() ==> condition_of(#[trigger] parts[i]) is Ok
}

/// All the conditions that some pieces spell hold.
spec fn all_met(
    parts: Seq<Seq<char>>,
    root: JsonView,
    near: spec_fn(u64, u64) -> Option<bool>,
) -> bool {
    forall|i: int|
        0 <= i < parts.len() ==> meets(
            ExpressionView::Single(condition_of(#[trigger] parts[i])->Ok_0),
            root,
            near,
        )
}

proof fn lemma_one_met(
    a: Seq<Seq<char>>,
    b: Seq<Seq<char>>,
    root: JsonView,
    near: spec_fn(u64, u64) -> Option<bool>,
)
    ensures
        one_met(a + b, root, near) <==> one_met(a, root, near) || one_met(b, root, near),
        all_conjunctions(a) && all_conjunctions(b) ==> all_conjunctions(a + b),
{
    let all = a + b;
    if one_met(a, root, near) {
        let i = choose|i: int|
            0 <= i < a.len() && meets(conjunction_of(#[trigger] a[i])->Ok_0, root, near);
        assert(all[i] == a[i]);
    }
    if one_met(b, root, near) {
        let i = choose|i: int|
            0 <= i < b.len() && meets(conjunction_of(#[trigger] b[i])->Ok_0, root, near);
        assert(all[a.len() + i] == b[i]);
    }
    if one_met(all, root, near) {
        let i = choose|i: int|
            0 <= i < all.len() && meets(conjunction_of(#[trigger] all[i])->Ok_0, root, near);
        if i < a.len() {
            assert(all[i] == a[i]);
        } else {
            assert(all[i] == b[i - a.len()]);
        }
    }
}

proof fn lemma_all_met(
    a: Seq<Seq<char>>,
    b: Seq<Seq<char>>,
    root: JsonView,
    near: spec_fn(u64, u64) -> Option<bool>,
)
    ensures
        all_met(a + b, root, near) <==> all_met(a, root, near) && all_met(b, root, near),
        all_conditions(a) && all_conditions(b) ==> all_conditions(a + b),
{
    let all = a + b;
    if all_met(all, root, near) {
        assert forall|i: int| 0 <= i < a.len() implies meets(
            ExpressionView::Single(condition_of(#[trigger] a[i])->Ok_0),
            root,
            near,
        ) by {
            assert(all[i] == a[i]);
        }
        assert forall|i: int| 0 <= i < b.len() implies meets(
            ExpressionView::Single(condition_of(#[trigger] b[i])->Ok_0),
            root,
            near,
        ) by {
            assert(all[a.len() + i] == b[i]);
        }
    }
}

/// An expression of which one part is to be met is met where one is.
proof fn lemma_meets_or(
    parts: Seq<Seq<char>>,
    list: Seq<ExpressionView>,
    root: JsonView,
    near: spec_fn(u64, u64) -> Option<bool>,
)
    requires
        list.len() == parts.len(),
        forall|i: int|
            0 <= i < parts.len() ==> conjunction_of(#[trigger] parts[i]) == Ok::<
                ExpressionView,
                ErrorView,
            >(list[i]),
    ensures
        meets(ExpressionView::Or(list), root, near) <==> one_met(parts, root, near),
{
    let e = ExpressionView::Or(list);
    if meets(e, root, near) {
        let i = choose|i: int|
            0 <= i < e->Or_0.len() && meets(#[trigger] e->Or_0[i], root, near);
        assert(conjunction_of(parts[i])->Ok_0 == list[i]);
    }
    if one_met(parts, root, near) {
        let i = choose|i: int|
            0 <= i < parts.len() && meets(conjunction_of(#[trigger] parts[i])->Ok_0, root, near);
        lemma_or_meets(list, root, near, i);
    }
}

/// An expression of which all parts are to be met is met where all are.
proof fn lemma_meets_and(
    parts: Seq<Seq<char>>,
    list: Seq<ExpressionView>,
    root: JsonView,
    near: spec_fn(u64, u64) -> Option<bool>,
)
    requires
        list.len() == parts.len(),
        forall|i: int|
            0 <= i < parts.len() ==> (condition_of(#[trigger] parts[i]) matches Ok(c) && list[i]
                == ExpressionView::Single(c)),
    ensures
        meets(ExpressionView::And(list), root, near) <==> all_met(parts, root, near),
{
    let e = ExpressionView::And(list);
    if meets(e, root, near) {
        assert forall|i: int| 0 <= i < parts.len() implies meets(
            ExpressionView::Single(condition_of(#[trigger] parts[i])->Ok_0),
            root,
            near,
        ) by {
            if !meets(list[i], root, near) {
                lemma_and_fails(list, root, near, i);
            }
        }
    }
    if all_met(parts, root, near) {
        assert forall|i: int| 0 <= i < e->And_0.len() implies meets(
            #[trigger] e->And_0[i],
            root,
            near,
        ) by {
            assert(condition_of(parts[i]) is Ok);
        }
    }
}

/// What the conjunctions that the pieces of a text spell mean together: one of them is met.
proof fn lemma_or(t: Seq<char>, root: JsonView, near: spec_fn(u64, u64) -> Option<bool>)
    requires
        t.len() > 0,
        text::trimmed(t) == t,
    ensures
        filter_of(t) is Ok <==> all_conjunctions(text::pieces(t, " OR "@)),
        filter_of(t) matches Ok(e) ==> (meets(e, root, near) <==> one_met(
            text::pieces(t, " OR "@),
            root,
            near,
        )),
{
    reveal_strlit(" OR ");
    let parts = text::pieces(t, " OR "@);
    lemma_conjunctions(parts, parts.len() as int);
    if parts.len() > 1 {
        if let Ok(list) = conjunctions_of(parts, parts.len() as int) {
            lemma_meets_or(parts, list, root, near);
        }
    } else {
        lemma_one_piece(t, " OR "@);
        assert(parts[0] == t);
    }
}

/// What the conditions that the pieces of a text spell mean together: all of them hold.
proof fn lemma_and(t: Seq<char>, root: JsonView, near: spec_fn(u64, u64) -> Option<bool>)
    ensures
        conjunction_of(t) is Ok <==> all_conditions(text::pieces(t, " AND "@)),
        conjunction_of(t) matches Ok(e) ==> (meets(e, root, near) <==> all_met(
            text::pieces(t, " AND "@),
            root,
            near,
        )),
{
    reveal_strlit(" AND ");
    let parts = text::pieces(t, " AND "@);
    lemma_conditions(parts, parts.len() as int);
    if parts.len() > 1 {
        if let Ok(list) = conditions_of(parts, parts.len() as int) {
            lemma_meets_and(parts, list, root, near);
        }
    } else {
        lemma_one_piece(t, " AND "@);
        assert(parts[0] == t);
    }
}

/// Two queries joined by `OR` are met where one of them is, as long as the word does not reach over
/// the joint.
pub proof fn law_or_means_either(
    x: Seq<char>,
    y: Seq<char>,
    root: JsonView,
    near: spec_fn(u64, u64) -> Option<bool>,
)
    requires
        x.len() > 0,
        y.len() > 0,
        text::trimmed(x) == x,
        text::trimmed(y) == y,
        text::joins(x, " OR "@, y),
        filter_of(x) is Ok,
        filter_of(y) is Ok,
    ensures
        filter_of(x + " OR "@ + y) matches Ok(e) && (meets(e, root, near) <==> meets(
            filter_of(x)->Ok_0,
            root,
            near,
        ) || meets(filter_of(y)->Ok_0, root, near)),
{
    reveal_strlit(" OR ");
    let all = x + " OR "@ + y;
    text::lemma_trimmed_twice(x);
    text::lemma_trimmed_twice(y);
    assert(all[0] == x[0] && all.last() == y.last());
    text::lemma_trimmed_id(all);
    text::lemma_joined_pieces(x, " OR "@, y);
    lemma_or(x, root, near);
    lemma_or(y, root, near);
    lemma_or(all, root, near);
    lemma_one_met(text::pieces(x, " OR "@), text::pieces(y, " OR "@), root, near);
}

/// Two queries without `OR` joined by `AND` are met where both are, as long as the word does not
/// reach over the joint.
pub proof fn law_and_means_both(
    x: Seq<char>,
    y: Seq<char>,
    root: JsonView,
    near: spec_fn(u64, u64) -> Option<bool>,
)
    requires
        x.len() > 0,
        y.len() > 0,
        text::trimmed(x) == x,
        text::trimmed(y) == y,
        text::joins(x, " AND "@, y),
        text::place_of(x + " AND "@ + y, " OR "@, 0) is None,
        filter_of(x) is Ok,
        filter_of(y) is Ok,
    ensures
        filter_of(x + " AND "@ + y) matches Ok(e) && (meets(e, root, near) <==> meets(
            filter_of(x)->Ok_0,
            root,
            near,
        ) && meets(filter_of(y)->Ok_0, root, near)),
{
    reveal_strlit(" AND ");
    reveal_strlit(" OR ");
    let all = x + " AND "@ + y;
    let n = all.len() as int;
    text::lemma_trimmed_twice(x);
    text::lemma_trimmed_twice(y);
    assert(all[0] == x[0] && all.last() == y.last());
    text::lemma_trimmed_id(all);
    assert(all.subrange(0, x.len() as int) =~= x);
    assert(all.subrange(n - y.len(), n) =~= y);
    text::lemma_part_without(all, 0, x.len() as int, " OR "@);
    text::lemma_part_without(all, n - y.len(), n, " OR "@);
    assert(filter_of(all) == conjunction_of(all));
    assert(filter_of(x) == conjunction_of(x));
    assert(filter_of(y) == conjunction_of(y));
    text::lemma_joined_pieces(x, " AND "@, y);
    lemma_and(x, root, near);
    lemma_and(y, root, near);
    lemma_and(all, root, near);
    lemma_all_met(text::pieces(x, " AND "@), text::pieces(y, " AND "@), root, near);
}

} // verus!
