//! Builds the table tree from a token sequence.
//!
//! A single pass over the significant tokens (all but white space, line
//! breaks and comments) with one current insertion path: `[a.b]` sets it,
//! `[[a.b]]` appends a new table to the array `a.b` and sets it, and each
//! `key = value` lands in the table that the path reaches, through the last
//! table of an array where the path passes one.
use vstd::prelude::*;
use crate::config::toml_lexer::{Token, TokenV, ScalarV, Value as LValue, tokens_view, find_from};
use crate::text::{chars_of, string_of};
use crate::config::{Config, ConfigV, ConfigError, ConfigErrorV};
use crate::config::config_parser::{config_of, parse_config, lookup};
use crate::config::{ErrorKind, parse_error_kind};
use crate::config::toml_lexer::{lex, tokenize};

verus! {

/// A value of the table tree.
#[derive(Debug, PartialEq)]
pub enum Value {
    /// Text.
    String(String),
    /// A whole number.
    Integer(i64),
    /// A floating-point number, held as the text that was written.
    Float(String),
    /// `true` or `false`.
    Bool(bool),
    /// A timestamp, held as text.
    DateTime(String),
    /// An ordered list of values.
    Array(Vec<Value>),
    /// A table of key-value pairs.
    Table(Table),
}

/// A collection of key-value pairs, each key at most once. `insert` keeps
/// the pairs in the order of their keys, and so does the parser at every
/// depth (`deep_ordered`): tables with the same pairs hold them in the same
/// order and compare equal.
#[derive(Debug, PartialEq)]
pub struct Table {
    entries: Vec<(String, Value)>,
}

/// The root table of a configuration text.
pub type TopLevelTable = Table;

/// The model of a tree value.
pub enum TomlV {
    Str(Seq<char>),
    Int(int),
    Float(Seq<char>),
    Bool(bool),
    DateTime(Seq<char>),
    Arr(Seq<TomlV>),
    Tbl(Map<Seq<char>, TomlV>),
}

/// The model of a tree value.
pub open spec fn value_view(v: Value) -> TomlV
    decreases v,
{
    match v {
        Value::String(s) => TomlV::Str(s@),
        Value::Integer(i) => TomlV::Int(i as int),
        Value::Float(t) => TomlV::Float(t@),
        Value::Bool(b) => TomlV::Bool(b),
        Value::DateTime(t) => TomlV::DateTime(t@),
        Value::Array(a) => TomlV::Arr(array_view(a@)),
        Value::Table(t) => TomlV::Tbl(t.view()),
    }
}

pub closed spec fn array_view(s: Seq<Value>) -> Seq<TomlV>
    decreases s,
{
    if s.len() == 0 {
        Seq::empty()
    } else {
        array_view(s.subrange(0, s.len() - 1)).push(value_view(s[s.len() - 1]))
    }
}

/// Later pairs take the place of earlier ones with the same key.
spec fn entries_view(s: Seq<(String, Value)>) -> Map<Seq<char>, TomlV>
    decreases s,
{
    if s.len() == 0 {
        Map::empty()
    } else {
        entries_view(s.subrange(0, s.len() - 1)).insert(s[s.len() - 1].0@, value_view(s[s.len() - 1].1))
    }
}

/// Whether every table in `v`, at every depth, holds its pairs in the
/// order of their keys.
pub open spec fn value_ordered(v: Value) -> bool
    decreases v,
{
    match v {
        Value::Array(a) => all_ordered(a@),
        Value::Table(t) => t.deep_ordered(),
        _ => true,
    }
}

/// Whether each value is ordered at every depth.
pub closed spec fn all_ordered(s: Seq<Value>) -> bool
    decreases s,
{
    if s.len() == 0 {
        true
    } else {
        all_ordered(s.subrange(0, s.len() - 1)) && value_ordered(s[s.len() - 1])
    }
}

spec fn entries_ordered(s: Seq<(String, Value)>) -> bool
    decreases s,
{
    if s.len() == 0 {
        true
    } else {
        entries_ordered(s.subrange(0, s.len() - 1)) && value_ordered(s[s.len() - 1].1)
    }
}

proof fn lemma_all_ordered(s: Seq<Value>)
    ensures
        all_ordered(s) <==> forall|i: int| 0 <= i < s.len() ==> value_ordered(#[trigger] s[i]),
    decreases s.len(),
{
    if s.len() > 0 {
        let d = s.subrange(0, s.len() - 1);
        lemma_all_ordered(d);
        if forall|i: int| 0 <= i < s.len() ==> value_ordered(#[trigger] s[i]) {
            assert forall|i: int| 0 <= i < d.len() implies value_ordered(#[trigger] d[i]) by {
                assert(d[i] == s[i]);
            }
        }
        if all_ordered(s) {
            assert forall|i: int| 0 <= i < s.len() implies value_ordered(#[trigger] s[i]) by {
                if i < s.len() - 1 {
                    assert(d[i] == s[i]);
                }
            }
        }
    }
}

proof fn lemma_entries_ordered(s: Seq<(String, Value)>)
    ensures
        entries_ordered(s) <==> forall|i: int| 0 <= i < s.len() ==> value_ordered(#[trigger] s[i].1),
    decreases s.len(),
{
    if s.len() > 0 {
        let d = s.subrange(0, s.len() - 1);
        lemma_entries_ordered(d);
        if forall|i: int| 0 <= i < s.len() ==> value_ordered(#[trigger] s[i].1) {
            assert forall|i: int| 0 <= i < d.len() implies value_ordered(#[trigger] d[i].1) by {
                assert(d[i] == s[i]);
            }
        }
        if entries_ordered(s) {
            assert forall|i: int| 0 <= i < s.len() implies value_ordered(#[trigger] s[i].1) by {
                if i < s.len() - 1 {
                    assert(d[i] == s[i]);
                }
            }
        }
    }
}

impl View for Value {
    type V = TomlV;

    open spec fn view(&self) -> TomlV {
        value_view(*self)
    }
}

impl View for Table {
    type V = Map<Seq<char>, TomlV>;

    closed spec fn view(&self) -> Map<Seq<char>, TomlV>
        decreases self,
    {
        entries_view(self.entries@)
    }
}

/// The token that the parser required.
#[derive(Debug, Clone, Copy, PartialEq, Eq, Structural)]
pub enum Expected {
    Equal,
    Value,
    SectionName,
    RBracket,
    DoubleRBracket,
}

/// Why a token sequence was refused.
#[derive(Debug, PartialEq)]
pub enum ParseError {
    /// Another token stood where `expected` was required.
    UnexpectedToken { expected: Expected, found: Token },
    /// The tokens ended where `expected` was required.
    UnexpectedEnd { expected: Expected },
    /// A key was given twice in one table.
    DuplicateKey { key: String },
    /// A key on the insertion path holds neither a table nor an array of tables.
    NotATable { key: String },
    /// The key of an array-of-tables header holds something else.
    NotAnArrayOfTables { key: String },
    /// The lexer refused the text, with its message.
    Lexical { message: String },
}

/// The model of a parse error.
pub enum ParseErrorV {
    UnexpectedToken(Expected, TokenV),
    UnexpectedEnd(Expected),
    DuplicateKey(Seq<char>),
    NotATable(Seq<char>),
    NotAnArrayOfTables(Seq<char>),
    Lexical(Seq<char>),
}

impl View for ParseError {
    type V = ParseErrorV;

    open spec fn view(&self) -> ParseErrorV {
        match self {
            ParseError::UnexpectedToken { expected, found } => ParseErrorV::UnexpectedToken(*expected, found@),
            ParseError::UnexpectedEnd { expected } => ParseErrorV::UnexpectedEnd(*expected),
            ParseError::DuplicateKey { key } => ParseErrorV::DuplicateKey(key@),
            ParseError::NotATable { key } => ParseErrorV::NotATable(key@),
            ParseError::NotAnArrayOfTables { key } => ParseErrorV::NotAnArrayOfTables(key@),
            ParseError::Lexical { message } => ParseErrorV::Lexical(message@),
        }
    }
}

/// The model of a table.
pub type TableV = Map<Seq<char>, TomlV>;

/// The tree value of a scalar token.
pub open spec fn scalar_view(v: ScalarV) -> TomlV {
    match v {
        ScalarV::Bool(b) => TomlV::Bool(b),
        ScalarV::Str(s) => TomlV::Str(s),
        ScalarV::Int(i) => TomlV::Int(i),
        ScalarV::Float(t) => TomlV::Float(t),
    }
}

/// White space, line breaks and comments play no part in the grammar.
pub open spec fn significant(t: TokenV) -> bool {
    !(t is Whitespace || t is Newline || t is Comment)
}

/// The index of the first significant token at or after `i`, or the length.
pub open spec fn skip_to_significant(ts: Seq<TokenV>, i: int) -> int
    decreases ts.len() - i,
{
    if 0 <= i < ts.len() && !significant(ts[i]) {
        skip_to_significant(ts, i + 1)
    } else {
        i
    }
}

proof fn lemma_skip(ts: Seq<TokenV>, i: int)
    requires
        0 <= i <= ts.len(),
    ensures
        i <= skip_to_significant(ts, i) <= ts.len(),
        skip_to_significant(ts, i) < ts.len() ==> significant(ts[skip_to_significant(ts, i)]),
    decreases ts.len() - i,
{
    if i < ts.len() && !significant(ts[i]) {
        lemma_skip(ts, i + 1);
    }
}

/// Whether the tokens end at `i`: none is left, or the end-of-input token stands there.
pub open spec fn ends_at(ts: Seq<TokenV>, i: int) -> bool {
    i < 0 || i >= ts.len() || ts[i] is EOF
}

/// The parts of a dotted name.
pub open spec fn split_dots(s: Seq<char>) -> Seq<Seq<char>>
    decreases s.len(),
{
    let d = crate::config::toml_lexer::find_from(s, 0, '.');
    if d < 0 || d >= s.len() {
        seq![s]
    } else {
        seq![s.subrange(0, d)] + split_dots(s.subrange(d + 1, s.len() as int))
    }
}

/// Inserts `key = v` into the table that `path` reaches from `t`, creating
/// tables on the way and passing through the last table of an array.
/// A key that is already there is refused.
pub open spec fn insert_path(t: TableV, path: Seq<Seq<char>>, key: Seq<char>, v: TomlV) -> Result<TableV, ParseErrorV>
    decreases path.len(),
{
    if path.len() == 0 {
        if t.contains_key(key) {
            Err(ParseErrorV::DuplicateKey(key))
        } else {
            Ok(t.insert(key, v))
        }
    } else {
        let p = path[0];
        let child = if t.contains_key(p) { t[p] } else { TomlV::Tbl(Map::empty()) };
        match child {
            TomlV::Tbl(m) => match insert_path(m, path.drop_first(), key, v) {
                Ok(m2) => Ok(t.insert(p, TomlV::Tbl(m2))),
                Err(e) => Err(e),
            },
            TomlV::Arr(a) => {
                if a.len() > 0 && a.last() is Tbl {
                    match insert_path(a.last()->Tbl_0, path.drop_first(), key, v) {
                        Ok(m2) => Ok(t.insert(p, TomlV::Arr(a.update(a.len() - 1, TomlV::Tbl(m2))))),
                        Err(e) => Err(e),
                    }
                } else {
                    Err(ParseErrorV::NotATable(p))
                }
            },
            _ => Err(ParseErrorV::NotATable(p)),
        }
    }
}

/// Appends an empty table to the array that `keys` names, creating the
/// tables on the way and the array itself where they are missing.
pub open spec fn append_table(t: TableV, keys: Seq<Seq<char>>) -> Result<TableV, ParseErrorV>
    decreases keys.len(),
{
    if keys.len() == 0 {
        Ok(t)
    } else if keys.len() == 1 {
        let k = keys[0];
        let cur = if t.contains_key(k) { t[k] } else { TomlV::Arr(Seq::empty()) };
        match cur {
            TomlV::Arr(a) => Ok(t.insert(k, TomlV::Arr(a.push(TomlV::Tbl(Map::empty()))))),
            _ => Err(ParseErrorV::NotAnArrayOfTables(k)),
        }
    } else {
        let k = keys[0];
        let cur = if t.contains_key(k) { t[k] } else { TomlV::Tbl(Map::empty()) };
        match cur {
            TomlV::Tbl(m) => match append_table(m, keys.drop_first()) {
                Ok(m2) => Ok(t.insert(k, TomlV::Tbl(m2))),
                Err(e) => Err(e),
            },
            _ => Err(ParseErrorV::NotATable(k)),
        }
    }
}

/// The values of an inline list from `i` on, after those in `acc`, and the
/// index after its `]`. A list that ends, or that another token cuts short,
/// before its `]` is an unexpected end.
pub open spec fn list_values(ts: Seq<TokenV>, i: int, acc: Seq<TomlV>) -> Result<(Seq<TomlV>, int), ParseErrorV>
    decreases ts.len() - i,
{
    let j = skip_to_significant(ts, i);
    if i < 0 || j < i || ends_at(ts, j) {
        Err(ParseErrorV::UnexpectedEnd(Expected::RBracket))
    } else {
        match ts[j] {
            TokenV::Value(v) => list_values(ts, j + 1, acc.push(scalar_view(v))),
            TokenV::Comma => list_values(ts, j + 1, acc),
            TokenV::RBracket => Ok((acc, j + 1)),
            _ => Err(ParseErrorV::UnexpectedEnd(Expected::RBracket)),
        }
    }
}

/// The significant token at or after `i`, which must be `expected`; the
/// index after it.
pub open spec fn expect_at(ts: Seq<TokenV>, i: int, expected: Expected) -> Result<int, ParseErrorV> {
    let j = skip_to_significant(ts, i);
    if ends_at(ts, j) {
        Err(ParseErrorV::UnexpectedEnd(expected))
    } else if (match expected {
        Expected::Equal => ts[j] is Equal,
        Expected::RBracket => ts[j] is RBracket,
        Expected::DoubleRBracket => ts[j] is DoubleRBracket,
        Expected::Value => ts[j] is Value,
        Expected::SectionName => ts[j] is SectionName,
    }) {
        Ok(j + 1)
    } else {
        Err(ParseErrorV::UnexpectedToken(expected, ts[j]))
    }
}

/// A header `[name]` or `[[name]]` from `i` on, after its opening bracket:
/// the parts of the name and the index after the closing bracket.
pub open spec fn header_at(ts: Seq<TokenV>, i: int, close: Expected) -> Result<(Seq<Seq<char>>, int), ParseErrorV> {
    match expect_at(ts, i, Expected::SectionName) {
        Err(e) => Err(e),
        Ok(n) => match expect_at(ts, n, close) {
            Err(e) => Err(e),
            Ok(m) => Ok((split_dots(ts[skip_to_significant(ts, i)]->SectionName_0), m)),
        },
    }
}

/// The parse from the significant token at or after `i` on, with the root
/// table `root` and the insertion path `ctx`.
pub open spec fn parse_from(ts: Seq<TokenV>, i: int, root: TableV, ctx: Seq<Seq<char>>) -> Result<TableV, ParseErrorV>
    decreases ts.len() - i,
{
    let j = skip_to_significant(ts, i);
    if i < 0 || ends_at(ts, j) {
        Ok(root)
    } else {
        match ts[j] {
            TokenV::Key(k) => match expect_at(ts, j + 1, Expected::Equal) {
                Err(e) => Err(e),
                Ok(n) => {
                    let f = skip_to_significant(ts, n);
                    if ends_at(ts, f) {
                        Err(ParseErrorV::UnexpectedEnd(Expected::Value))
                    } else if ts[f] is LBracket {
                        match list_values(ts, f + 1, Seq::empty()) {
                            Err(e) => Err(e),
                            Ok((vs, m)) => match insert_path(root, ctx, k, TomlV::Arr(vs)) {
                                Err(e) => Err(e),
                                Ok(root2) => if i < m <= ts.len() { parse_from(ts, m, root2, ctx) } else { Ok(root2) },
                            },
                        }
                    } else if ts[f] is Value {
                        match insert_path(root, ctx, k, scalar_view(ts[f]->Value_0)) {
                            Err(e) => Err(e),
                            Ok(root2) => if f + 1 > i { parse_from(ts, f + 1, root2, ctx) } else { Ok(root2) },
                        }
                    } else {
                        Err(ParseErrorV::UnexpectedToken(Expected::Value, ts[f]))
                    }
                },
            },
            TokenV::LBracket => match header_at(ts, j + 1, Expected::RBracket) {
                Err(e) => Err(e),
                Ok((keys, m)) => if m > i { parse_from(ts, m, root, keys) } else { Ok(root) },
            },
            TokenV::DoubleLBracket => match header_at(ts, j + 1, Expected::DoubleRBracket) {
                Err(e) => Err(e),
                Ok((keys, m)) => match append_table(root, keys) {
                    Err(e) => Err(e),
                    Ok(root2) => if m > i { parse_from(ts, m, root2, keys) } else { Ok(root2) },
                },
            },
            _ => if j + 1 > i { parse_from(ts, j + 1, root, ctx) } else { Ok(root) },
        }
    }
}

/// The table that a token sequence describes.
pub open spec fn parse_tokens(ts: Seq<TokenV>) -> Result<TableV, ParseErrorV> {
    parse_from(ts, 0, Map::empty(), Seq::empty())
}

proof fn lemma_array_push(s: Seq<Value>, x: Value)
    ensures
        array_view(s.push(x)) == array_view(s).push(value_view(x)),
{
    assert(s.push(x).subrange(0, s.len() as int) =~= s);
}

pub(crate) proof fn lemma_array_len(s: Seq<Value>)
    ensures
        array_view(s).len() == s.len(),
        forall|i: int| 0 <= i < s.len() ==> array_view(s)[i] == value_view(#[trigger] s[i]),
    decreases s.len(),
{
    if s.len() > 0 {
        let d = s.subrange(0, s.len() - 1);
        lemma_array_len(d);
        assert forall|i: int| 0 <= i < s.len() implies array_view(s)[i] == value_view(#[trigger] s[i]) by {
            if i < s.len() - 1 {
                assert(d[i] == s[i]);
            }
        }
    }
}

/// The model of a table holds exactly the keys of its pairs.
proof fn lemma_entries_keys(s: Seq<(String, Value)>, k: Seq<char>)
    ensures
        entries_view(s).contains_key(k) <==> exists|i: int| 0 <= i < s.len() && (#[trigger] s[i]).0@ == k,
    decreases s.len(),
{
    if s.len() > 0 {
        let d = s.subrange(0, s.len() - 1);
        lemma_entries_keys(d, k);
        if entries_view(s).contains_key(k) {
            if s[s.len() - 1].0@ != k {
                let i = choose|i: int| 0 <= i < d.len() && (#[trigger] d[i]).0@ == k;
                assert(s[i] == d[i]);
            }
        }
        if exists|i: int| 0 <= i < s.len() && (#[trigger] s[i]).0@ == k {
            let i = choose|i: int| 0 <= i < s.len() && (#[trigger] s[i]).0@ == k;
            if i < s.len() - 1 {
                assert(d[i] == s[i]);
            }
        }
    }
}

/// The model gives a key the value of its last pair.
proof fn lemma_entries_last(s: Seq<(String, Value)>, i: int)
    requires
        0 <= i < s.len(),
        forall|j: int| i < j < s.len() ==> (#[trigger] s[j]).0@ != s[i].0@,
    ensures
        entries_view(s).contains_key(s[i].0@),
        entries_view(s)[s[i].0@] == value_view(s[i].1),
    decreases s.len(),
{
    let d = s.subrange(0, s.len() - 1);
    if i < s.len() - 1 {
        assert(d[i] == s[i]);
        assert forall|j: int| i < j < d.len() implies (#[trigger] d[j]).0@ != d[i].0@ by {
            assert(d[j] == s[j]);
        }
        lemma_entries_last(d, i);
        assert(s[s.len() - 1].0@ != s[i].0@);
    }
}

/// Replacing the last pair of a key replaces its value in the model.
proof fn lemma_entries_update(s: Seq<(String, Value)>, i: int, e: (String, Value))
    requires
        0 <= i < s.len(),
        e.0@ == s[i].0@,
        forall|j: int| i < j < s.len() ==> (#[trigger] s[j]).0@ != s[i].0@,
    ensures
        entries_view(s.update(i, e)) == entries_view(s).insert(e.0@, value_view(e.1)),
    decreases s.len(),
{
    let u = s.update(i, e);
    let d = s.subrange(0, s.len() - 1);
    if i == s.len() - 1 {
        assert(u.subrange(0, u.len() - 1) =~= d);
        let a = entries_view(u);
        let b = entries_view(s).insert(e.0@, value_view(e.1));
        assert(a =~= b);
    } else {
        assert(d[i] == s[i]);
        assert forall|j: int| i < j < d.len() implies (#[trigger] d[j]).0@ != d[i].0@ by {
            assert(d[j] == s[j]);
        }
        lemma_entries_update(d, i, e);
        assert(u.subrange(0, u.len() - 1) =~= d.update(i, e));
        assert(s[s.len() - 1].0@ != e.0@);
        assert(entries_view(u) =~= entries_view(s).insert(e.0@, value_view(e.1)));
    }
}

/// Adding a pair with a new key anywhere adds it to the model.
proof fn lemma_entries_insert(s: Seq<(String, Value)>, p: int, e: (String, Value))
    requires
        0 <= p <= s.len(),
        forall|j: int| 0 <= j < s.len() ==> (#[trigger] s[j]).0@ != e.0@,
    ensures
        entries_view(s.insert(p, e)) == entries_view(s).insert(e.0@, value_view(e.1)),
    decreases s.len(),
{
    let u = s.insert(p, e);
    if p == s.len() {
        assert(u.subrange(0, u.len() - 1) =~= s);
    } else {
        let d = s.subrange(0, s.len() - 1);
        assert forall|j: int| 0 <= j < d.len() implies (#[trigger] d[j]).0@ != e.0@ by {
            assert(d[j] == s[j]);
        }
        lemma_entries_insert(d, p, e);
        assert(u.subrange(0, u.len() - 1) =~= d.insert(p, e));
        assert(u[u.len() - 1] == s[s.len() - 1]);
        assert(s[s.len() - 1].0@ != e.0@);
        assert(entries_view(u) =~= entries_view(s).insert(e.0@, value_view(e.1)));
    }
}

/// Whether `a` comes before `b` in the order of their characters, from
/// index `i` on.
pub open spec fn key_lt_from(a: Seq<char>, b: Seq<char>, i: int) -> bool
    decreases a.len() - i,
{
    if i < 0 || i >= a.len() {
        0 <= i < b.len()
    } else if i >= b.len() {
        false
    } else if a[i] != b[i] {
        a[i] < b[i]
    } else {
        key_lt_from(a, b, i + 1)
    }
}

/// Whether `a` comes before `b` in the order of their characters.
pub open spec fn key_lt(a: Seq<char>, b: Seq<char>) -> bool {
    key_lt_from(a, b, 0)
}

/// Two different keys are ordered one way or the other.
proof fn lemma_key_lt_total(a: Seq<char>, b: Seq<char>, i: int)
    requires
        0 <= i <= a.len(),
        i <= b.len(),
    ensures
        key_lt_from(a, b, i) || key_lt_from(b, a, i)
            || a.subrange(i, a.len() as int) =~= b.subrange(i, b.len() as int),
    decreases a.len() - i,
{
    if i < a.len() && i < b.len() && a[i] == b[i] {
        lemma_key_lt_total(a, b, i + 1);
        if a.subrange(i + 1, a.len() as int) =~= b.subrange(i + 1, b.len() as int) {
            assert(a.subrange(i, a.len() as int) =~= seq![a[i]] + a.subrange(i + 1, a.len() as int));
            assert(b.subrange(i, b.len() as int) =~= seq![b[i]] + b.subrange(i + 1, b.len() as int));
        }
    }
}

/// Whether `a` comes before `b` in the order of their characters.
fn key_less(a: &str, b: &str) -> (r: bool)
    ensures
        r == key_lt(a@, b@),
{
    let n = a.unicode_len();
    let m = b.unicode_len();
    let mut i: usize = 0;
    while i < n && i < m
        invariant
            n == a@.len(),
            m == b@.len(),
            i <= n && i <= m,
            key_lt_from(a@, b@, i as int) == key_lt(a@, b@),
        decreases n - i,
    {
        let x = a.get_char(i);
        let y = b.get_char(i);
        if x != y {
            return x < y;
        }
        i = i + 1;
    }
    proof {
        assert(i == n || i == m);
        assert(key_lt_from(a@, b@, i as int) == (n < m));
    }
    n < m
}

/// Whether the pairs stand in the order of their keys.
pub open spec fn pairs_ordered(s: Seq<(String, Value)>) -> bool {
    forall|j: int| 0 <= j < s.len() - 1 ==> key_lt(#[trigger] s[j].0@, s[j + 1].0@)
}

/// The index of the last pair with key `key`.
fn find_last(entries: &Vec<(String, Value)>, key: &str) -> (r: Option<usize>)
    ensures
        r matches Some(i) ==> i < entries@.len() && entries@[i as int].0@ == key@
            && forall|j: int| i < j < entries@.len() ==> (#[trigger] entries@[j]).0@ != key@,
        r is None ==> forall|j: int| 0 <= j < entries@.len() ==> (#[trigger] entries@[j]).0@ != key@,
{
    let mut i = entries.len();
    while i > 0
        invariant
            i <= entries@.len(),
            forall|j: int| i <= j < entries@.len() ==> (#[trigger] entries@[j]).0@ != key@,
        decreases i,
    {
        if crate::text::str_eq(entries[i - 1].0.as_str(), key) {
            return Some(i - 1);
        }
        i = i - 1;
    }
    None
}

impl Table {
    /// Whether the pairs stand in the order of their keys.
    pub closed spec fn ordered(&self) -> bool {
        pairs_ordered(self.entries@)
    }

    /// Whether this table and every table in it hold their pairs in the
    /// order of their keys.
    pub closed spec fn deep_ordered(&self) -> bool
        decreases self,
    {
        pairs_ordered(self.entries@) && entries_ordered(self.entries@)
    }

    /// An empty table.
    pub fn new() -> (r: Self)
        ensures
            r@ == Map::<Seq<char>, TomlV>::empty(),
            r.ordered(),
            r.deep_ordered(),
    {
        Table { entries: Vec::new() }
    }

    /// Whether the table holds no pair.
    pub fn is_empty(&self) -> (r: bool)
        ensures
            r == (self@ == Map::<Seq<char>, TomlV>::empty()),
    {
        proof {
            if self.entries@.len() > 0 {
                lemma_entries_keys(self.entries@, self.entries@[0].0@);
                assert(self@.contains_key(self.entries@[0].0@));
            } else {
                assert(self@ =~= Map::<Seq<char>, TomlV>::empty());
            }
        }
        self.entries.len() == 0
    }

    /// The value of `key`, if the table holds it.
    pub fn get(&self, key: &str) -> (r: Option<&Value>)
        ensures
            r is Some <==> self@.contains_key(key@),
            r matches Some(v) ==> self@[key@] == v@,
    {
        match find_last(&self.entries, key) {
            Some(i) => {
                proof {
                    lemma_entries_last(self.entries@, i as int);
                }
                Some(&self.entries[i].1)
            },
            None => {
                proof {
                    lemma_entries_keys(self.entries@, key@);
                }
                None
            },
        }
    }

    /// Adds `key = value`. A key that the table holds already is refused and
    /// the table stays as it was: a pair is never overwritten.
    pub fn insert(&mut self, key: String, value: Value) -> (r: Result<(), ParseError>)
        ensures
            old(self)@.contains_key(key@) ==> r == Err::<(), ParseError>(ParseError::DuplicateKey { key })
                && final(self)@ == old(self)@,
            !old(self)@.contains_key(key@) ==> r is Ok && final(self)@ == old(self)@.insert(key@, value@),
            old(self).ordered() ==> final(self).ordered(),
            old(self).deep_ordered() && value_ordered(value) ==> final(self).deep_ordered(),
    {
        match find_last(&self.entries, key.as_str()) {
            Some(i) => {
                proof {
                    lemma_entries_keys(self.entries@, key@);
                }
                Err(ParseError::DuplicateKey { key })
            },
            None => {
                proof {
                    lemma_entries_keys(self.entries@, key@);
                }
                let ghost s0 = self.entries@;
                let mut p: usize = 0;
                while p < self.entries.len() && !key_less(key.as_str(), self.entries[p].0.as_str())
                    invariant
                        p <= self.entries@.len(),
                        self.entries@ == s0,
                        forall|j: int| 0 <= j < p ==> !key_lt(key@, (#[trigger] s0[j]).0@),
                    decreases self.entries@.len() - p,
                {
                    p = p + 1;
                }
                proof {
                    lemma_entries_insert(self.entries@, p as int, (key, value));
                }
                self.entries.insert(p, (key, value));
                proof {
                    let s1 = self.entries@;
                    lemma_entries_ordered(s0);
                    lemma_entries_ordered(s1);
                    if entries_ordered(s0) && value_ordered(value) {
                        assert forall|j: int| 0 <= j < s1.len() implies value_ordered(#[trigger] s1[j].1) by {
                            if j < p {
                                assert(s1[j] == s0[j]);
                            } else if j > p {
                                assert(s1[j] == s0[j - 1]);
                            }
                        }
                    }
                    if pairs_ordered(s0) {
                        if p > 0 {
                            lemma_key_lt_total(key@, s0[p - 1].0@, 0);
                            assert(key@.subrange(0, key@.len() as int) =~= key@);
                            assert(s0[p - 1].0@.subrange(0, s0[p - 1].0@.len() as int) =~= s0[p - 1].0@);
                        }
                        assert forall|j: int| 0 <= j < s1.len() - 1 implies key_lt(#[trigger] s1[j].0@, s1[j + 1].0@) by {
                            if j < p as int - 1 {
                                assert(s1[j] == s0[j] && s1[j + 1] == s0[j + 1]);
                            } else if j > p {
                                assert(s1[j] == s0[j - 1] && s1[j + 1] == s0[j]);
                            }
                        }
                    }
                }
                Ok(())
            },
        }
    }
}

/// The characters of each string.
pub open spec fn strings_view(v: Seq<String>) -> Seq<Seq<char>> {
    v.map_values(|s: String| s@)
}

/// Whether a result of the library agrees with a result of the model.
pub open spec fn table_result_is(r: Result<Table, ParseError>, m: Result<TableV, ParseErrorV>) -> bool {
    match m {
        Ok(t) => r is Ok && r->Ok_0@ == t,
        Err(e) => r is Err && r->Err_0@ == e,
    }
}

pub(crate) proof fn lemma_table_value(t: Table)
    ensures
        value_view(Value::Table(t)) == TomlV::Tbl(t@),
{
}

pub(crate) proof fn lemma_array_value(a: Vec<Value>)
    ensures
        value_view(Value::Array(a)) == TomlV::Arr(array_view(a@)),
{
}

/// Replacing the value of a pair keeps a table ordered.
proof fn lemma_update_keeps_order(s: Seq<(String, Value)>, i: int, e: (String, Value))
    requires
        0 <= i < s.len(),
        e.0@ == s[i].0@,
        pairs_ordered(s),
        entries_ordered(s),
        value_ordered(e.1),
    ensures
        pairs_ordered(s.update(i, e)),
        entries_ordered(s.update(i, e)),
{
    let u = s.update(i, e);
    lemma_entries_ordered(s);
    lemma_entries_ordered(u);
    assert forall|j: int| 0 <= j < u.len() - 1 implies key_lt(#[trigger] u[j].0@, u[j + 1].0@) by {
        assert(key_lt(s[j].0@, s[j + 1].0@));
    }
    assert forall|j: int| 0 <= j < u.len() implies value_ordered(#[trigger] u[j].1) by {
        if j != i {
            assert(u[j] == s[j]);
        }
    }
}

/// Inserts `key = value` into the table that `context[depth..]` reaches
/// from `root`.
fn insert_into_table(root: Table, context: &Vec<String>, depth: usize, key: &String, value: Value) -> (r: Result<Table, ParseError>)
    requires
        depth <= context@.len(),
    ensures
        table_result_is(
            r,
            insert_path(root@, strings_view(context@).subrange(depth as int, context@.len() as int), key@, value@),
        ),
        root.deep_ordered() && value_ordered(value) ==> (r matches Ok(t) ==> t.deep_ordered()),
    decreases context@.len() - depth,
{
    let ghost path = strings_view(context@).subrange(depth as int, context@.len() as int);
    if depth == context.len() {
        let mut t = root;
        return match t.insert(key.clone(), value) {
            Ok(()) => Ok(t),
            Err(e) => Err(e),
        };
    }
    proof {
        assert(path[0] == context@[depth as int]@);
        assert(path.drop_first() =~= strings_view(context@).subrange(depth + 1, context@.len() as int));
    }
    let part = &context[depth];
    let ghost t0 = root@;
    let ghost ordered = root.deep_ordered() && value_ordered(value);
    let mut entries = root.entries;
    proof {
        lemma_entries_ordered(entries@);
    }
    match find_last(&entries, part.as_str()) {
        None => {
            proof {
                lemma_entries_keys(entries@, part@);
            }
            let child = match insert_into_table(Table::new(), context, depth + 1, key, value) {
                Ok(c) => c,
                Err(e) => return Err(e),
            };
            let mut t = Table { entries };
            let ghost c = child;
            match t.insert(part.clone(), Value::Table(child)) {
                Ok(()) => {
                    proof {
                        lemma_table_value(c);
                    }
                    Ok(t)
                },
                Err(e) => Err(e),
            }
        },
        Some(i) => {
            proof {
                lemma_entries_last(entries@, i as int);
            }
            let ghost s0 = entries@;
            let (k, v) = entries.remove(i);
            proof {
                assert(s0[i as int] == (k, v));
            }
            match v {
                Value::Table(t) => {
                    proof {
                        lemma_table_value(t);
                    }
                    let t2 = match insert_into_table(t, context, depth + 1, key, value) {
                        Ok(c) => c,
                        Err(e) => return Err(e),
                    };
                    let ghost e = (k, Value::Table(t2));
                    proof {
                        lemma_table_value(t2);
                        lemma_entries_update(s0, i as int, e);
                        if ordered {
                            lemma_update_keeps_order(s0, i as int, e);
                        }
                    }
                    entries.insert(i, (k, Value::Table(t2)));
                    proof {
                        assert(entries@ =~= s0.update(i as int, e));
                    }
                    Ok(Table { entries })
                },
                Value::Array(mut a) => {
                    proof {
                        lemma_array_value(a);
                        lemma_array_len(a@);
                    }
                    let ghost a0 = a@;
                    proof {
                        lemma_all_ordered(a0);
                    }
                    match a.pop() {
                        Some(Value::Table(t)) => {
                            proof {
                                lemma_table_value(t);
                                assert(array_view(a0).last() == value_view(Value::Table(t)));
                            }
                            let t2 = match insert_into_table(t, context, depth + 1, key, value) {
                                Ok(c) => c,
                                Err(e) => return Err(e),
                            };
                            let ghost before_push = a@;
                            a.push(Value::Table(t2));
                            proof {
                                lemma_table_value(t2);
                                assert(before_push =~= a0.subrange(0, a0.len() - 1));
                                lemma_array_push(before_push, Value::Table(t2));
                                assert(array_view(a@) =~= array_view(a0).update(a0.len() - 1, TomlV::Tbl(t2@)));
                                lemma_array_value(a);
                            }
                            let ghost e = (k, Value::Array(a));
                            proof {
                                lemma_entries_update(s0, i as int, e);
                                if ordered {
                                    lemma_all_ordered(a@);
                                    assert forall|j: int| 0 <= j < a@.len() implies value_ordered(#[trigger] a@[j]) by {
                                        if j < a@.len() - 1 {
                                            assert(a@[j] == a0[j]);
                                        }
                                    }
                                    lemma_update_keeps_order(s0, i as int, e);
                                }
                            }
                            entries.insert(i, (k, Value::Array(a)));
                            proof {
                                assert(entries@ =~= s0.update(i as int, e));
                            }
                            Ok(Table { entries })
                        },
                        Some(other) => {
                            proof {
                                assert(array_view(a0).last() == value_view(other));
                            }
                            Err(ParseError::NotATable { key: part.clone() })
                        },
                        None => Err(ParseError::NotATable { key: part.clone() }),
                    }
                },
                _ => Err(ParseError::NotATable { key: part.clone() }),
            }
        },
    }
}

/// Appends an empty table to the array that `keys[depth..]` names in `root`.
fn append_array_table(root: Table, keys: &Vec<String>, depth: usize) -> (r: Result<Table, ParseError>)
    requires
        depth <= keys@.len(),
    ensures
        table_result_is(r, append_table(root@, strings_view(keys@).subrange(depth as int, keys@.len() as int))),
        root.deep_ordered() ==> (r matches Ok(t) ==> t.deep_ordered()),
    decreases keys@.len() - depth,
{
    let ghost path = strings_view(keys@).subrange(depth as int, keys@.len() as int);
    if depth == keys.len() {
        return Ok(root);
    }
    proof {
        assert(path[0] == keys@[depth as int]@);
        assert(path.drop_first() =~= strings_view(keys@).subrange(depth + 1, keys@.len() as int));
    }
    let part = &keys[depth];
    let last = depth + 1 == keys.len();
    let ghost ordered = root.deep_ordered();
    let mut entries = root.entries;
    proof {
        lemma_entries_ordered(entries@);
    }
    match find_last(&entries, part.as_str()) {
        None => {
            proof {
                lemma_entries_keys(entries@, part@);
            }
            let fresh = if last {
                let mut a: Vec<Value> = Vec::new();
                let empty = Table::new();
                let ghost g = empty;
                a.push(Value::Table(empty));
                proof {
                    lemma_array_push(Seq::empty(), a@[0]);
                    assert(Seq::<Value>::empty().push(a@[0]) =~= a@);
                    assert(array_view(Seq::<Value>::empty()) =~= Seq::<TomlV>::empty());
                    lemma_table_value(g);
                    lemma_array_value(a);
                    lemma_all_ordered(a@);
                }
                Value::Array(a)
            } else {
                let child = match append_array_table(Table::new(), keys, depth + 1) {
                    Ok(c) => c,
                    Err(e) => return Err(e),
                };
                proof {
                    lemma_table_value(child);
                }
                Value::Table(child)
            };
            let mut t = Table { entries };
            match t.insert(part.clone(), fresh) {
                Ok(()) => Ok(t),
                Err(e) => Err(e),
            }
        },
        Some(i) => {
            proof {
                lemma_entries_last(entries@, i as int);
            }
            let ghost s0 = entries@;
            let (k, v) = entries.remove(i);
            proof {
                assert(s0[i as int] == (k, v));
            }
            if last {
                match v {
                    Value::Array(mut a) => {
                        proof {
                            lemma_array_value(a);
                        }
                        let ghost a0 = a@;
                        let empty = Table::new();
                        let ghost g = empty;
                        a.push(Value::Table(empty));
                        proof {
                            lemma_array_push(a0, a@[a0.len() as int]);
                            assert(a0.push(a@[a0.len() as int]) =~= a@);
                            lemma_table_value(g);
                            lemma_array_value(a);
                        }
                        let ghost e = (k, Value::Array(a));
                        proof {
                            lemma_entries_update(s0, i as int, e);
                            if ordered {
                                lemma_entries_ordered(s0);
                                assert(value_ordered(s0[i as int].1));
                                assert(all_ordered(a0));
                                assert(a@.subrange(0, a@.len() - 1) =~= a0);
                                assert(a@[a@.len() - 1] == Value::Table(g));
                                assert(value_ordered(Value::Table(g)));
                                assert(all_ordered(a@));
                                lemma_update_keeps_order(s0, i as int, e);
                            }
                        }
                        entries.insert(i, (k, Value::Array(a)));
                        proof {
                            assert(entries@ =~= s0.update(i as int, e));
                        }
                        Ok(Table { entries })
                    },
                    _ => Err(ParseError::NotAnArrayOfTables { key: part.clone() }),
                }
            } else {
                match v {
                    Value::Table(t) => {
                        proof {
                            lemma_table_value(t);
                        }
                        let t2 = match append_array_table(t, keys, depth + 1) {
                            Ok(c) => c,
                            Err(e) => return Err(e),
                        };
                        let ghost e = (k, Value::Table(t2));
                        proof {
                            lemma_table_value(t2);
                            lemma_entries_update(s0, i as int, e);
                            if ordered {
                                lemma_update_keeps_order(s0, i as int, e);
                            }
                        }
                        entries.insert(i, (k, Value::Table(t2)));
                        proof {
                            assert(entries@ =~= s0.update(i as int, e));
                        }
                        Ok(Table { entries })
                    },
                    _ => Err(ParseError::NotATable { key: part.clone() }),
                }
            }
        },
    }
}

proof fn lemma_find_shift(cs: Seq<char>, start: int, i: int, c: char)
    requires
        0 <= start <= cs.len(),
        0 <= i <= cs.len() - start,
    ensures
        find_from(cs.subrange(start, cs.len() as int), i, c) == find_from(cs, start + i, c) - start,
    decreases cs.len() - start - i,
{
    let t = cs.subrange(start, cs.len() as int);
    if i < t.len() {
        assert(t[i] == cs[start + i]);
        if t[i] != c {
            lemma_find_shift(cs, start, i + 1, c);
        }
    }
}

/// The parts of a dotted section name.
pub(crate) fn parse_section_keys(section_name: &String) -> (r: Vec<String>)
    ensures
        strings_view(r@) == split_dots(section_name@),
{
    let cs = chars_of(section_name.as_str());
    let mut keys: Vec<String> = Vec::new();
    let mut start: usize = 0;
    proof {
        assert(cs@.subrange(0, cs@.len() as int) =~= cs@);
        assert(strings_view(keys@) =~= Seq::<Seq<char>>::empty());
        assert(strings_view(keys@) + split_dots(cs@) =~= split_dots(cs@));
    }
    loop
        invariant
            cs@ == section_name@,
            start <= cs@.len(),
            strings_view(keys@) + split_dots(cs@.subrange(start as int, cs@.len() as int)) == split_dots(cs@),
        decreases cs@.len() - start,
    {
        let ghost rest = cs@.subrange(start as int, cs@.len() as int);
        let d = crate::config::toml_lexer::find_char(cs.as_slice(), start, '.');
        proof {
            crate::config::toml_lexer::lemma_find_from(cs@, start as int, '.');
            lemma_find_shift(cs@, start as int, 0, '.');
        }
        let part = string_of(vstd::slice::slice_subrange(cs.as_slice(), start, d));
        proof {
            assert(rest.subrange(0, d - start) =~= cs@.subrange(start as int, d as int));
            assert(strings_view(keys@.push(part)) =~= strings_view(keys@).push(part@));
        }
        keys.push(part);
        if d == cs.len() {
            proof {
                assert(split_dots(rest) == seq![rest]);
                assert(rest =~= cs@.subrange(start as int, d as int));
                assert(strings_view(keys@) =~= strings_view(keys@.drop_last()) + seq![rest]);
            }
            return keys;
        }
        proof {
            assert(rest.subrange(d - start + 1, rest.len() as int) =~= cs@.subrange(d + 1, cs@.len() as int));
            assert(strings_view(keys@) + split_dots(cs@.subrange(d + 1, cs@.len() as int))
                =~= strings_view(keys@.drop_last()) + split_dots(rest));
        }
        start = d + 1;
    }
}

/// The tree value of a scalar token.
fn from_scalar(v: &LValue) -> (r: Value)
    ensures
        r@ == scalar_view(v@),
{
    match v {
        LValue::Bool(b) => Value::Bool(*b),
        LValue::String(t) => Value::String(t.clone()),
        LValue::Integer(i) => Value::Integer(*i),
        LValue::Float(t) => Value::Float(t.clone()),
    }
}

/// A copy of a token, for an error report.
fn copy_token(t: &Token) -> (r: Token)
    ensures
        r@ == t@,
{
    match t {
        Token::Key(k) => Token::Key(k.clone()),
        Token::Equal => Token::Equal,
        Token::Value(v) => Token::Value(match v {
            LValue::Bool(b) => LValue::Bool(*b),
            LValue::String(x) => LValue::String(x.clone()),
            LValue::Integer(i) => LValue::Integer(*i),
            LValue::Float(x) => LValue::Float(x.clone()),
        }),
        Token::Comma => Token::Comma,
        Token::LBracket => Token::LBracket,
        Token::RBracket => Token::RBracket,
        Token::DoubleLBracket => Token::DoubleLBracket,
        Token::DoubleRBracket => Token::DoubleRBracket,
        Token::SectionName(x) => Token::SectionName(x.clone()),
        Token::Whitespace => Token::Whitespace,
        Token::Comment(x) => Token::Comment(x.clone()),
        Token::Newline => Token::Newline,
        Token::EOF => Token::EOF,
        Token::Error(x) => Token::Error(x.clone()),
    }
}

proof fn lemma_list_bound(ts: Seq<TokenV>, i: int, acc: Seq<TomlV>)
    requires
        0 <= i <= ts.len(),
    ensures
        list_values(ts, i, acc) matches Ok((vs, m)) ==> i < m <= ts.len(),
    decreases ts.len() - i,
{
    lemma_skip(ts, i);
    let j = skip_to_significant(ts, i);
    if !ends_at(ts, j) {
        match ts[j] {
            TokenV::Value(v) => lemma_list_bound(ts, j + 1, acc.push(scalar_view(v))),
            TokenV::Comma => lemma_list_bound(ts, j + 1, acc),
            _ => {},
        }
    }
}

/// Builds the table tree from a token sequence.
pub struct Parser {
    /// The tokens, as the lexer gave them.
    tokens: Vec<Token>,
}

impl Parser {
    /// The models of the tokens.
    pub closed spec fn tokens(&self) -> Seq<TokenV> {
        tokens_view(self.tokens@)
    }

    pub fn new(tokens: Vec<Token>) -> (r: Self)
        ensures
            r.tokens() == tokens_view(tokens@),
    {
        Parser { tokens }
    }

    /// Whether a token plays a part in the grammar.
    fn token_is_significant(tok: &Token) -> (r: bool)
        ensures
            r == significant(tok@),
    {
        match tok {
            Token::Whitespace | Token::Newline | Token::Comment(_) => false,
            _ => true,
        }
    }

    /// The index of the next significant token at or after `pos`, or the
    /// number of tokens.
    fn next_significant_token(&self, pos: usize) -> (r: usize)
        requires
            pos <= self.tokens@.len(),
        ensures
            r == skip_to_significant(self.tokens(), pos as int),
            pos <= r <= self.tokens@.len(),
    {
        let mut i = pos;
        while i < self.tokens.len() && !Self::token_is_significant(&self.tokens[i])
            invariant
                pos <= i <= self.tokens@.len(),
                skip_to_significant(self.tokens(), i as int) == skip_to_significant(self.tokens(), pos as int),
            decreases self.tokens@.len() - i,
        {
            proof {
                assert(self.tokens()[i as int] == self.tokens@[i as int]@);
            }
            i = i + 1;
        }
        proof {
            if i < self.tokens@.len() {
                assert(self.tokens()[i as int] == self.tokens@[i as int]@);
            }
        }
        i
    }

    /// Whether the tokens end at `i`.
    fn ends_at(&self, i: usize) -> (r: bool)
        ensures
            r == ends_at(self.tokens(), i as int),
    {
        if i >= self.tokens.len() {
            return true;
        }
        proof {
            assert(self.tokens()[i as int] == self.tokens@[i as int]@);
        }
        match &self.tokens[i] {
            Token::EOF => true,
            _ => false,
        }
    }

    /// The next significant token from `pos` on, without moving past it.
    fn look_ahead_significant_token(&self, pos: usize) -> (r: Option<&Token>)
        requires
            pos <= self.tokens@.len(),
        ensures
            ({
                let j = skip_to_significant(self.tokens(), pos as int);
                &&& j < self.tokens().len() ==> (r matches Some(t) && t@ == self.tokens()[j])
                &&& j >= self.tokens().len() ==> r is None
            }),
    {
        let j = self.next_significant_token(pos);
        if j < self.tokens.len() {
            proof {
                assert(self.tokens()[j as int] == self.tokens@[j as int]@);
            }
            Some(&self.tokens[j])
        } else {
            None
        }
    }

    /// The next significant token from `pos` on must be `expected`; the
    /// index after it.
    fn expect_token(&self, pos: usize, expected: Expected) -> (r: Result<usize, ParseError>)
        requires
            pos <= self.tokens@.len(),
        ensures
            match expect_at(self.tokens(), pos as int, expected) {
                Ok(n) => r == Ok::<usize, ParseError>(n as usize) && n <= self.tokens@.len(),
                Err(e) => r is Err && r->Err_0@ == e,
            },
            r matches Ok(n) ==> n == skip_to_significant(self.tokens(), pos as int) + 1 && pos < n,
    {
        let j = self.next_significant_token(pos);
        proof {
            assert(self.tokens().len() == self.tokens@.len());
        }
        if j >= self.tokens.len() || self.ends_at(j) {
            return Err(ParseError::UnexpectedEnd { expected });
        }
        proof {
            assert(j < self.tokens@.len());
            assert(self.tokens()[j as int] == self.tokens@[j as int]@);
        }
        let tok = &self.tokens[j];
        let ok = match (expected, tok) {
            (Expected::Equal, Token::Equal) => true,
            (Expected::RBracket, Token::RBracket) => true,
            (Expected::DoubleRBracket, Token::DoubleRBracket) => true,
            (Expected::Value, Token::Value(_)) => true,
            (Expected::SectionName, Token::SectionName(_)) => true,
            _ => false,
        };
        if ok {
            Ok(j + 1)
        } else {
            Err(ParseError::UnexpectedToken { expected, found: copy_token(tok) })
        }
    }

    /// The next significant token from `pos` on must be a value: the value
    /// and the index after it.
    fn expect_value_token(&self, pos: usize) -> (r: Result<(&LValue, usize), ParseError>)
        requires
            pos <= self.tokens@.len(),
        ensures
            match expect_at(self.tokens(), pos as int, Expected::Value) {
                Ok(n) => r is Ok && r->Ok_0.1 == n && n <= self.tokens@.len()
                    && r->Ok_0.0@ == self.tokens()[n - 1]->Value_0
                    && n - 1 == skip_to_significant(self.tokens(), pos as int) && pos < n,
                Err(e) => r is Err && r->Err_0@ == e,
            },
    {
        proof {
            lemma_skip(self.tokens(), pos as int);
        }
        let n = match self.expect_token(pos, Expected::Value) {
            Ok(n) => n,
            Err(e) => return Err(e),
        };
        proof {
            assert(self.tokens()[n - 1] == self.tokens@[n - 1]@);
        }
        match &self.tokens[n - 1] {
            Token::Value(v) => Ok((v, n)),
            _ => Err(ParseError::UnexpectedEnd { expected: Expected::Value }),
        }
    }

    /// The next significant token from `pos` on must be a section name: the
    /// name and the index after it.
    fn expect_section_name_token(&self, pos: usize) -> (r: Result<(&String, usize), ParseError>)
        requires
            pos <= self.tokens@.len(),
        ensures
            match expect_at(self.tokens(), pos as int, Expected::SectionName) {
                Ok(n) => r is Ok && r->Ok_0.1 == n && n <= self.tokens@.len()
                    && r->Ok_0.0@ == self.tokens()[n - 1]->SectionName_0
                    && n - 1 == skip_to_significant(self.tokens(), pos as int) && pos < n,
                Err(e) => r is Err && r->Err_0@ == e,
            },
    {
        proof {
            lemma_skip(self.tokens(), pos as int);
        }
        let n = match self.expect_token(pos, Expected::SectionName) {
            Ok(n) => n,
            Err(e) => return Err(e),
        };
        proof {
            assert(self.tokens()[n - 1] == self.tokens@[n - 1]@);
        }
        match &self.tokens[n - 1] {
            Token::SectionName(s) => Ok((s, n)),
            _ => Err(ParseError::UnexpectedEnd { expected: Expected::SectionName }),
        }
    }

    /// The values of an inline list from `start` on, after its `[`, put at
    /// `key` under the table that `context` reaches; the index after its `]`.
    fn parse_value_list(&self, start: usize, root: Table, context: &Vec<String>, key: &String) -> (r: Result<(Table, usize), ParseError>)
        requires
            start <= self.tokens@.len(),
        ensures
            match list_values(self.tokens(), start as int, Seq::empty()) {
                Err(e) => r is Err && r->Err_0@ == e,
                Ok((vs, m)) => match insert_path(root@, strings_view(context@), key@, TomlV::Arr(vs)) {
                    Err(e) => r is Err && r->Err_0@ == e,
                    Ok(t) => r is Ok && r->Ok_0.0@ == t && r->Ok_0.1 == m && start < m <= self.tokens@.len(),
                },
            },
            root.deep_ordered() ==> (r matches Ok((t, m)) ==> t.deep_ordered()),
    {
        let ghost ts = self.tokens();
        proof {
            lemma_list_bound(ts, start as int, Seq::empty());
        }
        let mut values: Vec<Value> = Vec::new();
        let mut i = start;
        proof {
            assert(array_view(values@) =~= Seq::<TomlV>::empty());
        }
        loop
            invariant
                start <= i <= self.tokens@.len(),
                ts == self.tokens(),
                list_values(ts, i as int, array_view(values@)) == list_values(ts, start as int, Seq::empty()),
                forall|j: int| 0 <= j < values@.len() ==> value_ordered(#[trigger] values@[j]),
            decreases self.tokens@.len() - i,
        {
            let j = self.next_significant_token(i);
            proof {
                lemma_skip(ts, i as int);
                assert(ts.len() == self.tokens@.len());
            }
            if j >= self.tokens.len() || self.ends_at(j) {
                return Err(ParseError::UnexpectedEnd { expected: Expected::RBracket });
            }
            proof {
                assert(ts[j as int] == self.tokens@[j as int]@);
            }
            match &self.tokens[j] {
                Token::Value(v) => {
                    let x = from_scalar(v);
                    proof {
                        lemma_array_push(values@, x);
                    }
                    values.push(x);
                    i = j + 1;
                },
                Token::Comma => {
                    i = j + 1;
                },
                Token::RBracket => {
                    proof {
                        lemma_all_ordered(values@);
                    }
                    let list = Value::Array(values);
                    proof {
                        lemma_array_value(values);
                    }
                    return match insert_into_table(root, context, 0, key, list) {
                        Ok(t) => {
                            proof {
                                assert(strings_view(context@).subrange(0, context@.len() as int) =~= strings_view(context@));
                            }
                            Ok((t, j + 1))
                        },
                        Err(e) => {
                            proof {
                                assert(strings_view(context@).subrange(0, context@.len() as int) =~= strings_view(context@));
                            }
                            Err(e)
                        },
                    };
                },
                _ => {
                    return Err(ParseError::UnexpectedEnd { expected: Expected::RBracket });
                },
            }
        }
    }

    /// The table tree that the tokens describe.
    pub fn parse(&self) -> (r: Result<TopLevelTable, ParseError>)
        ensures
            table_result_is(r, parse_tokens(self.tokens())),
            r matches Ok(t) ==> t.deep_ordered(),
    {
        let ghost ts = self.tokens();
        let mut root = Table::new();
        let mut context: Vec<String> = Vec::new();
        let mut pos: usize = 0;
        proof {
            assert(strings_view(context@) =~= Seq::<Seq<char>>::empty());
        }
        loop
            invariant
                pos <= self.tokens@.len(),
                ts == self.tokens(),
                parse_from(ts, pos as int, root@, strings_view(context@)) == parse_tokens(ts),
                root.deep_ordered(),
            decreases self.tokens@.len() - pos,
        {
            let ghost ctx = strings_view(context@);
            let j = self.next_significant_token(pos);
            proof {
                lemma_skip(ts, pos as int);
                assert(ts.len() == self.tokens@.len());
            }
            if j >= self.tokens.len() || self.ends_at(j) {
                return Ok(root);
            }
            proof {
                assert(ts[j as int] == self.tokens@[j as int]@);
            }
            match &self.tokens[j] {
                Token::Key(key) => {
                    let n = match self.expect_token(j + 1, Expected::Equal) {
                        Ok(n) => n,
                        Err(e) => return Err(e),
                    };
                    let is_value_list = match self.look_ahead_significant_token(n) {
                        None => return Err(ParseError::UnexpectedEnd { expected: Expected::Value }),
                        Some(Token::EOF) => return Err(ParseError::UnexpectedEnd { expected: Expected::Value }),
                        Some(Token::LBracket) => true,
                        Some(_) => false,
                    };
                    let f = self.next_significant_token(n);
                    if is_value_list {
                        match self.parse_value_list(f + 1, root, &context, key) {
                            Ok((t, m)) => {
                                root = t;
                                pos = m;
                            },
                            Err(e) => return Err(e),
                        }
                    } else {
                        let (v, m) = match self.expect_value_token(n) {
                            Ok(x) => x,
                            Err(e) => return Err(e),
                        };
                        let x = from_scalar(v);
                        match insert_into_table(root, &context, 0, key, x) {
                            Ok(t) => {
                                proof {
                                    assert(strings_view(context@).subrange(0, context@.len() as int) =~= ctx);
                                }
                                root = t;
                                pos = m;
                            },
                            Err(e) => {
                                proof {
                                    assert(strings_view(context@).subrange(0, context@.len() as int) =~= ctx);
                                }
                                return Err(e);
                            },
                        }
                    }
                },
                Token::LBracket => {
                    let (name, n) = match self.expect_section_name_token(j + 1) {
                        Ok(x) => x,
                        Err(e) => return Err(e),
                    };
                    let m = match self.expect_token(n, Expected::RBracket) {
                        Ok(m) => m,
                        Err(e) => return Err(e),
                    };
                    context = parse_section_keys(name);
                    pos = m;
                },
                Token::DoubleLBracket => {
                    let (name, n) = match self.expect_section_name_token(j + 1) {
                        Ok(x) => x,
                        Err(e) => return Err(e),
                    };
                    let m = match self.expect_token(n, Expected::DoubleRBracket) {
                        Ok(m) => m,
                        Err(e) => return Err(e),
                    };
                    let keys = parse_section_keys(name);
                    match append_array_table(root, &keys, 0) {
                        Ok(t) => {
                            proof {
                                assert(strings_view(keys@).subrange(0, keys@.len() as int) =~= strings_view(keys@));
                            }
                            root = t;
                        },
                        Err(e) => {
                            proof {
                                assert(strings_view(keys@).subrange(0, keys@.len() as int) =~= strings_view(keys@));
                            }
                            return Err(e);
                        },
                    }
                    context = keys;
                    pos = m;
                },
                _ => {
                    pos = j + 1;
                },
            }
        }
    }
}

/// The message of the first lexical error among the tokens.
pub open spec fn first_error(ts: Seq<TokenV>) -> Option<Seq<char>>
    decreases ts.len(),
{
    if ts.len() == 0 {
        None
    } else if ts[0] is Error {
        Some(ts[0]->Error_0)
    } else {
        first_error(ts.drop_first())
    }
}

/// The configuration that a text holds: lexed, built into a table tree and
/// read; a lexical error anywhere refuses the whole text.
pub open spec fn config_of_text(text: Seq<char>) -> Result<ConfigV, ConfigErrorV> {
    let ts = lex(text);
    match first_error(ts) {
        Some(m) => Err(ConfigErrorV::Parse(ParseErrorV::Lexical(m))),
        None => match parse_tokens(ts) {
            Err(e) => Err(ConfigErrorV::Parse(e)),
            Ok(t) => config_of(t),
        },
    }
}

/// The message of the first lexical error among the tokens.
fn first_lex_error(tokens: &Vec<Token>) -> (r: Option<String>)
    ensures
        match first_error(tokens_view(tokens@)) {
            Some(m) => r is Some && r->Some_0@ == m,
            None => r is None,
        },
{
    let ghost ts = tokens_view(tokens@);
    let mut i: usize = 0;
    proof {
        assert(ts.subrange(0, ts.len() as int) =~= ts);
    }
    while i < tokens.len()
        invariant
            i <= tokens@.len(),
            ts == tokens_view(tokens@),
            first_error(ts.subrange(i as int, ts.len() as int)) == first_error(ts),
        decreases tokens@.len() - i,
    {
        let ghost rest = ts.subrange(i as int, ts.len() as int);
        proof {
            assert(rest[0] == tokens@[i as int]@);
            assert(rest.drop_first() =~= ts.subrange(i + 1, ts.len() as int));
        }
        if let Token::Error(m) = &tokens[i] {
            return Some(m.clone());
        }
        i = i + 1;
    }
    proof {
        assert(ts.subrange(i as int, ts.len() as int) =~= Seq::<TokenV>::empty());
    }
    None
}

/// The configuration that the text of a configuration file holds.
pub fn load_config(content: &str) -> (r: Result<Config, ConfigError>)
    ensures
        match config_of_text(content@) {
            Ok(c) => r is Ok && r->Ok_0@ == c,
            Err(e) => r is Err && r->Err_0@ == e,
        },
{
    let tokens = tokenize(content);
    if let Some(message) = first_lex_error(&tokens) {
        return Err(ConfigError::Parse(ParseError::Lexical { message }));
    }
    let parser = Parser::new(tokens);
    let table = match parser.parse() {
        Ok(t) => t,
        Err(e) => return Err(ConfigError::Parse(e)),
    };
    parse_config(&table)
}

/// A key is never given twice in one table: inserting a key that the
/// table reached by `path` holds already fails with a duplicate-key error,
/// which is invalid data; nothing is overwritten.
pub proof fn lemma_duplicate_key_refused(t: TableV, path: Seq<Seq<char>>, key: Seq<char>, v: TomlV)
    requires
        lookup(t, path.push(key)) is Some,
    ensures
        insert_path(t, path, key, v) == Err::<TableV, ParseErrorV>(ParseErrorV::DuplicateKey(key)),
        parse_error_kind(ParseErrorV::DuplicateKey(key)) == ErrorKind::InvalidData,
    decreases path.len(),
{
    if path.len() > 0 {
        let full = path.push(key);
        assert(full[0] == path[0]);
        assert(full.drop_first() =~= path.drop_first().push(key));
        lemma_duplicate_key_refused(t[path[0]]->Tbl_0, path.drop_first(), key, v);
    } else {
        assert(path.push(key) =~= seq![key]);
    }
}

proof fn lemma_expect_at(ts: Seq<TokenV>, i: int, e: Expected)
    requires
        0 <= i <= ts.len(),
    ensures
        expect_at(ts, i, e) matches Ok(n) ==> i < n <= ts.len(),
{
    lemma_skip(ts, i);
}

/// A `[name]` header that another `[name]` header follows directly has no
/// effect: the parse goes on from the second header whatever the insertion
/// path was. So `[a]` followed by `[a.b]` gives the same tree as `[a.b]`
/// alone, and `a.b.c` is found in the same place either way.
pub proof fn lemma_header_followed_by_header(ts: Seq<TokenV>, i: int, root: TableV, ctx: Seq<Seq<char>>, other_ctx: Seq<Seq<char>>)
    requires
        0 <= i <= ts.len(),
        skip_to_significant(ts, i) < ts.len(),
        ts[skip_to_significant(ts, i)] is LBracket,
        header_at(ts, skip_to_significant(ts, i) + 1, Expected::RBracket) is Ok,
        ({
            let m = header_at(ts, skip_to_significant(ts, i) + 1, Expected::RBracket)->Ok_0.1;
            let j = skip_to_significant(ts, m);
            &&& j < ts.len()
            &&& ts[j] is LBracket
            &&& header_at(ts, j + 1, Expected::RBracket) is Ok
        }),
    ensures
        parse_from(ts, i, root, ctx) == parse_from(
            ts,
            header_at(ts, skip_to_significant(ts, i) + 1, Expected::RBracket)->Ok_0.1,
            root,
            other_ctx,
        ),
{
    let j = skip_to_significant(ts, i);
    lemma_skip(ts, i);
    lemma_expect_at(ts, j + 1, Expected::SectionName);
    let n = expect_at(ts, j + 1, Expected::SectionName)->Ok_0;
    lemma_expect_at(ts, n, Expected::RBracket);
    let (keys, m) = header_at(ts, j + 1, Expected::RBracket)->Ok_0;
    let j2 = skip_to_significant(ts, m);
    lemma_skip(ts, m);
    lemma_expect_at(ts, j2 + 1, Expected::SectionName);
    let n2 = expect_at(ts, j2 + 1, Expected::SectionName)->Ok_0;
    lemma_expect_at(ts, n2, Expected::RBracket);
    let (keys2, m2) = header_at(ts, j2 + 1, Expected::RBracket)->Ok_0;
    assert(parse_from(ts, m, root, keys) == parse_from(ts, m2, root, keys2));
    assert(parse_from(ts, m, root, other_ctx) == parse_from(ts, m2, root, keys2));
}

proof fn lemma_skip_shift(pre: Seq<TokenV>, suf: Seq<TokenV>, i: int)
    requires
        0 <= i <= suf.len(),
    ensures
        skip_to_significant(pre + suf, pre.len() + i) == pre.len() + skip_to_significant(suf, i),
    decreases suf.len() - i,
{
    let t = pre + suf;
    if i < suf.len() {
        assert(t[pre.len() + i] == suf[i]);
        if !significant(suf[i]) {
            lemma_skip_shift(pre, suf, i + 1);
        }
    }
}

proof fn lemma_expect_shift(pre: Seq<TokenV>, suf: Seq<TokenV>, i: int, e: Expected)
    requires
        0 <= i <= suf.len(),
    ensures
        expect_at(pre + suf, pre.len() + i, e) == (match expect_at(suf, i, e) {
            Ok(n) => Ok(n + pre.len()),
            Err(x) => Err(x),
        }),
{
    lemma_skip_shift(pre, suf, i);
    lemma_skip(suf, i);
    let j = skip_to_significant(suf, i);
    if j < suf.len() {
        assert((pre + suf)[pre.len() + j] == suf[j]);
    }
}

proof fn lemma_header_shift(pre: Seq<TokenV>, suf: Seq<TokenV>, i: int, close: Expected)
    requires
        0 <= i <= suf.len(),
    ensures
        header_at(pre + suf, pre.len() + i, close) == (match header_at(suf, i, close) {
            Ok((k, m)) => Ok((k, m + pre.len())),
            Err(x) => Err(x),
        }),
{
    lemma_expect_shift(pre, suf, i, Expected::SectionName);
    lemma_expect_at(suf, i, Expected::SectionName);
    if let Ok(n) = expect_at(suf, i, Expected::SectionName) {
        lemma_expect_shift(pre, suf, n, close);
        lemma_skip_shift(pre, suf, i);
        lemma_skip(suf, i);
        assert((pre + suf)[pre.len() + skip_to_significant(suf, i)] == suf[skip_to_significant(suf, i)]);
    }
}

proof fn lemma_list_shift(pre: Seq<TokenV>, suf: Seq<TokenV>, i: int, acc: Seq<TomlV>)
    requires
        0 <= i <= suf.len(),
    ensures
        list_values(pre + suf, pre.len() + i, acc) == (match list_values(suf, i, acc) {
            Ok((vs, m)) => Ok((vs, m + pre.len())),
            Err(x) => Err(x),
        }),
    decreases suf.len() - i,
{
    lemma_skip_shift(pre, suf, i);
    lemma_skip(suf, i);
    let j = skip_to_significant(suf, i);
    if j < suf.len() {
        assert((pre + suf)[pre.len() + j] == suf[j]);
        if !(suf[j] is EOF) {
            match suf[j] {
                TokenV::Value(v) => lemma_list_shift(pre, suf, j + 1, acc.push(scalar_view(v))),
                TokenV::Comma => lemma_list_shift(pre, suf, j + 1, acc),
                _ => {},
            }
        }
    }
}

/// The parse from a position depends only on the tokens from there on.
proof fn lemma_parse_shift(pre: Seq<TokenV>, suf: Seq<TokenV>, i: int, root: TableV, ctx: Seq<Seq<char>>)
    requires
        0 <= i <= suf.len(),
    ensures
        parse_from(pre + suf, pre.len() + i, root, ctx) == parse_from(suf, i, root, ctx),
    decreases suf.len() - i,
{
    let t = pre + suf;
    let o = pre.len() as int;
    lemma_skip_shift(pre, suf, i);
    lemma_skip(suf, i);
    let j = skip_to_significant(suf, i);
    if j < suf.len() && !(suf[j] is EOF) {
        assert(t[o + j] == suf[j]);
        match suf[j] {
            TokenV::Key(k) => {
                lemma_expect_shift(pre, suf, j + 1, Expected::Equal);
                lemma_expect_at(suf, j + 1, Expected::Equal);
                if let Ok(n) = expect_at(suf, j + 1, Expected::Equal) {
                    lemma_skip_shift(pre, suf, n);
                    lemma_skip(suf, n);
                    let f = skip_to_significant(suf, n);
                    if f < suf.len() {
                        assert(t[o + f] == suf[f]);
                        if !(suf[f] is EOF) {
                            if suf[f] is LBracket {
                                lemma_list_shift(pre, suf, f + 1, Seq::empty());
                                lemma_list_bound(suf, f + 1, Seq::empty());
                                if let Ok((vs, m)) = list_values(suf, f + 1, Seq::empty()) {
                                    if let Ok(root2) = insert_path(root, ctx, k, TomlV::Arr(vs)) {
                                        lemma_parse_shift(pre, suf, m, root2, ctx);
                                    }
                                }
                            } else if suf[f] is Value {
                                if let Ok(root2) = insert_path(root, ctx, k, scalar_view(suf[f]->Value_0)) {
                                    lemma_parse_shift(pre, suf, f + 1, root2, ctx);
                                }
                            }
                        }
                    }
                }
            },
            TokenV::LBracket => {
                lemma_header_shift(pre, suf, j + 1, Expected::RBracket);
                lemma_header_bound(suf, j + 1, Expected::RBracket);
                if let Ok((keys, m)) = header_at(suf, j + 1, Expected::RBracket) {
                    lemma_parse_shift(pre, suf, m, root, keys);
                }
            },
            TokenV::DoubleLBracket => {
                lemma_header_shift(pre, suf, j + 1, Expected::DoubleRBracket);
                lemma_header_bound(suf, j + 1, Expected::DoubleRBracket);
                if let Ok((keys, m)) = header_at(suf, j + 1, Expected::DoubleRBracket) {
                    if let Ok(root2) = append_table(root, keys) {
                        lemma_parse_shift(pre, suf, m, root2, keys);
                    }
                }
            },
            _ => {
                lemma_parse_shift(pre, suf, j + 1, root, ctx);
            },
        }
    }
}

proof fn lemma_header_bound(ts: Seq<TokenV>, i: int, close: Expected)
    requires
        0 <= i <= ts.len(),
    ensures
        header_at(ts, i, close) matches Ok((k, m)) ==> i < m <= ts.len(),
{
    lemma_expect_at(ts, i, Expected::SectionName);
    if let Ok(n) = expect_at(ts, i, Expected::SectionName) {
        lemma_expect_at(ts, n, close);
    }
}

/// The tokens of `key = value` statements, one after the other.
pub open spec fn kv_tokens(kvs: Seq<(Seq<char>, ScalarV)>) -> Seq<TokenV>
    decreases kvs.len(),
{
    if kvs.len() == 0 {
        Seq::empty()
    } else {
        seq![TokenV::Key(kvs[0].0), TokenV::Equal, TokenV::Value(kvs[0].1)] + kv_tokens(kvs.drop_first())
    }
}

/// The tokens of a `[[name]]` header and the statements under it.
pub open spec fn block_tokens(name: Seq<char>, kvs: Seq<(Seq<char>, ScalarV)>) -> Seq<TokenV> {
    seq![TokenV::DoubleLBracket, TokenV::SectionName(name), TokenV::DoubleRBracket] + kv_tokens(kvs)
}

/// The tokens of one `[[name]]` block for each entry of `blocks`.
pub open spec fn blocks_tokens(name: Seq<char>, blocks: Seq<Seq<(Seq<char>, ScalarV)>>) -> Seq<TokenV>
    decreases blocks.len(),
{
    if blocks.len() == 0 {
        Seq::empty()
    } else {
        block_tokens(name, blocks[0]) + blocks_tokens(name, blocks.drop_first())
    }
}

/// The table that the statements give.
pub open spec fn table_of(kvs: Seq<(Seq<char>, ScalarV)>) -> TableV
    decreases kvs.len(),
{
    if kvs.len() == 0 {
        Map::empty()
    } else {
        table_of(kvs.drop_last()).insert(kvs.last().0, scalar_view(kvs.last().1))
    }
}

pub open spec fn distinct_keys(kvs: Seq<(Seq<char>, ScalarV)>) -> bool {
    forall|a: int, b: int| 0 <= a < b < kvs.len() ==> kvs[a].0 != kvs[b].0
}

proof fn lemma_table_of_keys(kvs: Seq<(Seq<char>, ScalarV)>, k: Seq<char>)
    ensures
        table_of(kvs).contains_key(k) ==> exists|j: int| 0 <= j < kvs.len() && (#[trigger] kvs[j]).0 == k,
    decreases kvs.len(),
{
    if kvs.len() > 0 {
        lemma_table_of_keys(kvs.drop_last(), k);
        if table_of(kvs).contains_key(k) && kvs.last().0 != k {
            let j = choose|j: int| 0 <= j < kvs.drop_last().len() && (#[trigger] kvs.drop_last()[j]).0 == k;
            assert(kvs[j] == kvs.drop_last()[j]);
        }
    }
}

/// The statements `kvs[i..]` under the header `[[name]]` fill the last
/// table of the array `name`.
proof fn lemma_block_body(
    name: Seq<char>,
    kvs: Seq<(Seq<char>, ScalarV)>,
    i: int,
    a: Seq<TomlV>,
    root: TableV,
    rest: Seq<TokenV>,
)
    requires
        0 <= i <= kvs.len(),
        distinct_keys(kvs),
        root.contains_key(name),
        root[name] == TomlV::Arr(a.push(TomlV::Tbl(table_of(kvs.subrange(0, i))))),
    ensures
        parse_from(kv_tokens(kvs.subrange(i, kvs.len() as int)) + rest, 0, root, seq![name])
            == parse_from(rest, 0, root.insert(name, TomlV::Arr(a.push(TomlV::Tbl(table_of(kvs))))), seq![name]),
    decreases kvs.len() - i,
{
    let tail = kvs.subrange(i, kvs.len() as int);
    if i == kvs.len() {
        assert(tail =~= Seq::<(Seq<char>, ScalarV)>::empty());
        assert(kv_tokens(tail) + rest =~= rest);
        assert(kvs.subrange(0, i) =~= kvs);
        assert(root.insert(name, TomlV::Arr(a.push(TomlV::Tbl(table_of(kvs))))) =~= root);
    } else {
        let (k, v) = kvs[i];
        let stmt = seq![TokenV::Key(k), TokenV::Equal, TokenV::Value(v)];
        assert(tail.drop_first() =~= kvs.subrange(i + 1, kvs.len() as int));
        assert(tail[0] == kvs[i]);
        let more = kv_tokens(kvs.subrange(i + 1, kvs.len() as int)) + rest;
        let t = kv_tokens(tail) + rest;
        assert(t =~= stmt + more);
        assert(t[0] == TokenV::Key(k));
        assert(t[1] == TokenV::Equal);
        assert(t[2] == TokenV::Value(v));
        assert(skip_to_significant(t, 0) == 0);
        assert(skip_to_significant(t, 1) == 1);
        assert(expect_at(t, 1, Expected::Equal) == Ok::<int, ParseErrorV>(2));
        assert(skip_to_significant(t, 2) == 2);
        let m = table_of(kvs.subrange(0, i));
        let m2 = table_of(kvs.subrange(0, i + 1));
        assert(kvs.subrange(0, i + 1).drop_last() =~= kvs.subrange(0, i));
        assert(m2 == m.insert(k, scalar_view(v)));
        lemma_table_of_keys(kvs.subrange(0, i), k);
        if m.contains_key(k) {
            let j = choose|j: int| 0 <= j < kvs.subrange(0, i).len() && (#[trigger] kvs.subrange(0, i)[j]).0 == k;
            assert(kvs.subrange(0, i)[j] == kvs[j]);
        }
        let arr = a.push(TomlV::Tbl(m));
        assert(insert_path(m, seq![name].drop_first(), k, scalar_view(v)) == Ok::<TableV, ParseErrorV>(m2)) by {
            assert(seq![name].drop_first() =~= Seq::<Seq<char>>::empty());
        }
        assert(arr.update(arr.len() - 1, TomlV::Tbl(m2)) =~= a.push(TomlV::Tbl(m2)));
        let root1 = root.insert(name, TomlV::Arr(a.push(TomlV::Tbl(m2))));
        assert(insert_path(root, seq![name], k, scalar_view(v)) == Ok::<TableV, ParseErrorV>(root1));
        assert(parse_from(t, 0, root, seq![name]) == parse_from(t, 3, root1, seq![name]));
        lemma_parse_shift(stmt, more, 0, root1, seq![name]);
        lemma_block_body(name, kvs, i + 1, a, root1, rest);
        assert(root1.insert(name, TomlV::Arr(a.push(TomlV::Tbl(table_of(kvs)))))
            =~= root.insert(name, TomlV::Arr(a.push(TomlV::Tbl(table_of(kvs))))));
    }
}

/// One table for each block's statements.
pub open spec fn tables_of(blocks: Seq<Seq<(Seq<char>, ScalarV)>>) -> Seq<TomlV> {
    blocks.map_values(|b: Seq<(Seq<char>, ScalarV)>| TomlV::Tbl(table_of(b)))
}

proof fn lemma_block(name: Seq<char>, kvs: Seq<(Seq<char>, ScalarV)>, a: Seq<TomlV>, root: TableV, ctx: Seq<Seq<char>>, rest: Seq<TokenV>)
    requires
        split_dots(name) == seq![name],
        distinct_keys(kvs),
        root.contains_key(name) ==> root[name] == TomlV::Arr(a),
        !root.contains_key(name) ==> a == Seq::<TomlV>::empty(),
    ensures
        parse_from(block_tokens(name, kvs) + rest, 0, root, ctx)
            == parse_from(rest, 0, root.insert(name, TomlV::Arr(a.push(TomlV::Tbl(table_of(kvs))))), seq![name]),
{
    let head = seq![TokenV::DoubleLBracket, TokenV::SectionName(name), TokenV::DoubleRBracket];
    let more = kv_tokens(kvs) + rest;
    let t = block_tokens(name, kvs) + rest;
    assert(t =~= head + more);
    assert(t[0] == TokenV::DoubleLBracket);
    assert(t[1] == TokenV::SectionName(name));
    assert(t[2] == TokenV::DoubleRBracket);
    assert(skip_to_significant(t, 0) == 0);
    assert(skip_to_significant(t, 1) == 1);
    assert(skip_to_significant(t, 2) == 2);
    assert(expect_at(t, 1, Expected::SectionName) == Ok::<int, ParseErrorV>(2));
    assert(expect_at(t, 2, Expected::DoubleRBracket) == Ok::<int, ParseErrorV>(3));
    assert(header_at(t, 1, Expected::DoubleRBracket) == Ok::<(Seq<Seq<char>>, int), ParseErrorV>((seq![name], 3)));
    assert(seq![name].len() == 1 && seq![name][0] == name);
    let root2 = root.insert(name, TomlV::Arr(a.push(TomlV::Tbl(Map::empty()))));
    assert(append_table(root, seq![name]) == Ok::<TableV, ParseErrorV>(root2));
    assert(parse_from(t, 0, root, ctx) == parse_from(t, 3, root2, seq![name]));
    lemma_parse_shift(head, more, 0, root2, seq![name]);
    assert(kvs.subrange(0, 0) =~= Seq::<(Seq<char>, ScalarV)>::empty());
    assert(table_of(kvs.subrange(0, 0)) == Map::<Seq<char>, TomlV>::empty());
    assert(kvs.subrange(0, kvs.len() as int) =~= kvs);
    lemma_block_body(name, kvs, 0, a, root2, rest);
    assert(root2.insert(name, TomlV::Arr(a.push(TomlV::Tbl(table_of(kvs)))))
        =~= root.insert(name, TomlV::Arr(a.push(TomlV::Tbl(table_of(kvs))))));
}

proof fn lemma_blocks(name: Seq<char>, blocks: Seq<Seq<(Seq<char>, ScalarV)>>, a: Seq<TomlV>, root: TableV, ctx: Seq<Seq<char>>)
    requires
        split_dots(name) == seq![name],
        forall|b: int| 0 <= b < blocks.len() ==> distinct_keys(#[trigger] blocks[b]),
        root.contains_key(name) ==> root[name] == TomlV::Arr(a),
        !root.contains_key(name) ==> a == Seq::<TomlV>::empty(),
    ensures
        parse_from(blocks_tokens(name, blocks).push(TokenV::EOF), 0, root, ctx) == Ok::<TableV, ParseErrorV>(
            if blocks.len() == 0 { root } else { root.insert(name, TomlV::Arr(a + tables_of(blocks))) },
        ),
    decreases blocks.len(),
{
    let t = blocks_tokens(name, blocks).push(TokenV::EOF);
    if blocks.len() == 0 {
        assert(t =~= seq![TokenV::EOF]);
        assert(skip_to_significant(t, 0) == 0);
    } else {
        let rest_blocks = blocks.drop_first();
        let rest = blocks_tokens(name, rest_blocks).push(TokenV::EOF);
        assert(t =~= block_tokens(name, blocks[0]) + rest);
        lemma_block(name, blocks[0], a, root, ctx, rest);
        let a1 = a.push(TomlV::Tbl(table_of(blocks[0])));
        let root1 = root.insert(name, TomlV::Arr(a1));
        assert forall|b: int| 0 <= b < rest_blocks.len() implies distinct_keys(#[trigger] rest_blocks[b]) by {
            assert(rest_blocks[b] == blocks[b + 1]);
        }
        lemma_blocks(name, rest_blocks, a1, root1, seq![name]);
        assert(a1 + tables_of(rest_blocks) =~= a + tables_of(blocks));
        if rest_blocks.len() == 0 {
            assert(tables_of(blocks) =~= seq![TomlV::Tbl(table_of(blocks[0]))]);
            assert(a1 =~= a + tables_of(blocks));
        }
        assert(root1.insert(name, TomlV::Arr(a1 + tables_of(rest_blocks)))
            =~= root.insert(name, TomlV::Arr(a + tables_of(blocks))));
    }
}

/// Repeating `[[name]]` N times, each time with its own statements, gives
/// under `name` an array of exactly N tables, the k-th holding exactly the
/// pairs written between the k-th header and the next one.
pub proof fn lemma_array_of_tables(name: Seq<char>, blocks: Seq<Seq<(Seq<char>, ScalarV)>>)
    requires
        split_dots(name) == seq![name],
        forall|b: int| 0 <= b < blocks.len() ==> distinct_keys(#[trigger] blocks[b]),
    ensures
        blocks.len() > 0 ==> parse_tokens(blocks_tokens(name, blocks).push(TokenV::EOF))
            == Ok::<TableV, ParseErrorV>(Map::empty().insert(name, TomlV::Arr(tables_of(blocks)))),
        tables_of(blocks).len() == blocks.len(),
        forall|k: int| 0 <= k < blocks.len() ==> tables_of(blocks)[k] == TomlV::Tbl(table_of(#[trigger] blocks[k])),
{
    lemma_blocks(name, blocks, Seq::empty(), Map::empty(), Seq::empty());
    assert(Seq::<TomlV>::empty() + tables_of(blocks) =~= tables_of(blocks));
}

/// A `key = value` statement whose key the target table holds already
/// ends the parse with a duplicate-key error: no table is returned, so the
/// earlier value is never overwritten. This holds whatever came before the
/// statement (`root`, `ctx`) and whatever follows it.
pub proof fn lemma_parse_refuses_duplicate(ts: Seq<TokenV>, i: int, root: TableV, ctx: Seq<Seq<char>>)
    requires
        0 <= i <= ts.len(),
        skip_to_significant(ts, i) < ts.len(),
        ts[skip_to_significant(ts, i)] is Key,
        expect_at(ts, skip_to_significant(ts, i) + 1, Expected::Equal) is Ok,
        ({
            let f = skip_to_significant(ts, expect_at(ts, skip_to_significant(ts, i) + 1, Expected::Equal)->Ok_0);
            &&& 0 <= f < ts.len()
            &&& (ts[f] is Value || (ts[f] is LBracket && list_values(ts, f + 1, Seq::empty()) is Ok))
        }),
        lookup(root, ctx.push(ts[skip_to_significant(ts, i)]->Key_0)) is Some,
    ensures
        parse_from(ts, i, root, ctx) == Err::<TableV, ParseErrorV>(
            ParseErrorV::DuplicateKey(ts[skip_to_significant(ts, i)]->Key_0),
        ),
{
    let j = skip_to_significant(ts, i);
    let k = ts[j]->Key_0;
    let n = expect_at(ts, j + 1, Expected::Equal)->Ok_0;
    let f = skip_to_significant(ts, n);
    lemma_skip(ts, i);
    lemma_expect_at(ts, j + 1, Expected::Equal);
    lemma_skip(ts, n);
    assert(!ends_at(ts, j));
    assert(!ends_at(ts, f));
    if ts[f] is Value {
        lemma_duplicate_key_refused(root, ctx, k, scalar_view(ts[f]->Value_0));
    } else {
        let vs = list_values(ts, f + 1, Seq::empty())->Ok_0.0;
        lemma_duplicate_key_refused(root, ctx, k, TomlV::Arr(vs));
        assert(list_values(ts, f + 1, Seq::empty()) == Ok::<(Seq<TomlV>, int), ParseErrorV>(list_values(ts, f + 1, Seq::empty())->Ok_0));
    }
}

/// Whatever tokens came before and left the root table `root`: N blocks
/// `[[name]]` with their statements, then the end, append exactly N tables
/// to the array `name` (created if missing), the k-th holding exactly the
/// pairs of the k-th block.
pub proof fn lemma_array_of_tables_after(
    pre: Seq<TokenV>,
    name: Seq<char>,
    blocks: Seq<Seq<(Seq<char>, ScalarV)>>,
    a: Seq<TomlV>,
    root: TableV,
    ctx: Seq<Seq<char>>,
)
    requires
        split_dots(name) == seq![name],
        forall|b: int| 0 <= b < blocks.len() ==> distinct_keys(#[trigger] blocks[b]),
        blocks.len() > 0,
        root.contains_key(name) ==> root[name] == TomlV::Arr(a),
        !root.contains_key(name) ==> a == Seq::<TomlV>::empty(),
    ensures
        parse_from(pre + blocks_tokens(name, blocks).push(TokenV::EOF), pre.len() as int, root, ctx)
            == Ok::<TableV, ParseErrorV>(root.insert(name, TomlV::Arr(a + tables_of(blocks)))),
{
    let suf = blocks_tokens(name, blocks).push(TokenV::EOF);
    lemma_parse_shift(pre, suf, 0, root, ctx);
    lemma_blocks(name, blocks, a, root, ctx);
}

} // verus!
