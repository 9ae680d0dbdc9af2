//! Lexer for the configuration format.
//!
//! Turns a character sequence into tokens. Keys, values and section names
//! share character classes; two flags that hold for the current line decide
//! between them: once `=` was seen a run is a value, once `[` or `[[` was seen
//! it is a section name. A line feed clears both flags. After `=`, a value
//! may also start with a sign (`-5`, `+7`).
use vstd::prelude::*;
use crate::text::{alphanumeric, white_space, is_alphanumeric, is_whitespace, chars_of, string_of};

verus! {

/// A scalar value as written in the text.
#[derive(Debug, PartialEq)]
pub enum Value {
    Bool(bool),
    String(String),
    Integer(i64),
    /// A floating-point literal, held as the text that was written.
    Float(String),
}

/// A lexical token.
#[derive(Debug, PartialEq)]
pub enum Token {
    /// The name of a key in a key-value pair.
    Key(String),
    /// The `=` between a key and its value.
    Equal,
    /// A scalar value.
    Value(Value),
    /// The `,` between list elements.
    Comma,
    /// `[`
    LBracket,
    /// `]`
    RBracket,
    /// `[[`
    DoubleLBracket,
    /// `]]`
    DoubleRBracket,
    /// The title of a section between brackets.
    SectionName(String),
    /// One white-space character other than a line break.
    Whitespace,
    /// The text of a comment, after the `#`.
    Comment(String),
    /// A line break (`\n` or `\r\n`).
    Newline,
    /// The end of the input.
    EOF,
    /// A lexical error, with its message.
    Error(String),
}

/// The model of a scalar value.
pub enum ScalarV {
    Bool(bool),
    Str(Seq<char>),
    Int(int),
    Float(Seq<char>),
}

/// The model of a token.
pub enum TokenV {
    Key(Seq<char>),
    Equal,
    Value(ScalarV),
    Comma,
    LBracket,
    RBracket,
    DoubleLBracket,
    DoubleRBracket,
    SectionName(Seq<char>),
    Whitespace,
    Comment(Seq<char>),
    Newline,
    EOF,
    Error(Seq<char>),
}

impl View for Value {
    type V = ScalarV;

    open spec fn view(&self) -> ScalarV {
        match self {
            Value::Bool(b) => ScalarV::Bool(*b),
            Value::String(s) => ScalarV::Str(s@),
            Value::Integer(i) => ScalarV::Int(*i as int),
            Value::Float(t) => ScalarV::Float(t@),
        }
    }
}

impl View for Token {
    type V = TokenV;

    open spec fn view(&self) -> TokenV {
        match self {
            Token::Key(k) => TokenV::Key(k@),
            Token::Equal => TokenV::Equal,
            Token::Value(v) => TokenV::Value(v@),
            Token::Comma => TokenV::Comma,
            Token::LBracket => TokenV::LBracket,
            Token::RBracket => TokenV::RBracket,
            Token::DoubleLBracket => TokenV::DoubleLBracket,
            Token::DoubleRBracket => TokenV::DoubleRBracket,
            Token::SectionName(s) => TokenV::SectionName(s@),
            Token::Whitespace => TokenV::Whitespace,
            Token::Comment(c) => TokenV::Comment(c@),
            Token::Newline => TokenV::Newline,
            Token::EOF => TokenV::EOF,
            Token::Error(m) => TokenV::Error(m@),
        }
    }
}

/// The views of a sequence of tokens.
pub open spec fn tokens_view(ts: Seq<Token>) -> Seq<TokenV> {
    ts.map_values(|t: Token| t@)
}

/// The position and line flags of the lexer.
pub struct LexState {
    pub pos: int,
    pub equals_seen: bool,
    pub bracket_seen: bool,
}

/// A character that may continue a key or a section name.
pub open spec fn is_name_char(c: char) -> bool {
    alphanumeric(c) || c == '_' || c == '.'
}

/// A character that may continue an unquoted value.
pub open spec fn is_value_char(c: char) -> bool {
    alphanumeric(c) || c == '.' || c == '_' || c == '-'
}

/// The end of the run that starts at `i`: of name characters, or of value
/// characters when `value` holds.
pub open spec fn run_end(cs: Seq<char>, i: int, value: bool) -> int
    decreases cs.len() - i,
{
    if 0 <= i < cs.len() && (if value { is_value_char(cs[i]) } else { is_name_char(cs[i]) }) {
        run_end(cs, i + 1, value)
    } else {
        i
    }
}

/// The first index at or after `i` that holds `c`, or the length.
pub open spec fn find_from(cs: Seq<char>, i: int, c: char) -> int
    decreases cs.len() - i,
{
    if 0 <= i < cs.len() && cs[i] != c {
        find_from(cs, i + 1, c)
    } else {
        i
    }
}

pub open spec fn is_digit(c: char) -> bool {
    '0' <= c <= '9'
}

pub open spec fn all_digits(t: Seq<char>) -> bool {
    forall|i: int| 0 <= i < t.len() ==> is_digit(#[trigger] t[i])
}

/// The number that a string of decimal digits denotes.
pub open spec fn digits_value(t: Seq<char>) -> int
    decreases t.len(),
{
    if t.len() == 0 {
        0
    } else {
        digits_value(t.drop_last()) * 10 + (t.last() as int - '0' as int)
    }
}

/// Text that `i64::from_str` accepts: an optional `+` or `-`, then decimal
/// digits, whose value fits.
pub open spec fn integer_text(t: Seq<char>) -> bool {
    let u = drop_sign(t);
    u.len() > 0 && all_digits(u) && i64::MIN <= signed_value(t) <= i64::MAX
}

/// The number that text with an optional sign and decimal digits denotes.
pub open spec fn signed_value(t: Seq<char>) -> int {
    if t.len() > 0 && t[0] == '-' {
        -digits_value(drop_sign(t))
    } else {
        digits_value(drop_sign(t))
    }
}

/// Equal to a word whose letters may each stand in either of two cases:
/// `lower` and `upper` spell the word in lower and in upper case.
pub open spec fn equal_ignoring_case(t: Seq<char>, lower: Seq<char>, upper: Seq<char>) -> bool {
    t.len() == lower.len() && t.len() == upper.len()
        && forall|i: int| 0 <= i < t.len() ==> (#[trigger] t[i] == lower[i] || t[i] == upper[i])
}

pub open spec fn drop_sign(t: Seq<char>) -> Seq<char> {
    if t.len() > 0 && (t[0] == '+' || t[0] == '-') { t.drop_first() } else { t }
}

/// `Digit+`, `Digit+ '.' Digit*` or `Digit* '.' Digit+`.
pub open spec fn mantissa_text(m: Seq<char>) -> bool {
    let d = find_from(m, 0, '.');
    let whole = m.subrange(0, d);
    if d == m.len() {
        d > 0 && all_digits(whole)
    } else {
        let frac = m.subrange(d + 1, m.len() as int);
        all_digits(whole) && all_digits(frac) && (whole.len() > 0 || frac.len() > 0)
    }
}

/// The index of the first `e` or `E`, or the length.
pub open spec fn exponent_start(t: Seq<char>, i: int) -> int
    decreases t.len() - i,
{
    if 0 <= i < t.len() && t[i] != 'e' && t[i] != 'E' {
        exponent_start(t, i + 1)
    } else {
        i
    }
}

/// `Mantissa ('e' Sign? Digit+)?`
pub open spec fn number_text(t: Seq<char>) -> bool {
    let e = exponent_start(t, 0);
    mantissa_text(t.subrange(0, e)) && (e == t.len() || {
        let x = drop_sign(t.subrange(e + 1, t.len() as int));
        x.len() > 0 && all_digits(x)
    })
}

/// Text that `f64::from_str` accepts, after the grammar in its documentation.
pub open spec fn float_text(t: Seq<char>) -> bool {
    let u = drop_sign(t);
    equal_ignoring_case(u, seq!['i', 'n', 'f'], seq!['I', 'N', 'F'])
        || equal_ignoring_case(
            u,
            seq!['i', 'n', 'f', 'i', 'n', 'i', 't', 'y'],
            seq!['I', 'N', 'F', 'I', 'N', 'I', 'T', 'Y'],
        )
        || equal_ignoring_case(u, seq!['n', 'a', 'n'], seq!['N', 'A', 'N'])
        || number_text(u)
}

pub open spec fn unknown_token_message() -> Seq<char> {
    "Unknown token"@
}

pub open spec fn invalid_value_message() -> Seq<char> {
    "Invalid value data type"@
}

/// The token for an unquoted value run: a boolean, then an integer, then a
/// floating-point number; otherwise an error.
pub open spec fn classify_value(t: Seq<char>) -> TokenV {
    if t == seq!['t', 'r', 'u', 'e'] {
        TokenV::Value(ScalarV::Bool(true))
    } else if t == seq!['f', 'a', 'l', 's', 'e'] {
        TokenV::Value(ScalarV::Bool(false))
    } else if integer_text(t) {
        TokenV::Value(ScalarV::Int(signed_value(t)))
    } else if float_text(t) {
        TokenV::Value(ScalarV::Float(t))
    } else {
        TokenV::Error(invalid_value_message())
    }
}

/// One step of the lexer: the next token and the state after it.
pub open spec fn lex_step(cs: Seq<char>, st: LexState) -> (TokenV, LexState) {
    let p = st.pos;
    if p < 0 || p >= cs.len() {
        (TokenV::EOF, st)
    } else {
        let c = cs[p];
        let has_next = p + 1 < cs.len();
        let moved = LexState { pos: p + 1, ..st };
        if white_space(c) {
            if c == '\n' {
                (TokenV::Newline, LexState { pos: p + 1, equals_seen: false, bracket_seen: false })
            } else if c == '\r' && has_next && cs[p + 1] == '\n' {
                (TokenV::Newline, LexState { pos: p + 2, equals_seen: false, bracket_seen: false })
            } else {
                (TokenV::Whitespace, moved)
            }
        } else if c == '[' && has_next && cs[p + 1] == '[' {
            (TokenV::DoubleLBracket, LexState { pos: p + 2, equals_seen: st.equals_seen, bracket_seen: true })
        } else if c == ']' && has_next && cs[p + 1] == ']' {
            (TokenV::DoubleRBracket, LexState { pos: p + 2, ..st })
        } else if c == '=' {
            (TokenV::Equal, LexState { pos: p + 1, equals_seen: true, bracket_seen: st.bracket_seen })
        } else if c == ',' {
            (TokenV::Comma, moved)
        } else if c == '[' {
            (TokenV::LBracket, LexState { pos: p + 1, equals_seen: st.equals_seen, bracket_seen: true })
        } else if c == ']' {
            (TokenV::RBracket, moved)
        } else if c == '"' {
            let e = find_from(cs, p + 1, '"');
            let next = if e < cs.len() { e + 1 } else { e };
            (TokenV::Value(ScalarV::Str(cs.subrange(p + 1, e))), LexState { pos: next, ..st })
        } else if c == '#' {
            let e = find_from(cs, p + 1, '\n');
            (TokenV::Comment(cs.subrange(p + 1, e)), LexState { pos: e, ..st })
        } else if alphanumeric(c) || c == '_' {
            if st.bracket_seen {
                let e = run_end(cs, p + 1, false);
                (TokenV::SectionName(cs.subrange(p, e)), LexState { pos: e, ..st })
            } else if !st.equals_seen {
                let e = run_end(cs, p + 1, false);
                (TokenV::Key(cs.subrange(p, e)), LexState { pos: e, ..st })
            } else {
                let e = run_end(cs, p + 1, true);
                (classify_value(cs.subrange(p, e)), LexState { pos: e, ..st })
            }
        } else if (c == '-' || c == '+') && st.equals_seen && !st.bracket_seen {
            let e = run_end(cs, p + 1, true);
            (classify_value(cs.subrange(p, e)), LexState { pos: e, ..st })
        } else {
            (TokenV::Error(unknown_token_message()), moved)
        }
    }
}

/// A run of name or value characters stops where the class ends.
proof fn lemma_run_end(cs: Seq<char>, i: int, value: bool)
    requires
        0 <= i <= cs.len(),
    ensures
        i <= run_end(cs, i, value) <= cs.len(),
    decreases cs.len() - i,
{
    if i < cs.len() && (if value { is_value_char(cs[i]) } else { is_name_char(cs[i]) }) {
        lemma_run_end(cs, i + 1, value);
    }
}

pub(crate) proof fn lemma_find_from(cs: Seq<char>, i: int, c: char)
    requires
        0 <= i <= cs.len(),
    ensures
        i <= find_from(cs, i, c) <= cs.len(),
        find_from(cs, i, c) < cs.len() ==> cs[find_from(cs, i, c)] == c,
    decreases cs.len() - i,
{
    if i < cs.len() && cs[i] != c {
        lemma_find_from(cs, i + 1, c);
    }
}

proof fn lemma_exponent_start(t: Seq<char>, i: int)
    requires
        0 <= i <= t.len(),
    ensures
        i <= exponent_start(t, i) <= t.len(),
    decreases t.len() - i,
{
    if i < t.len() && t[i] != 'e' && t[i] != 'E' {
        lemma_exponent_start(t, i + 1);
    }
}

proof fn lemma_digits_value_nonneg(t: Seq<char>)
    requires
        all_digits(t),
    ensures
        digits_value(t) >= 0,
    decreases t.len(),
{
    if t.len() > 0 {
        assert(all_digits(t.drop_last())) by {
            assert forall|i: int| 0 <= i < t.drop_last().len() implies is_digit(#[trigger] t.drop_last()[i]) by {
                assert(is_digit(t[i]));
            }
        }
        lemma_digits_value_nonneg(t.drop_last());
        assert(is_digit(t[t.len() - 1]));
    }
}

/// A prefix of a digit string denotes no more than the whole.
proof fn lemma_digits_prefix_le(t: Seq<char>, j: int)
    requires
        all_digits(t),
        0 <= j <= t.len(),
    ensures
        digits_value(t.subrange(0, j)) <= digits_value(t),
    decreases t.len(),
{
    if j < t.len() {
        let d = t.drop_last();
        assert(all_digits(d)) by {
            assert forall|i: int| 0 <= i < d.len() implies is_digit(#[trigger] d[i]) by {
                assert(is_digit(t[i]));
            }
        }
        lemma_digits_prefix_le(d, j);
        assert(d.subrange(0, j) =~= t.subrange(0, j));
        lemma_digits_value_nonneg(d);
        assert(is_digit(t[t.len() - 1]));
    } else {
        assert(t.subrange(0, j) =~= t);
    }
}

/// The index of the first `c` at or after `from`, or the length.
pub(crate) fn find_char(t: &[char], from: usize, c: char) -> (r: usize)
    requires
        from <= t@.len(),
    ensures
        r == find_from(t@, from as int, c),
{
    let mut i = from;
    while i < t.len() && t[i] != c
        invariant
            from <= i <= t@.len(),
            find_from(t@, i as int, c) == find_from(t@, from as int, c),
        decreases t@.len() - i,
    {
        i = i + 1;
    }
    i
}

/// The index of the first `e` or `E`, or the length.
fn exponent_index(t: &[char]) -> (r: usize)
    ensures
        r == exponent_start(t@, 0),
{
    let mut i: usize = 0;
    while i < t.len() && t[i] != 'e' && t[i] != 'E'
        invariant
            i <= t@.len(),
            exponent_start(t@, i as int) == exponent_start(t@, 0),
        decreases t@.len() - i,
    {
        i = i + 1;
    }
    i
}

fn digits_only(t: &[char]) -> (r: bool)
    ensures
        r == all_digits(t@),
{
    let mut i: usize = 0;
    while i < t.len()
        invariant
            i <= t@.len(),
            forall|j: int| 0 <= j < i ==> is_digit(#[trigger] t@[j]),
        decreases t@.len() - i,
    {
        if !('0' <= t[i] && t[i] <= '9') {
            return false;
        }
        i = i + 1;
    }
    true
}

fn equals_ignoring_case(t: &[char], lower: &Vec<char>, upper: &Vec<char>) -> (r: bool)
    ensures
        r == equal_ignoring_case(t@, lower@, upper@),
{
    if t.len() != lower.len() || t.len() != upper.len() {
        return false;
    }
    let mut i: usize = 0;
    while i < t.len()
        invariant
            i <= t@.len(),
            t@.len() == lower@.len(),
            t@.len() == upper@.len(),
            forall|j: int| 0 <= j < i ==> (#[trigger] t@[j] == lower@[j] || t@[j] == upper@[j]),
        decreases t@.len() - i,
    {
        if t[i] != lower[i] && t[i] != upper[i] {
            return false;
        }
        i = i + 1;
    }
    true
}

fn same_chars(t: &[char], w: &Vec<char>) -> (r: bool)
    ensures
        r == (t@ == w@),
{
    if t.len() != w.len() {
        return false;
    }
    let mut i: usize = 0;
    while i < t.len()
        invariant
            i <= t@.len(),
            t@.len() == w@.len(),
            forall|j: int| 0 <= j < i ==> t@[j] == w@[j],
        decreases t@.len() - i,
    {
        if t[i] != w[i] {
            return false;
        }
        i = i + 1;
    }
    assert(t@ =~= w@);
    true
}

fn without_sign(t: &[char]) -> (r: &[char])
    ensures
        r@ == drop_sign(t@),
{
    if t.len() > 0 && (t[0] == '+' || t[0] == '-') {
        vstd::slice::slice_subrange(t, 1, t.len())
    } else {
        t
    }
}

fn is_mantissa(m: &[char]) -> (r: bool)
    ensures
        r == mantissa_text(m@),
{
    let d = find_char(m, 0, '.');
    proof {
        lemma_find_from(m@, 0, '.');
    }
    let whole = vstd::slice::slice_subrange(m, 0, d);
    if d == m.len() {
        d > 0 && digits_only(whole)
    } else {
        let frac = vstd::slice::slice_subrange(m, d + 1, m.len());
        digits_only(whole) && digits_only(frac) && (whole.len() > 0 || frac.len() > 0)
    }
}

fn is_number(t: &[char]) -> (r: bool)
    ensures
        r == number_text(t@),
{
    let e = exponent_index(t);
    proof {
        lemma_exponent_start(t@, 0);
    }
    if !is_mantissa(vstd::slice::slice_subrange(t, 0, e)) {
        return false;
    }
    if e == t.len() {
        return true;
    }
    let x = without_sign(vstd::slice::slice_subrange(t, e + 1, t.len()));
    x.len() > 0 && digits_only(x)
}

fn is_float(t: &[char]) -> (r: bool)
    ensures
        r == float_text(t@),
{
    let u = without_sign(t);
    let inf = vec!['i', 'n', 'f'];
    let inf_upper = vec!['I', 'N', 'F'];
    let infinity = vec!['i', 'n', 'f', 'i', 'n', 'i', 't', 'y'];
    let infinity_upper = vec!['I', 'N', 'F', 'I', 'N', 'I', 'T', 'Y'];
    let nan = vec!['n', 'a', 'n'];
    let nan_upper = vec!['N', 'A', 'N'];
    proof {
        assert(inf@ =~= seq!['i', 'n', 'f']);
        assert(inf_upper@ =~= seq!['I', 'N', 'F']);
        assert(infinity@ =~= seq!['i', 'n', 'f', 'i', 'n', 'i', 't', 'y']);
        assert(infinity_upper@ =~= seq!['I', 'N', 'F', 'I', 'N', 'I', 'T', 'Y']);
        assert(nan@ =~= seq!['n', 'a', 'n']);
        assert(nan_upper@ =~= seq!['N', 'A', 'N']);
    }
    equals_ignoring_case(u, &inf, &inf_upper) || equals_ignoring_case(u, &infinity, &infinity_upper)
        || equals_ignoring_case(u, &nan, &nan_upper) || is_number(u)
}

/// The integer that unsigned decimal text denotes, when it fits in `i64`.
fn parse_integer(t: &[char]) -> (r: Option<i64>)
    ensures
        r is Some <==> integer_text(t@),
        r is Some ==> r->0 as int == signed_value(t@),
{
    let negative = t.len() > 0 && t[0] == '-';
    let u = without_sign(t);
    let limit: u128 = if negative { 9223372036854775808 } else { 9223372036854775807 };
    if u.len() > 0 && digits_only(u) {
        proof {
            lemma_digits_value_nonneg(u@);
        }
    }
    match parse_digits(u, limit) {
        None => None,
        Some(a) => {
            if negative {
                Some((0i128 - (a as i128)) as i64)
            } else {
                Some(a as i64)
            }
        },
    }
}

/// The value of decimal digits, when it is at most `limit`.
fn parse_digits(t: &[char], limit: u128) -> (r: Option<u128>)
    requires
        limit <= 9223372036854775808,
    ensures
        r is Some <==> (t@.len() > 0 && all_digits(t@) && digits_value(t@) <= limit),
        r is Some ==> r->0 as int == digits_value(t@),
{
    if t.len() == 0 || !digits_only(t) {
        return None;
    }
    let mut acc: u128 = 0;
    let mut i: usize = 0;
    while i < t.len()
        invariant
            i <= t@.len(),
            all_digits(t@),
            acc as int == digits_value(t@.subrange(0, i as int)),
            acc <= limit,
            limit <= 9223372036854775808,
        decreases t@.len() - i,
    {
        proof {
            assert(t@.subrange(0, i + 1).drop_last() =~= t@.subrange(0, i as int));
            assert(is_digit(t@[i as int]));
        }
        acc = acc * 10 + ((t[i] as u32) - ('0' as u32)) as u128;
        i = i + 1;
        if acc > limit {
            proof {
                lemma_digits_prefix_le(t@, i as int);
            }
            return None;
        }
    }
    proof {
        assert(t@.subrange(0, i as int) =~= t@);
    }
    Some(acc)
}

/// The token for an unquoted value run.
fn classify_run(t: &[char]) -> (tok: Token)
    ensures
        tok@ == classify_value(t@),
{
    let word_true = vec!['t', 'r', 'u', 'e'];
    let word_false = vec!['f', 'a', 'l', 's', 'e'];
    proof {
        assert(word_true@ =~= seq!['t', 'r', 'u', 'e']);
        assert(word_false@ =~= seq!['f', 'a', 'l', 's', 'e']);
    }
    if same_chars(t, &word_true) {
        return Token::Value(Value::Bool(true));
    }
    if same_chars(t, &word_false) {
        return Token::Value(Value::Bool(false));
    }
    if let Some(n) = parse_integer(t) {
        return Token::Value(Value::Integer(n));
    }
    if is_float(t) {
        return Token::Value(Value::Float(string_of(t)));
    }
    Token::Error(String::from_str("Invalid value data type"))
}

/// A lexer over the characters of one input.
pub struct Lexer {
    /// The characters of the input.
    chars: Vec<char>,
    /// The index of the next character to read.
    pos: usize,
    /// An `=` was read on the current line.
    equals_consumed: bool,
    /// A `[` or `[[` was read on the current line.
    bracket_consumed: bool,
}

impl Lexer {
    /// The characters of the input.
    pub closed spec fn text(&self) -> Seq<char> {
        self.chars@
    }

    /// The position and the line flags.
    pub closed spec fn state(&self) -> LexState {
        LexState {
            pos: self.pos as int,
            equals_seen: self.equals_consumed,
            bracket_seen: self.bracket_consumed,
        }
    }

    pub closed spec fn wf(&self) -> bool {
        self.pos <= self.chars@.len()
    }

    pub proof fn lemma_wf(&self)
        requires
            self.wf(),
        ensures
            0 <= self.state().pos <= self.text().len(),
    {
    }

    /// A lexer at the start of `input`, with both line flags clear.
    pub fn new(input: &str) -> (r: Self)
        ensures
            r.wf(),
            r.text() == input@,
            r.state() == (LexState { pos: 0, equals_seen: false, bracket_seen: false }),
    {
        Lexer { chars: chars_of(input), pos: 0, equals_consumed: false, bracket_consumed: false }
    }

    /// Reads the next character, if any.
    fn next_char(&mut self) -> (r: Option<char>)
        requires
            old(self).wf(),
        ensures
            final(self).wf(),
            final(self).chars@ == old(self).chars@,
            final(self).equals_consumed == old(self).equals_consumed,
            final(self).bracket_consumed == old(self).bracket_consumed,
            old(self).pos < old(self).chars@.len() ==> r == Some(old(self).chars@[old(self).pos as int])
                && final(self).pos == old(self).pos + 1,
            old(self).pos >= old(self).chars@.len() ==> r is None && final(self).pos == old(self).pos,
    {
        if self.pos < self.chars.len() {
            let c = self.chars[self.pos];
            self.pos = self.pos + 1;
            Some(c)
        } else {
            None
        }
    }

    /// The character that `next_char` would read, without reading it.
    fn look_ahead_char(&self) -> (r: Option<char>)
        requires
            self.wf(),
        ensures
            self.pos < self.chars@.len() ==> r == Some(self.chars@[self.pos as int]),
            self.pos >= self.chars@.len() ==> r is None,
    {
        if self.pos < self.chars.len() {
            Some(self.chars[self.pos])
        } else {
            None
        }
    }

    /// Reads the rest of a run of name characters (or of value characters
    /// when `value` holds) and returns where it started.
    fn read_run(&mut self, value: bool) -> (start: usize)
        requires
            old(self).wf(),
        ensures
            final(self).wf(),
            start == old(self).pos,
            final(self).chars@ == old(self).chars@,
            final(self).pos == run_end(old(self).chars@, old(self).pos as int, value),
            final(self).equals_consumed == old(self).equals_consumed,
            final(self).bracket_consumed == old(self).bracket_consumed,
    {
        let start = self.pos;
        loop
            invariant
                self.wf(),
                self.chars@ == old(self).chars@,
                start <= self.pos,
                run_end(self.chars@, self.pos as int, value) == run_end(self.chars@, start as int, value),
                self.equals_consumed == old(self).equals_consumed,
                self.bracket_consumed == old(self).bracket_consumed,
            ensures
                self.wf(),
                self.chars@ == old(self).chars@,
                self.pos == run_end(self.chars@, start as int, value),
                self.equals_consumed == old(self).equals_consumed,
                self.bracket_consumed == old(self).bracket_consumed,
            decreases self.chars@.len() - self.pos,
        {
            let c = match self.look_ahead_char() {
                Some(c) => c,
                None => break,
            };
            let more = if value {
                is_alphanumeric(c) || c == '.' || c == '_' || c == '-'
            } else {
                is_alphanumeric(c) || c == '_' || c == '.'
            };
            if more {
                self.next_char();
            } else {
                break;
            }
        }
        start
    }

    /// The next token; the lexer moves past it.
    pub fn next_token(&mut self) -> (tok: Token)
        requires
            old(self).wf(),
        ensures
            final(self).wf(),
            final(self).text() == old(self).text(),
            (tok@, final(self).state()) == lex_step(old(self).text(), old(self).state()),
    {
        let p = self.pos;
        let next_char = self.next_char();
        let look_ahead_char = self.look_ahead_char();
        match next_char {
            None => Token::EOF,
            Some(c) => {
                if is_whitespace(c) {
                    if c == '\n' {
                        self.equals_consumed = false;
                        self.bracket_consumed = false;
                        Token::Newline
                    } else if c == '\r' && look_ahead_char == Some('\n') {
                        self.next_char();
                        self.equals_consumed = false;
                        self.bracket_consumed = false;
                        Token::Newline
                    } else {
                        Token::Whitespace
                    }
                } else {
                    if let Some(ac) = look_ahead_char {
                        if c == '[' && ac == '[' {
                            self.bracket_consumed = true;
                            self.next_char();
                            return Token::DoubleLBracket;
                        }
                        if c == ']' && ac == ']' {
                            self.next_char();
                            return Token::DoubleRBracket;
                        }
                    }
                    if c == '=' {
                        self.equals_consumed = true;
                        Token::Equal
                    } else if c == ',' {
                        Token::Comma
                    } else if c == '[' {
                        self.bracket_consumed = true;
                        Token::LBracket
                    } else if c == ']' {
                        Token::RBracket
                    } else if c == '"' {
                        self.parse_string()
                    } else if c == '#' {
                        self.parse_comment()
                    } else if is_alphanumeric(c) || c == '_' {
                        self.parse_key_or_value(p)
                    } else if (c == '-' || c == '+') && self.equals_consumed && !self.bracket_consumed {
                        self.parse_key_or_value(p)
                    } else {
                        Token::Error(String::from_str("Unknown token"))
                    }
                }
            }
        }
    }

    /// A section name, a key or a value, after the line flags; its first
    /// character, at `first`, was read.
    fn parse_key_or_value(&mut self, first: usize) -> (tok: Token)
        requires
            old(self).wf(),
            old(self).pos == first + 1,
        ensures
            final(self).wf(),
            final(self).chars@ == old(self).chars@,
            final(self).equals_consumed == old(self).equals_consumed,
            final(self).bracket_consumed == old(self).bracket_consumed,
            old(self).bracket_consumed ==> {
                let e = run_end(old(self).chars@, first + 1, false);
                &&& final(self).pos == e
                &&& tok@ == TokenV::SectionName(old(self).chars@.subrange(first as int, e))
            },
            !old(self).bracket_consumed && !old(self).equals_consumed ==> {
                let e = run_end(old(self).chars@, first + 1, false);
                &&& final(self).pos == e
                &&& tok@ == TokenV::Key(old(self).chars@.subrange(first as int, e))
            },
            !old(self).bracket_consumed && old(self).equals_consumed ==> {
                let e = run_end(old(self).chars@, first + 1, true);
                &&& final(self).pos == e
                &&& tok@ == classify_value(old(self).chars@.subrange(first as int, e))
            },
    {
        let value = !self.bracket_consumed && self.equals_consumed;
        self.read_run(value);
        proof {
            lemma_run_end(self.chars@, first + 1, value);
        }
        let run = vstd::slice::slice_subrange(self.chars.as_slice(), first, self.pos);
        if self.bracket_consumed {
            Token::SectionName(string_of(run))
        } else if !self.equals_consumed {
            Token::Key(string_of(run))
        } else {
            classify_run(run)
        }
    }

    /// A quoted string; the opening quote was read. Reads through the
    /// closing quote, or to the end of the input.
    fn parse_string(&mut self) -> (tok: Token)
        requires
            old(self).wf(),
        ensures
            final(self).wf(),
            final(self).chars@ == old(self).chars@,
            final(self).equals_consumed == old(self).equals_consumed,
            final(self).bracket_consumed == old(self).bracket_consumed,
            ({
                let e = find_from(old(self).chars@, old(self).pos as int, '"');
                &&& final(self).pos == (if e < old(self).chars@.len() { e + 1 } else { e })
                &&& tok@ == TokenV::Value(ScalarV::Str(old(self).chars@.subrange(old(self).pos as int, e)))
            }),
    {
        let start = self.pos;
        let e = find_char(self.chars.as_slice(), start, '"');
        proof {
            lemma_find_from(self.chars@, start as int, '"');
        }
        let text = string_of(vstd::slice::slice_subrange(self.chars.as_slice(), start, e));
        self.pos = if e < self.chars.len() { e + 1 } else { e };
        Token::Value(Value::String(text))
    }

    /// A comment; the `#` was read. Reads up to the line break.
    fn parse_comment(&mut self) -> (tok: Token)
        requires
            old(self).wf(),
        ensures
            final(self).wf(),
            final(self).chars@ == old(self).chars@,
            final(self).equals_consumed == old(self).equals_consumed,
            final(self).bracket_consumed == old(self).bracket_consumed,
            ({
                let e = find_from(old(self).chars@, old(self).pos as int, '\n');
                &&& final(self).pos == e
                &&& tok@ == TokenV::Comment(old(self).chars@.subrange(old(self).pos as int, e))
            }),
    {
        let start = self.pos;
        let e = find_char(self.chars.as_slice(), start, '\n');
        proof {
            lemma_find_from(self.chars@, start as int, '\n');
        }
        let text = string_of(vstd::slice::slice_subrange(self.chars.as_slice(), start, e));
        self.pos = e;
        Token::Comment(text)
    }
}

/// The state at the start of an input.
pub open spec fn start_state() -> LexState {
    LexState { pos: 0, equals_seen: false, bracket_seen: false }
}

/// The tokens of the input from `st` on, through the end-of-input token.
pub open spec fn lex_all(cs: Seq<char>, st: LexState) -> Seq<TokenV>
    decreases cs.len() - st.pos,
{
    let (t, next) = lex_step(cs, st);
    if t is EOF || !(st.pos < next.pos <= cs.len()) {
        seq![t]
    } else {
        seq![t] + lex_all(cs, next)
    }
}

/// Where each token of `lex_all(cs, st)` ends in the input.
pub open spec fn lex_ends(cs: Seq<char>, st: LexState) -> Seq<int>
    decreases cs.len() - st.pos,
{
    let (t, next) = lex_step(cs, st);
    if t is EOF || !(st.pos < next.pos <= cs.len()) {
        seq![next.pos]
    } else {
        seq![next.pos] + lex_ends(cs, next)
    }
}

/// The tokens of a whole input.
pub open spec fn lex(cs: Seq<char>) -> Seq<TokenV> {
    lex_all(cs, start_state())
}

/// Whether `t`, a stretch of the input, is written as `tok` stands for it;
/// `at_end` says that the stretch reaches the end of the input.
pub open spec fn stands_for(tok: TokenV, t: Seq<char>, at_end: bool) -> bool {
    match tok {
        TokenV::Key(k) => t.len() > 0 && k == t,
        TokenV::SectionName(k) => t.len() > 0 && k == t,
        TokenV::Value(ScalarV::Str(s)) => t == seq!['"'] + s + seq!['"'] || (at_end && t == seq!['"'] + s),
        TokenV::Value(v) => classify_value(t) == TokenV::Value(v),
        TokenV::Comment(c) => t == seq!['#'] + c,
        TokenV::Equal => t == seq!['='],
        TokenV::Comma => t == seq![','],
        TokenV::LBracket => t == seq!['['],
        TokenV::RBracket => t == seq![']'],
        TokenV::DoubleLBracket => t == seq!['[', '['],
        TokenV::DoubleRBracket => t == seq![']', ']'],
        TokenV::Whitespace => t.len() == 1 && white_space(t[0]) && t[0] != '\n',
        TokenV::Newline => t == seq!['\n'] || t == seq!['\r', '\n'],
        TokenV::EOF => at_end && t.len() == 0,
        TokenV::Error(_) => t.len() > 0,
    }
}

/// One step ends the input exactly at its end, and otherwise moves forward
/// over the stretch that its token stands for.
proof fn lemma_step(cs: Seq<char>, st: LexState)
    requires
        0 <= st.pos <= cs.len(),
    ensures
        ({
            let (t, next) = lex_step(cs, st);
            &&& (t is EOF <==> st.pos == cs.len())
            &&& (t is EOF ==> next.pos == st.pos)
            &&& (!(t is EOF) ==> st.pos < next.pos <= cs.len())
            &&& stands_for(t, cs.subrange(st.pos, next.pos), next.pos == cs.len())
        }),
{
    let p = st.pos;
    if p < cs.len() {
        let c = cs[p];
        lemma_run_end(cs, p + 1, false);
        lemma_run_end(cs, p + 1, true);
        lemma_find_from(cs, p + 1, '"');
        lemma_find_from(cs, p + 1, '\n');
        let (t, next) = lex_step(cs, st);
        let stretch = cs.subrange(p, next.pos);
        if white_space(c) {
            if c == '\r' && p + 1 < cs.len() && cs[p + 1] == '\n' {
                assert(stretch =~= seq!['\r', '\n']);
            } else {
                assert(stretch =~= seq![c]);
            }
        } else if c == '[' && p + 1 < cs.len() && cs[p + 1] == '[' {
            assert(stretch =~= seq!['[', '[']);
        } else if c == ']' && p + 1 < cs.len() && cs[p + 1] == ']' {
            assert(stretch =~= seq![']', ']']);
        } else if c == '"' {
            let e = find_from(cs, p + 1, '"');
            if e < cs.len() {
                assert(stretch =~= seq!['"'] + cs.subrange(p + 1, e) + seq!['"']);
            } else {
                assert(stretch =~= seq!['"'] + cs.subrange(p + 1, e));
            }
        } else if c == '#' {
            let e = find_from(cs, p + 1, '\n');
            assert(stretch =~= seq!['#'] + cs.subrange(p + 1, e));
        } else if next.pos == p + 1 {
            assert(stretch =~= seq![c]);
        }
    }
}

/// Lexing splits the input into consecutive stretches, one for each token,
/// that cover it from the start to the end: every key, section name and
/// value carries exactly the content of its stretch, and the other tokens
/// stand for the punctuation, comment, white space or line break written
/// there.
pub proof fn lemma_tokens_cover_input(cs: Seq<char>, st: LexState)
    requires
        0 <= st.pos <= cs.len(),
    ensures
        ({
            let toks = lex_all(cs, st);
            let ends = lex_ends(cs, st);
            &&& toks.len() == ends.len()
            &&& toks.len() > 0
            &&& toks.last() is EOF
            &&& ends.last() == cs.len()
            &&& forall|i: int| 0 <= i < toks.len() ==> {
                let a = if i == 0 { st.pos } else { ends[i - 1] };
                &&& a <= #[trigger] ends[i]
                &&& stands_for(toks[i], cs.subrange(a, ends[i]), ends[i] == cs.len())
            }
        }),
    decreases cs.len() - st.pos,
{
    lemma_step(cs, st);
    let (t, next) = lex_step(cs, st);
    if !(t is EOF || !(st.pos < next.pos <= cs.len())) {
        lemma_tokens_cover_input(cs, next);
        let toks = lex_all(cs, st);
        let ends = lex_ends(cs, st);
        let rest = lex_ends(cs, next);
        assert(ends == seq![next.pos] + rest);
        assert forall|i: int| 0 <= i < toks.len() implies {
            let a = if i == 0 { st.pos } else { ends[i - 1] };
            &&& a <= #[trigger] ends[i]
            &&& stands_for(toks[i], cs.subrange(a, ends[i]), ends[i] == cs.len())
        } by {
            if i > 0 {
                assert(toks[i] == lex_all(cs, next)[i - 1]);
                assert(ends[i] == rest[i - 1]);
                if i > 1 {
                    assert(ends[i - 1] == rest[i - 2]);
                }
            }
        }
    }
}

/// All tokens of `input`, through the end-of-input token.
pub fn tokenize(input: &str) -> (r: Vec<Token>)
    ensures
        tokens_view(r@) == lex(input@),
{
    let mut lexer = Lexer::new(input);
    let mut tokens: Vec<Token> = Vec::new();
    loop
        invariant
            lexer.wf(),
            lexer.text() == input@,
            tokens_view(tokens@) + lex_all(input@, lexer.state()) == lex(input@),
        decreases input@.len() - lexer.state().pos,
    {
        let ghost before = lexer.state();
        proof {
            lexer.lemma_wf();
            lemma_step(input@, before);
        }
        let tok = lexer.next_token();
        let done = match tok {
            Token::EOF => true,
            _ => false,
        };
        proof {
            lexer.lemma_wf();
            assert(tokens_view(tokens@.push(tok)) =~= tokens_view(tokens@).push(tok@));
            if !done {
                assert(lex_all(input@, before) == seq![tok@] + lex_all(input@, lexer.state()));
                assert(tokens_view(tokens@.push(tok)) + lex_all(input@, lexer.state())
                    =~= tokens_view(tokens@) + lex_all(input@, before));
            } else {
                assert(lex_all(input@, before) == seq![tok@]);
                assert(tokens_view(tokens@.push(tok)) =~= tokens_view(tokens@) + lex_all(input@, before));
            }
        }
        tokens.push(tok);
        if done {
            return tokens;
        }
    }
}

} // verus!
