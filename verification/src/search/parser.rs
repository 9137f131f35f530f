//! Tokenizer and recursive descent parser for search query strings.
//!
//! Grammar:
//! ```text
//! query      = or_expr
//! or_expr    = and_expr ("OR" and_expr)*
//! and_expr   = unary_expr+
//! unary_expr = "-" atom | atom
//! atom       = field_expr | "(" query ")" | bare_text
//! field_expr = FIELD_PREFIX value_expr
//! value_expr = "(" query ")" | property_value | STRING_MATCHER
//! bare_text  = STRING_MATCHER  (a content predicate)
//! ```

use vstd::prelude::*;
use crate::search::matcher::compare_spec;
use crate::error::VaultError;
use crate::search::types::{
    lemma_view_field, lemma_view_not,
    FieldPredicate, MatcherV, PredV, PropertyOp, QueryV, SearchQuery, StringMatcher,
    matcher_view, queries_view, query_view,
};
use crate::text::{
    alphanumeric, chars_of, concat, debug_repr, debug_string, decimal, decimal_string,
    is_alphanumeric, is_whitespace, is_ws, lit, same_chars, str_lowercase, string_of, sub_vec,
    to_lowercase, trim, trim_vec,
};

verus! {

// ===========================================================================
// Tokens
// ===========================================================================

/// A token of the query language.
#[derive(Debug, Clone, PartialEq)]
pub enum Token {
    /// A plain word.
    Word(String),
    /// A double-quoted string literal, unescaped.
    QuotedString(String),
    /// A regex literal `/pattern/`, without the slashes.
    RegexLiteral(String),
    /// A known field name followed by a colon, lowercased, without the colon.
    FieldPrefix(String),
    /// `(`
    OpenParen,
    /// `)`
    CloseParen,
    /// The keyword `OR`.
    Or,
    /// A leading `-`.
    Not,
    /// A comparison operator of property values.
    ComparisonOp(String),
}

/// The mathematical value of a token.
pub enum TokV {
    Word(Seq<char>),
    Quoted(Seq<char>),
    Regex(Seq<char>),
    Field(Seq<char>),
    Open,
    Close,
    Or,
    Not,
    Cmp(Seq<char>),
}

pub open spec fn tok_view(t: Token) -> TokV {
    match t {
        Token::Word(s) => TokV::Word(s@),
        Token::QuotedString(s) => TokV::Quoted(s@),
        Token::RegexLiteral(s) => TokV::Regex(s@),
        Token::FieldPrefix(s) => TokV::Field(s@),
        Token::OpenParen => TokV::Open,
        Token::CloseParen => TokV::Close,
        Token::Or => TokV::Or,
        Token::Not => TokV::Not,
        Token::ComparisonOp(s) => TokV::Cmp(s@),
    }
}

pub open spec fn toks_view(ts: Seq<Token>) -> Seq<TokV> {
    ts.map_values(|t: Token| tok_view(t))
}

/// The text that `{:?}` writes for a token.
pub open spec fn tok_debug(t: TokV) -> Seq<char> {
    match t {
        TokV::Word(s) => "Word("@ + debug_repr(s) + ")"@,
        TokV::Quoted(s) => "QuotedString("@ + debug_repr(s) + ")"@,
        TokV::Regex(s) => "RegexLiteral("@ + debug_repr(s) + ")"@,
        TokV::Field(s) => "FieldPrefix("@ + debug_repr(s) + ")"@,
        TokV::Open => "OpenParen"@,
        TokV::Close => "CloseParen"@,
        TokV::Or => "Or"@,
        TokV::Not => "Not"@,
        TokV::Cmp(s) => "ComparisonOp("@ + debug_repr(s) + ")"@,
    }
}

impl Token {
    /// The text that `{:?}` writes for this token.
    pub fn debug_text(&self) -> (r: String)
        ensures
            r@ == tok_debug(tok_view(*self)),
    {
        match self {
            Token::Word(s) => concat(concat(lit("Word("), debug_string(s.as_str()).as_str()), ")"),
            Token::QuotedString(s) => concat(
                concat(lit("QuotedString("), debug_string(s.as_str()).as_str()),
                ")",
            ),
            Token::RegexLiteral(s) => concat(
                concat(lit("RegexLiteral("), debug_string(s.as_str()).as_str()),
                ")",
            ),
            Token::FieldPrefix(s) => concat(
                concat(lit("FieldPrefix("), debug_string(s.as_str()).as_str()),
                ")",
            ),
            Token::OpenParen => lit("OpenParen"),
            Token::CloseParen => lit("CloseParen"),
            Token::Or => lit("Or"),
            Token::Not => lit("Not"),
            Token::ComparisonOp(s) => concat(
                concat(lit("ComparisonOp("), debug_string(s.as_str()).as_str()),
                ")",
            ),
        }
    }
}

// ===========================================================================
// Tokenizer specification
// ===========================================================================

/// A character that may stand in a word.
pub open spec fn word_char(c: char) -> bool {
    is_alphanumeric(c) || c == '_' || c == '-' || c == '.' || c == '/'
}

/// The field names that a `name:` prefix may carry.
pub open spec fn known_field(w: Seq<char>) -> bool {
    w == "path"@ || w == "filename"@ || w == "tag"@ || w == "content"@ || w == "section"@ || w
        == "line"@ || w == "property"@
}

/// End of the run of word characters starting at `i`.
pub open spec fn word_end(s: Seq<char>, i: int) -> int
    decreases s.len() - i,
{
    if 0 <= i < s.len() && word_char(s[i]) {
        word_end(s, i + 1)
    } else {
        i
    }
}

/// Body of a quoted string starting at `i` (after the opening quote), with
/// escapes removed, and the index of the closing quote (or the end).
pub open spec fn quoted_scan(s: Seq<char>, i: int) -> (Seq<char>, int)
    decreases s.len() - i,
{
    if i < 0 || i >= s.len() || s[i] == '"' {
        (Seq::empty(), i)
    } else if s[i] == '\\' && i + 1 < s.len() {
        let r = quoted_scan(s, i + 2);
        (seq![s[i + 1]] + r.0, r.1)
    } else {
        let r = quoted_scan(s, i + 1);
        (seq![s[i]] + r.0, r.1)
    }
}

/// Body of a regex literal starting at `i` (after the opening slash),
/// escapes kept, and the index of the closing slash (or the end).
pub open spec fn regex_scan(s: Seq<char>, i: int) -> (Seq<char>, int)
    decreases s.len() - i,
{
    if i < 0 || i >= s.len() || s[i] == '/' {
        (Seq::empty(), i)
    } else if s[i] == '\\' && i + 1 < s.len() {
        let r = regex_scan(s, i + 2);
        (seq![s[i], s[i + 1]] + r.0, r.1)
    } else {
        let r = regex_scan(s, i + 1);
        (seq![s[i]] + r.0, r.1)
    }
}

/// Past a closing delimiter at `j`, if there is one.
pub open spec fn past_close(s: Seq<char>, j: int) -> int {
    if j < s.len() {
        j + 1
    } else {
        j
    }
}

/// One step of the tokenizer at `i < s.len()`: the token read, if any, and
/// where the next step starts.
pub open spec fn tok_step(s: Seq<char>, i: int) -> (Option<TokV>, int) {
    let c = s[i];
    let n = s.len();
    if is_ws(c) {
        (None, i + 1)
    } else if c == '(' {
        (Some(TokV::Open), i + 1)
    } else if c == ')' {
        (Some(TokV::Close), i + 1)
    } else if c == '-' && i + 1 < n && !is_ws(s[i + 1]) {
        (Some(TokV::Not), i + 1)
    } else if c == '"' {
        let r = quoted_scan(s, i + 1);
        (Some(TokV::Quoted(r.0)), past_close(s, r.1))
    } else if c == '/' {
        let r = regex_scan(s, i + 1);
        (Some(TokV::Regex(r.0)), past_close(s, r.1))
    } else if c == '!' && i + 1 < n && s[i + 1] == '=' {
        (Some(TokV::Cmp("!="@)), i + 2)
    } else if c == '<' && i + 1 < n && s[i + 1] == '=' {
        (Some(TokV::Cmp("<="@)), i + 2)
    } else if c == '>' && i + 1 < n && s[i + 1] == '=' {
        (Some(TokV::Cmp(">="@)), i + 2)
    } else if c == '<' {
        (Some(TokV::Cmp("<"@)), i + 1)
    } else if c == '>' {
        (Some(TokV::Cmp(">"@)), i + 1)
    } else if c == '=' {
        (Some(TokV::Cmp("="@)), i + 1)
    } else if word_char(c) {
        let e = word_end(s, i);
        let w = s.subrange(i, e);
        if w == "OR"@ {
            (Some(TokV::Or), e)
        } else if e < n && s[e] == ':' && known_field(str_lowercase(w)) {
            (Some(TokV::Field(str_lowercase(w))), e + 1)
        } else {
            (Some(TokV::Word(w)), e)
        }
    } else {
        (None, i + 1)
    }
}

/// The tokens of `s` from offset `i`.
pub open spec fn toks_from(s: Seq<char>, i: int) -> Seq<TokV>
    decreases s.len() - i,
{
    if i < 0 || i >= s.len() {
        Seq::empty()
    } else {
        let st = tok_step(s, i);
        if st.1 <= i || st.1 > s.len() {
            Seq::empty()
        } else {
            match st.0 {
                Some(t) => seq![t] + toks_from(s, st.1),
                None => toks_from(s, st.1),
            }
        }
    }
}

/// The tokens of a query string.
pub open spec fn spec_tokenize(s: Seq<char>) -> Seq<TokV> {
    toks_from(s, 0)
}

// ===========================================================================
// Tokenizer
// ===========================================================================

fn is_word_char(ch: char) -> (r: bool)
    ensures
        r == word_char(ch),
{
    alphanumeric(ch) || ch == '_' || ch == '-' || ch == '.' || ch == '/'
}

fn is_known_field(w: &str) -> (r: bool)
    ensures
        r == known_field(w@),
{
    let c = chars_of(w);
    same_chars(c.as_slice(), chars_of("path").as_slice()) || same_chars(
        c.as_slice(),
        chars_of("filename").as_slice(),
    ) || same_chars(c.as_slice(), chars_of("tag").as_slice()) || same_chars(
        c.as_slice(),
        chars_of("content").as_slice(),
    ) || same_chars(c.as_slice(), chars_of("section").as_slice()) || same_chars(
        c.as_slice(),
        chars_of("line").as_slice(),
    ) || same_chars(c.as_slice(), chars_of("property").as_slice())
}

fn word_end_exec(s: &Vec<char>, i: usize) -> (r: usize)
    requires
        i < s@.len(),
        word_char(s@[i as int]),
    ensures
        r == word_end(s@, i as int),
        i < r <= s@.len(),
{
    let n = s.len();
    let mut j = i + 1;
    while j < s.len() && is_word_char(s[j])
        invariant
            i < j <= s@.len(),
            word_end(s@, j as int) == word_end(s@, i as int),
        decreases s@.len() - j,
    {
        j = j + 1;
    }
    j
}

fn quoted_scan_exec(s: &Vec<char>, i: usize) -> (r: (Vec<char>, usize))
    requires
        i <= s@.len(),
    ensures
        r.0@ == quoted_scan(s@, i as int).0,
        r.1 == quoted_scan(s@, i as int).1,
        i <= r.1 <= s@.len(),
{
    let mut acc: Vec<char> = Vec::new();
    let mut j = i;
    while j < s.len() && s[j] != '"'
        invariant
            i <= j <= s@.len(),
            acc@ + quoted_scan(s@, j as int).0 == quoted_scan(s@, i as int).0,
            quoted_scan(s@, j as int).1 == quoted_scan(s@, i as int).1,
        decreases s@.len() - j,
    {
        let ghost before = acc@;
        if s[j] == '\\' && j + 1 < s.len() {
            acc.push(s[j + 1]);
            proof {
                let r = quoted_scan(s@, j + 2);
                assert(acc@ + r.0 =~= before + (seq![s@[j + 1]] + r.0));
            }
            j = j + 2;
        } else {
            acc.push(s[j]);
            proof {
                let r = quoted_scan(s@, j + 1);
                assert(acc@ + r.0 =~= before + (seq![s@[j as int]] + r.0));
            }
            j = j + 1;
        }
    }
    proof {
        assert(acc@ + Seq::<char>::empty() == acc@);
    }
    (acc, j)
}

fn regex_scan_exec(s: &Vec<char>, i: usize) -> (r: (Vec<char>, usize))
    requires
        i <= s@.len(),
    ensures
        r.0@ == regex_scan(s@, i as int).0,
        r.1 == regex_scan(s@, i as int).1,
        i <= r.1 <= s@.len(),
{
    let mut acc: Vec<char> = Vec::new();
    let mut j = i;
    while j < s.len() && s[j] != '/'
        invariant
            i <= j <= s@.len(),
            acc@ + regex_scan(s@, j as int).0 == regex_scan(s@, i as int).0,
            regex_scan(s@, j as int).1 == regex_scan(s@, i as int).1,
        decreases s@.len() - j,
    {
        let ghost before = acc@;
        if s[j] == '\\' && j + 1 < s.len() {
            acc.push(s[j]);
            acc.push(s[j + 1]);
            proof {
                let r = regex_scan(s@, j + 2);
                assert(acc@ + r.0 =~= before + (seq![s@[j as int], s@[j + 1]] + r.0));
            }
            j = j + 2;
        } else {
            acc.push(s[j]);
            proof {
                let r = regex_scan(s@, j + 1);
                assert(acc@ + r.0 =~= before + (seq![s@[j as int]] + r.0));
            }
            j = j + 1;
        }
    }
    proof {
        assert(acc@ + Seq::<char>::empty() == acc@);
    }
    (acc, j)
}

/// One step of the tokenizer.
fn tok_step_exec(s: &Vec<char>, i: usize) -> (r: (Option<Token>, usize))
    requires
        i < s@.len(),
    ensures
        r.1 == tok_step(s@, i as int).1,
        match tok_step(s@, i as int).0 {
            Some(t) => r.0 matches Some(x) && tok_view(x) == t,
            None => r.0 is None,
        },
        i < r.1 <= s@.len(),
{
    let n = s.len();
    let c = s[i];
    if is_whitespace(c) {
        (None, i + 1)
    } else if c == '(' {
        (Some(Token::OpenParen), i + 1)
    } else if c == ')' {
        (Some(Token::CloseParen), i + 1)
    } else if c == '-' && i + 1 < n && !is_whitespace(s[i + 1]) {
        (Some(Token::Not), i + 1)
    } else if c == '"' {
        let (b, j) = quoted_scan_exec(s, i + 1);
        let next = if j < n {
            j + 1
        } else {
            j
        };
        (Some(Token::QuotedString(string_of(b.as_slice()))), next)
    } else if c == '/' {
        let (b, j) = regex_scan_exec(s, i + 1);
        let next = if j < n {
            j + 1
        } else {
            j
        };
        (Some(Token::RegexLiteral(string_of(b.as_slice()))), next)
    } else if c == '!' && i + 1 < n && s[i + 1] == '=' {
        (Some(Token::ComparisonOp(lit("!="))), i + 2)
    } else if c == '<' && i + 1 < n && s[i + 1] == '=' {
        (Some(Token::ComparisonOp(lit("<="))), i + 2)
    } else if c == '>' && i + 1 < n && s[i + 1] == '=' {
        (Some(Token::ComparisonOp(lit(">="))), i + 2)
    } else if c == '<' {
        (Some(Token::ComparisonOp(lit("<"))), i + 1)
    } else if c == '>' {
        (Some(Token::ComparisonOp(lit(">"))), i + 1)
    } else if c == '=' {
        (Some(Token::ComparisonOp(lit("="))), i + 1)
    } else if is_word_char(c) {
        let e = word_end_exec(s, i);
        let w = sub_vec(s, i, e);
        if same_chars(w.as_slice(), chars_of("OR").as_slice()) {
            (Some(Token::Or), e)
        } else {
            let word = string_of(w.as_slice());
            if e < n && s[e] == ':' {
                let lower = to_lowercase(word.as_str());
                if is_known_field(lower.as_str()) {
                    return (Some(Token::FieldPrefix(lower)), e + 1);
                }
            }
            (Some(Token::Word(word)), e)
        }
    } else {
        (None, i + 1)
    }
}

/// Split a query string into tokens. Unknown characters are skipped; this
/// never fails.
pub fn tokenize(input: &str) -> (r: Result<Vec<Token>, VaultError>)
    ensures
        r matches Ok(v) && toks_view(v@) == spec_tokenize(input@),
{
    let chars = chars_of(input);
    let len = chars.len();
    let mut tokens: Vec<Token> = Vec::new();
    let mut i: usize = 0;
    while i < len
        invariant
            i <= len,
            len == chars@.len(),
            toks_view(tokens@) + toks_from(chars@, i as int) == toks_from(chars@, 0),
        decreases len - i,
    {
        let (t, j) = tok_step_exec(&chars, i);
        let ghost before = toks_view(tokens@);
        match t {
            Some(x) => {
                tokens.push(x);
                proof {
                    assert(toks_view(tokens@) =~= before.push(tok_view(x)));
                    assert(toks_view(tokens@) + toks_from(chars@, j as int) =~= before + (seq![
                        tok_view(x),
                    ] + toks_from(chars@, j as int)));
                }
            },
            None => {},
        }
        i = j;
    }
    proof {
        assert(toks_view(tokens@) + Seq::<TokV>::empty() == toks_view(tokens@));
    }
    Ok(tokens)
}

// ===========================================================================
// Parser specification
// ===========================================================================

/// A parse result: the query value and the position after it, or a message.
pub type ParseV = Result<(QueryV, int), Seq<char>>;

/// The token at `pos`, if any.
pub open spec fn tok_at(ts: Seq<TokV>, pos: int) -> Option<TokV> {
    if 0 <= pos < ts.len() {
        Some(ts[pos])
    } else {
        None
    }
}

/// The text of a word or a quoted string token.
pub open spec fn word_or_quoted(t: Option<TokV>) -> Option<Seq<char>> {
    match t {
        Some(TokV::Word(w)) => Some(w),
        Some(TokV::Quoted(q)) => Some(q),
        _ => None,
    }
}

/// `"<prefix>, got <token>"`, or `"<prefix>, got end of input"`.
pub open spec fn msg_got(prefix: Seq<char>, t: Option<TokV>) -> Seq<char> {
    match t {
        Some(x) => prefix + ", got "@ + tok_debug(x),
        None => prefix + ", got end of input"@,
    }
}

pub open spec fn msg_unexpected(t: TokV, pos: int) -> Seq<char> {
    "Unexpected token "@ + tok_debug(t) + " at position "@ + decimal(pos as nat)
}

pub open spec fn msg_empty_query() -> Seq<char> {
    "Empty search query"@
}

/// Several children become an `And`/`Or` node; a single child stands alone.
pub open spec fn group(acc: Seq<QueryV>, or: bool) -> QueryV {
    if acc.len() == 1 {
        acc[0]
    } else if or {
        QueryV::Or(acc)
    } else {
        QueryV::And(acc)
    }
}

/// A closing parenthesis at `p`: the position after it.
pub open spec fn sp_close(ts: Seq<TokV>, p: int) -> Result<int, Seq<char>> {
    match tok_at(ts, p) {
        Some(TokV::Close) => Ok(p + 1),
        Some(t) => Err(
            "Expected CloseParen, got "@ + tok_debug(t) + " at position "@ + decimal((p + 1) as nat),
        ),
        None => Err("Expected CloseParen, got end of input"@),
    }
}

/// A string matcher at `pos`.
pub open spec fn sp_matcher(ts: Seq<TokV>, pos: int) -> Result<(MatcherV, int), Seq<char>> {
    match tok_at(ts, pos) {
        Some(TokV::Quoted(v)) => Ok((MatcherV::Exact(v), pos + 1)),
        Some(TokV::Regex(v)) => Ok((MatcherV::Regex(v), pos + 1)),
        Some(TokV::Word(v)) => Ok((MatcherV::Contains(v), pos + 1)),
        Some(t) => Err("Expected string, quoted string, or regex; got "@ + tok_debug(t)),
        None => Err("Expected string value, got end of input"@),
    }
}

/// The property operator a comparison token stands for.
pub open spec fn op_of(op: Seq<char>) -> Option<PropertyOp> {
    if op == "="@ {
        Some(PropertyOp::Eq)
    } else if op == "!="@ {
        Some(PropertyOp::NotEq)
    } else if op == "<"@ {
        Some(PropertyOp::Lt)
    } else if op == ">"@ {
        Some(PropertyOp::Gt)
    } else if op == "<="@ {
        Some(PropertyOp::Lte)
    } else if op == ">="@ {
        Some(PropertyOp::Gte)
    } else {
        None
    }
}

/// Each comparison token parses to an operator of its own, and the
/// operators mean what their tokens say on text values: `>=` holds exactly
/// when `<` does not, `<=` exactly when `>` does not, `>` is `<` with the
/// values swapped, `!=` is the negation of `=`, `=` and `<=` hold between a
/// value and itself, and `<` does not.
pub proof fn law_comparison_tokens(t1: Seq<char>, t2: Seq<char>, a: Seq<char>, b: Seq<char>)
    ensures
        op_of(t1) is Some && op_of(t1) == op_of(t2) ==> t1 == t2,
        op_of("="@) is Some && op_of("!="@) is Some && op_of("<"@) is Some,
        op_of(">"@) is Some && op_of("<="@) is Some && op_of(">="@) is Some,
        compare_spec(a, b, op_of(">="@)->0, None) == !compare_spec(a, b, op_of("<"@)->0, None),
        compare_spec(a, b, op_of("<="@)->0, None) == !compare_spec(a, b, op_of(">"@)->0, None),
        compare_spec(a, b, op_of(">"@)->0, None) == compare_spec(b, a, op_of("<"@)->0, None),
        compare_spec(a, b, op_of("!="@)->0, None) == !compare_spec(a, b, op_of("="@)->0, None),
        compare_spec(a, a, op_of("="@)->0, None),
        compare_spec(a, a, op_of("<="@)->0, None),
        !compare_spec(a, a, op_of("<"@)->0, None),
{
    reveal_strlit("=");
    reveal_strlit("!=");
    reveal_strlit("<");
    reveal_strlit(">");
    reveal_strlit("<=");
    reveal_strlit(">=");
    assert("="@ =~= seq!['=']);
    assert("!="@ =~= seq!['!', '=']);
    assert("<"@ =~= seq!['<']);
    assert(">"@ =~= seq!['>']);
    assert("<="@ =~= seq!['<', '=']);
    assert(">="@ =~= seq!['>', '=']);
    assert("<"@ != "="@) by {
        assert("<"@[0] != "="@[0]);
    }
    assert(">"@ != "="@) by {
        assert(">"@[0] != "="@[0]);
    }
    assert(">"@ != "<"@) by {
        assert(">"@[0] != "<"@[0]);
    }
    assert("<="@ != "!="@) by {
        assert("<="@[0] != "!="@[0]);
    }
    assert(">="@ != "!="@) by {
        assert(">="@[0] != "!="@[0]);
    }
    assert(">="@ != "<="@) by {
        assert(">="@[0] != "<="@[0]);
    }
    assert(op_of("="@) == Some(PropertyOp::Eq));
    assert(op_of("!="@) == Some(PropertyOp::NotEq));
    assert(op_of("<"@) == Some(PropertyOp::Lt));
    assert(op_of(">"@) == Some(PropertyOp::Gt));
    assert(op_of("<="@) == Some(PropertyOp::Lte));
    assert(op_of(">="@) == Some(PropertyOp::Gte));
    crate::search::matcher::law_text_comparisons(a, b);
    crate::search::matcher::law_text_comparisons(a, a);
}

/// `property:key`, `property:key<op>value` (after the prefix).
pub open spec fn sp_property(ts: Seq<TokV>, pos: int) -> ParseV {
    match word_or_quoted(tok_at(ts, pos)) {
        None => Err(msg_got("Expected property key"@, tok_at(ts, pos))),
        Some(key) => match tok_at(ts, pos + 1) {
            Some(TokV::Cmp(op)) => match op_of(op) {
                None => Err("Unknown operator: "@ + op),
                Some(o) => match word_or_quoted(tok_at(ts, pos + 2)) {
                    Some(v) => Ok(
                        (QueryV::Field(PredV::Property(key, o, Some(v))), pos + 3),
                    ),
                    None => Err(msg_got("Expected property value"@, tok_at(ts, pos + 2))),
                },
            },
            _ => Ok((QueryV::Field(PredV::Property(key, PropertyOp::Exists, None)), pos + 1)),
        },
    }
}

/// The rest of a tag group: `("OR" value)*`.
pub open spec fn sp_tag_tail(ts: Seq<TokV>, pos: int, acc: Seq<QueryV>) -> ParseV
    decreases ts.len() - pos,
{
    if tok_at(ts, pos) == Some(TokV::Or) {
        match word_or_quoted(tok_at(ts, pos + 1)) {
            Some(v) => sp_tag_tail(ts, pos + 2, acc.push(QueryV::Field(PredV::Tag(v)))),
            None => Err(msg_got("Expected tag value after OR"@, tok_at(ts, pos + 1))),
        }
    } else {
        Ok((group(acc, true), pos))
    }
}

/// A tag group `value ("OR" value)*`.
pub open spec fn sp_tag_group(ts: Seq<TokV>, pos: int) -> ParseV {
    match word_or_quoted(tok_at(ts, pos)) {
        Some(v) => sp_tag_tail(ts, pos + 1, seq![QueryV::Field(PredV::Tag(v))]),
        None => Err(msg_got("Expected tag value"@, tok_at(ts, pos))),
    }
}

/// `tag:value` or `tag:(value OR ...)` (after the prefix).
pub open spec fn sp_tag(ts: Seq<TokV>, pos: int) -> ParseV {
    if tok_at(ts, pos) == Some(TokV::Open) {
        match sp_tag_group(ts, pos + 1) {
            Err(m) => Err(m),
            Ok(r) => match sp_close(ts, r.1) {
                Ok(p) => Ok((r.0, p)),
                Err(m) => Err(m),
            },
        }
    } else {
        match word_or_quoted(tok_at(ts, pos)) {
            Some(v) => Ok((QueryV::Field(PredV::Tag(v)), pos + 1)),
            None => Err(msg_got("Expected tag value"@, tok_at(ts, pos))),
        }
    }
}

/// A section or line scope around a query.
pub open spec fn scoped(section: bool, q: QueryV) -> QueryV {
    if section {
        QueryV::Field(PredV::Section(Box::new(q)))
    } else {
        QueryV::Field(PredV::Line(Box::new(q)))
    }
}

/// A matcher result wrapped as a field predicate.
pub open spec fn with_matcher(r: Result<(MatcherV, int), Seq<char>>, f: spec_fn(MatcherV) -> PredV) -> ParseV {
    match r {
        Ok(x) => Ok((QueryV::Field(f(x.0)), x.1)),
        Err(m) => Err(m),
    }
}

/// `or_expr` at `pos`.
pub open spec fn sp_or(ts: Seq<TokV>, pos: int) -> ParseV
    decreases ts.len() - pos, 6int,
{
    match sp_and(ts, pos) {
        Err(m) => Err(m),
        Ok(r) => if r.1 <= pos || r.1 > ts.len() {
            Err(Seq::empty())
        } else {
            sp_or_tail(ts, r.1, seq![r.0])
        },
    }
}

/// `("OR" and_expr)*` at `pos`, after the children `acc`.
pub open spec fn sp_or_tail(ts: Seq<TokV>, pos: int, acc: Seq<QueryV>) -> ParseV
    decreases ts.len() - pos, 6int,
{
    if tok_at(ts, pos) == Some(TokV::Or) {
        match sp_and(ts, pos + 1) {
            Err(m) => Err(m),
            Ok(r) => if r.1 <= pos + 1 || r.1 > ts.len() {
                Err(Seq::empty())
            } else {
                sp_or_tail(ts, r.1, acc.push(r.0))
            },
        }
    } else {
        Ok((group(acc, true), pos))
    }
}

/// `and_expr` at `pos`.
pub open spec fn sp_and(ts: Seq<TokV>, pos: int) -> ParseV
    decreases ts.len() - pos, 5int,
{
    match sp_unary(ts, pos) {
        Err(m) => Err(m),
        Ok(r) => if r.1 <= pos || r.1 > ts.len() {
            Err(Seq::empty())
        } else {
            sp_and_tail(ts, r.1, seq![r.0])
        },
    }
}

/// `unary_expr*` at `pos`, after the children `acc`; it stops before `OR`,
/// `)` or the end.
pub open spec fn sp_and_tail(ts: Seq<TokV>, pos: int, acc: Seq<QueryV>) -> ParseV
    decreases ts.len() - pos, 5int,
{
    match tok_at(ts, pos) {
        None => Ok((group(acc, false), pos)),
        Some(TokV::Or) => Ok((group(acc, false), pos)),
        Some(TokV::Close) => Ok((group(acc, false), pos)),
        Some(_) => match sp_unary(ts, pos) {
            Err(m) => Err(m),
            Ok(r) => if r.1 <= pos || r.1 > ts.len() {
                Err(Seq::empty())
            } else {
                sp_and_tail(ts, r.1, acc.push(r.0))
            },
        },
    }
}

/// `unary_expr` at `pos`.
pub open spec fn sp_unary(ts: Seq<TokV>, pos: int) -> ParseV
    decreases ts.len() - pos, 4int,
{
    if tok_at(ts, pos) == Some(TokV::Not) {
        match sp_atom(ts, pos + 1) {
            Err(m) => Err(m),
            Ok(r) => Ok((QueryV::Not(Box::new(r.0)), r.1)),
        }
    } else {
        sp_atom(ts, pos)
    }
}

/// `atom` at `pos`.
pub open spec fn sp_atom(ts: Seq<TokV>, pos: int) -> ParseV
    decreases ts.len() - pos, 3int,
{
    match tok_at(ts, pos) {
        Some(TokV::Field(_)) => sp_field(ts, pos),
        Some(TokV::Open) => match sp_or(ts, pos + 1) {
            Err(m) => Err(m),
            Ok(r) => match sp_close(ts, r.1) {
                Ok(p) => Ok((r.0, p)),
                Err(m) => Err(m),
            },
        },
        Some(TokV::Word(_)) => with_matcher(sp_matcher(ts, pos), |m: MatcherV| PredV::Content(m)),
        Some(TokV::Quoted(_)) => with_matcher(sp_matcher(ts, pos), |m: MatcherV| PredV::Content(m)),
        Some(TokV::Regex(_)) => with_matcher(sp_matcher(ts, pos), |m: MatcherV| PredV::Content(m)),
        Some(t) => Err(msg_unexpected(t, pos)),
        None => Err("Unexpected end of input"@),
    }
}

/// `field_expr` at `pos`.
pub open spec fn sp_field(ts: Seq<TokV>, pos: int) -> ParseV
    decreases ts.len() - pos, 2int,
{
    match tok_at(ts, pos) {
        Some(TokV::Field(f)) => if f == "property"@ {
            sp_property(ts, pos + 1)
        } else if f == "tag"@ {
            sp_tag(ts, pos + 1)
        } else if f == "section"@ {
            sp_scoping(ts, pos + 1, true)
        } else if f == "line"@ {
            sp_scoping(ts, pos + 1, false)
        } else if f == "path"@ {
            with_matcher(sp_matcher(ts, pos + 1), |m: MatcherV| PredV::Path(m))
        } else if f == "filename"@ {
            with_matcher(sp_matcher(ts, pos + 1), |m: MatcherV| PredV::Filename(m))
        } else if f == "content"@ {
            with_matcher(sp_matcher(ts, pos + 1), |m: MatcherV| PredV::Content(m))
        } else {
            Err("Unknown field: "@ + f)
        },
        _ => Err(Seq::empty()),
    }
}

/// `section:` / `line:` value at `pos`.
pub open spec fn sp_scoping(ts: Seq<TokV>, pos: int, section: bool) -> ParseV
    decreases ts.len() - pos, 1int,
{
    if tok_at(ts, pos) == Some(TokV::Open) {
        match sp_or(ts, pos + 1) {
            Err(m) => Err(m),
            Ok(r) => match sp_close(ts, r.1) {
                Ok(p) => Ok((scoped(section, r.0), p)),
                Err(m) => Err(m),
            },
        }
    } else {
        match sp_matcher(ts, pos) {
            Ok(r) => Ok((scoped(section, QueryV::Field(PredV::Content(r.0))), r.1)),
            Err(m) => Err(m),
        }
    }
}

/// The query that a string denotes, or the message of the error.
pub open spec fn spec_parse_query(s: Seq<char>) -> Result<QueryV, Seq<char>> {
    let t = trim(s);
    let ts = spec_tokenize(t);
    if t.len() == 0 || ts.len() == 0 {
        Err(msg_empty_query())
    } else {
        match sp_or(ts, 0) {
            Err(m) => Err(m),
            Ok(r) => if r.1 < ts.len() {
                Err(msg_unexpected(ts[r.1], r.1))
            } else {
                Ok(r.0)
            },
        }
    }
}

/// An executable parse result agrees with its value.
pub open spec fn agrees<T>(
    r: Result<(T, usize), VaultError>,
    s: Result<(QueryV, int), Seq<char>>,
    view: spec_fn(T) -> QueryV,
) -> bool {
    match s {
        Ok(x) => r matches Ok(y) && view(y.0) == x.0 && y.1 == x.1,
        Err(m) => r matches Err(VaultError::SearchError(e)) && e@ == m,
    }
}

pub open spec fn parse_agrees(r: Result<(SearchQuery, usize), VaultError>, s: ParseV) -> bool {
    match s {
        Ok(x) => r matches Ok(y) && query_view(y.0) == x.0 && y.1 == x.1,
        Err(m) => r matches Err(VaultError::SearchError(e)) && e@ == m,
    }
}

// ===========================================================================
// Parser
// ===========================================================================

struct Parser {
    tokens: Vec<Token>,
}

fn search_error(m: String) -> (r: VaultError)
    ensures
        r matches VaultError::SearchError(e) && e@ == m@,
{
    VaultError::SearchError(m)
}

/// The text of a word or quoted string token.
fn word_or_quoted_exec(t: Option<&Token>) -> (r: Option<String>)
    ensures
        match word_or_quoted(
            match t {
                Some(x) => Some(tok_view(*x)),
                None => None,
            },
        ) {
            Some(v) => r matches Some(x) && x@ == v,
            None => r is None,
        },
{
    match t {
        Some(Token::Word(w)) => Some(w.clone()),
        Some(Token::QuotedString(q)) => Some(q.clone()),
        _ => None,
    }
}

fn got_message(prefix: &str, t: Option<&Token>) -> (r: String)
    ensures
        r@ == msg_got(
            prefix@,
            match t {
                Some(x) => Some(tok_view(*x)),
                None => None,
            },
        ),
{
    match t {
        Some(x) => concat(concat(lit(prefix), ", got "), x.debug_text().as_str()),
        None => concat(lit(prefix), ", got end of input"),
    }
}

fn unexpected_message(t: &Token, pos: usize) -> (r: String)
    ensures
        r@ == msg_unexpected(tok_view(*t), pos as int),
{
    let m = concat(lit("Unexpected token "), t.debug_text().as_str());
    let m = concat(m, " at position ");
    concat(m, decimal_string(pos).as_str())
}

fn op_of_exec(op: &str) -> (r: Option<PropertyOp>)
    ensures
        r == op_of(op@),
{
    let c = chars_of(op);
    if same_chars(c.as_slice(), chars_of("=").as_slice()) {
        Some(PropertyOp::Eq)
    } else if same_chars(c.as_slice(), chars_of("!=").as_slice()) {
        Some(PropertyOp::NotEq)
    } else if same_chars(c.as_slice(), chars_of("<").as_slice()) {
        Some(PropertyOp::Lt)
    } else if same_chars(c.as_slice(), chars_of(">").as_slice()) {
        Some(PropertyOp::Gt)
    } else if same_chars(c.as_slice(), chars_of("<=").as_slice()) {
        Some(PropertyOp::Lte)
    } else if same_chars(c.as_slice(), chars_of(">=").as_slice()) {
        Some(PropertyOp::Gte)
    } else {
        None
    }
}

fn str_is(s: &String, lit_text: &str) -> (r: bool)
    ensures
        r == (s@ == lit_text@),
{
    same_chars(chars_of(s.as_str()).as_slice(), chars_of(lit_text).as_slice())
}

/// Several children become an `And`/`Or` node; a single child stands alone.
fn group_exec(children: Vec<SearchQuery>, or: bool) -> (r: SearchQuery)
    requires
        children@.len() >= 1,
    ensures
        query_view(r) == group(queries_view(children@), or),
{
    let mut children = children;
    if children.len() == 1 {
        let ghost v = children@;
        let q = children.pop().unwrap();
        assert(queries_view(v)[0] == query_view(v[0]));
        q
    } else if or {
        proof {
            crate::search::types::lemma_view_or(children);
        }
        SearchQuery::Or { children }
    } else {
        proof {
            crate::search::types::lemma_view_and(children);
        }
        SearchQuery::And { children }
    }
}

impl Parser {
    spec fn tv(&self) -> Seq<TokV> {
        toks_view(self.tokens@)
    }

    fn new(tokens: Vec<Token>) -> (r: Parser)
        ensures
            r.tokens@ == tokens@,
    {
        Parser { tokens }
    }

    /// The token at `pos`, if any.
    fn peek(&self, pos: usize) -> (r: Option<&Token>)
        ensures
            match tok_at(self.tv(), pos as int) {
                Some(t) => r matches Some(x) && tok_view(*x) == t,
                None => r is None,
            },
    {
        if pos < self.tokens.len() {
            Some(&self.tokens[pos])
        } else {
            None
        }
    }

    /// An `OR` keyword at `pos`.
    fn or_at(&self, pos: usize) -> (r: bool)
        ensures
            r == (tok_at(self.tv(), pos as int) == Some(TokV::Or)),
    {
        match self.peek(pos) {
            Some(Token::Or) => true,
            _ => false,
        }
    }

    /// A token at `pos` that may start another `unary_expr` of an `and_expr`.
    fn continues_and(&self, pos: usize) -> (r: bool)
        ensures
            r == (tok_at(self.tv(), pos as int) is Some && tok_at(self.tv(), pos as int) != Some(
                TokV::Or,
            ) && tok_at(self.tv(), pos as int) != Some(TokV::Close)),
    {
        match self.peek(pos) {
            None => false,
            Some(Token::Or) => false,
            Some(Token::CloseParen) => false,
            Some(_) => true,
        }
    }

    /// A closing parenthesis at `pos`: the position after it.
    fn expect(&self, pos: usize) -> (r: Result<usize, VaultError>)
        ensures
            match sp_close(self.tv(), pos as int) {
                Ok(p) => r == Ok::<usize, VaultError>(p as usize) && p <= self.tv().len(),
                Err(m) => r matches Err(VaultError::SearchError(e)) && e@ == m,
            },
    {
        let n = self.tokens.len();
        match self.peek(pos) {
            Some(Token::CloseParen) => Ok(pos + 1),
            Some(t) => {
                let m = concat(lit("Expected CloseParen, got "), t.debug_text().as_str());
                let m = concat(m, " at position ");
                Err(search_error(concat(m, decimal_string(pos + 1).as_str())))
            },
            None => Err(search_error(lit("Expected CloseParen, got end of input"))),
        }
    }

    /// A string matcher: a quoted string, a regex or a word.
    fn parse_string_matcher(&self, pos: usize) -> (r: Result<(StringMatcher, usize), VaultError>)
        ensures
            match sp_matcher(self.tv(), pos as int) {
                Ok(x) => r matches Ok(y) && matcher_view(y.0) == x.0 && y.1 == x.1,
                Err(m) => r matches Err(VaultError::SearchError(e)) && e@ == m,
            },
            r matches Ok(y) ==> pos < y.1 <= self.tv().len(),
    {
        let n = self.tokens.len();
        match self.peek(pos) {
            Some(Token::QuotedString(v)) => Ok((StringMatcher::Exact { value: v.clone() }, pos + 1)),
            Some(Token::RegexLiteral(v)) => Ok((StringMatcher::Regex { pattern: v.clone() }, pos + 1)),
            Some(Token::Word(v)) => Ok((StringMatcher::Contains { value: v.clone() }, pos + 1)),
            Some(t) => Err(
                search_error(
                    concat(lit("Expected string, quoted string, or regex; got "), t.debug_text().as_str()),
                ),
            ),
            None => Err(search_error(lit("Expected string value, got end of input"))),
        }
    }

    /// A field value for `path:`, `filename:` and `content:`.
    fn parse_field_value(&self, pos: usize) -> (r: Result<(StringMatcher, usize), VaultError>)
        ensures
            match sp_matcher(self.tv(), pos as int) {
                Ok(x) => r matches Ok(y) && matcher_view(y.0) == x.0 && y.1 == x.1,
                Err(m) => r matches Err(VaultError::SearchError(e)) && e@ == m,
            },
            r matches Ok(y) ==> pos < y.1 <= self.tv().len(),
    {
        self.parse_string_matcher(pos)
    }

    /// `property:key` or `property:key<op>value`, after the prefix.
    fn parse_property_expr(&self, pos: usize) -> (r: Result<(SearchQuery, usize), VaultError>)
        ensures
            parse_agrees(r, sp_property(self.tv(), pos as int)),
            r matches Ok(y) ==> pos < y.1 <= self.tv().len(),
    {
        let n = self.tokens.len();
        let key = match word_or_quoted_exec(self.peek(pos)) {
            Some(k) => k,
            None => {
                return Err(search_error(got_message("Expected property key", self.peek(pos))));
            },
        };
        match self.peek(pos + 1) {
            Some(Token::ComparisonOp(op)) => {
                let o = match op_of_exec(op.as_str()) {
                    Some(o) => o,
                    None => {
                        return Err(search_error(concat(lit("Unknown operator: "), op.as_str())));
                    },
                };
                let value = match word_or_quoted_exec(self.peek(pos + 2)) {
                    Some(v) => v,
                    None => {
                        return Err(
                            search_error(got_message("Expected property value", self.peek(pos + 2))),
                        );
                    },
                };
                let p = FieldPredicate::Property { key, op: o, value: Some(value) };
                proof {
                    lemma_view_field(p);
                }
                Ok((SearchQuery::Field(p), pos + 3))
            },
            _ => {
                let p = FieldPredicate::Property { key, op: PropertyOp::Exists, value: None };
                proof {
                    lemma_view_field(p);
                }
                Ok((SearchQuery::Field(p), pos + 1))
            },
        }
    }

    /// A tag group `value ("OR" value)*`.
    fn parse_tag_group(&self, pos: usize) -> (r: Result<(SearchQuery, usize), VaultError>)
        ensures
            parse_agrees(r, sp_tag_group(self.tv(), pos as int)),
            r matches Ok(y) ==> pos < y.1 <= self.tv().len(),
    {
        let n = self.tokens.len();
        let first = match word_or_quoted_exec(self.peek(pos)) {
            Some(v) => v,
            None => {
                return Err(search_error(got_message("Expected tag value", self.peek(pos))));
            },
        };
        let mut children: Vec<SearchQuery> = Vec::new();
        let f = FieldPredicate::Tag { value: first };
        proof {
            lemma_view_field(f);
        }
        children.push(SearchQuery::Field(f));
        let mut p = pos + 1;
        proof {
            assert(queries_view(children@) =~= seq![QueryV::Field(PredV::Tag(first@))]);
        }
        while self.or_at(p)
            invariant
                pos < p <= n,
                n == self.tv().len(),
                children@.len() >= 1,
                sp_tag_tail(self.tv(), p as int, queries_view(children@)) == sp_tag_group(
                    self.tv(),
                    pos as int,
                ),
            decreases n - p,
        {
            match word_or_quoted_exec(self.peek(p + 1)) {
                Some(v) => {
                    let f = FieldPredicate::Tag { value: v };
                    proof {
                        lemma_view_field(f);
                    }
                    let q = SearchQuery::Field(f);
                    proof {
                        crate::search::types::lemma_queries_push(children@, q);
                    }
                    children.push(q);
                    p = p + 2;
                },
                None => {
                    return Err(
                        search_error(got_message("Expected tag value after OR", self.peek(p + 1))),
                    );
                },
            }
        }
        Ok((group_exec(children, true), p))
    }

    /// `tag:value` or `tag:(value OR ...)`, after the prefix.
    fn parse_tag_expr(&self, pos: usize) -> (r: Result<(SearchQuery, usize), VaultError>)
        ensures
            parse_agrees(r, sp_tag(self.tv(), pos as int)),
            r matches Ok(y) ==> pos < y.1 <= self.tv().len(),
    {
        let n = self.tokens.len();
        match self.peek(pos) {
            Some(Token::OpenParen) => {
                let (q, p) = match self.parse_tag_group(pos + 1) {
                    Ok(x) => x,
                    Err(e) => {
                        return Err(e);
                    },
                };
                match self.expect(p) {
                    Ok(p2) => Ok((q, p2)),
                    Err(e) => Err(e),
                }
            },
            _ => {
                let value = match word_or_quoted_exec(self.peek(pos)) {
                    Some(v) => v,
                    None => {
                        return Err(search_error(got_message("Expected tag value", self.peek(pos))));
                    },
                };
                let f = FieldPredicate::Tag { value };
                proof {
                    lemma_view_field(f);
                }
                Ok((SearchQuery::Field(f), pos + 1))
            },
        }
    }

    /// The full query at `pos`.
    fn parse_query(&self, pos: usize) -> (r: Result<(SearchQuery, usize), VaultError>)
        requires
            pos <= self.tv().len(),
        ensures
            parse_agrees(r, sp_or(self.tv(), pos as int)),
            r matches Ok(y) ==> pos < y.1 <= self.tv().len(),
        decreases self.tv().len() - pos, 7int,
    {
        self.parse_or_expr(pos)
    }

    /// `or_expr = and_expr ("OR" and_expr)*`
    fn parse_or_expr(&self, pos: usize) -> (r: Result<(SearchQuery, usize), VaultError>)
        requires
            pos <= self.tv().len(),
        ensures
            parse_agrees(r, sp_or(self.tv(), pos as int)),
            r matches Ok(y) ==> pos < y.1 <= self.tv().len(),
        decreases self.tv().len() - pos, 6int,
    {
        let n = self.tokens.len();
        let (first, p0) = match self.parse_and_expr(pos) {
            Ok(x) => x,
            Err(e) => {
                return Err(e);
            },
        };
        let mut children: Vec<SearchQuery> = Vec::new();
        children.push(first);
        proof {
            assert(queries_view(children@) =~= seq![query_view(first)]);
        }
        let mut p = p0;
        while self.or_at(p)
            invariant
                pos < p <= n,
                n == self.tv().len(),
                children@.len() >= 1,
                sp_or_tail(self.tv(), p as int, queries_view(children@)) == sp_or(
                    self.tv(),
                    pos as int,
                ),
            decreases n - p,
        {
            let (q, p2) = match self.parse_and_expr(p + 1) {
                Ok(x) => x,
                Err(e) => {
                    return Err(e);
                },
            };
            proof {
                crate::search::types::lemma_queries_push(children@, q);
            }
            children.push(q);
            p = p2;
        }
        Ok((group_exec(children, true), p))
    }

    /// `and_expr = unary_expr+`
    fn parse_and_expr(&self, pos: usize) -> (r: Result<(SearchQuery, usize), VaultError>)
        requires
            pos <= self.tv().len(),
        ensures
            parse_agrees(r, sp_and(self.tv(), pos as int)),
            r matches Ok(y) ==> pos < y.1 <= self.tv().len(),
        decreases self.tv().len() - pos, 5int,
    {
        let n = self.tokens.len();
        let (first, p0) = match self.parse_unary_expr(pos) {
            Ok(x) => x,
            Err(e) => {
                return Err(e);
            },
        };
        let mut children: Vec<SearchQuery> = Vec::new();
        children.push(first);
        proof {
            assert(queries_view(children@) =~= seq![query_view(first)]);
        }
        let mut p = p0;
        while self.continues_and(p)
            invariant
                pos < p <= n,
                n == self.tv().len(),
                children@.len() >= 1,
                sp_and_tail(self.tv(), p as int, queries_view(children@)) == sp_and(
                    self.tv(),
                    pos as int,
                ),
            decreases n - p,
        {
            let (q, p2) = match self.parse_unary_expr(p) {
                Ok(x) => x,
                Err(e) => {
                    return Err(e);
                },
            };
            proof {
                crate::search::types::lemma_queries_push(children@, q);
            }
            children.push(q);
            p = p2;
        }
        Ok((group_exec(children, false), p))
    }

    /// `unary_expr = "-" atom | atom`
    fn parse_unary_expr(&self, pos: usize) -> (r: Result<(SearchQuery, usize), VaultError>)
        requires
            pos <= self.tv().len(),
        ensures
            parse_agrees(r, sp_unary(self.tv(), pos as int)),
            r matches Ok(y) ==> pos < y.1 <= self.tv().len(),
        decreases self.tv().len() - pos, 4int,
    {
        let n = self.tokens.len();
        match self.peek(pos) {
            Some(Token::Not) => {
                let (child, p) = match self.parse_atom(pos + 1) {
                    Ok(x) => x,
                    Err(e) => {
                        return Err(e);
                    },
                };
                proof {
                    lemma_view_not(child);
                }
                Ok((SearchQuery::Not { child: Box::new(child) }, p))
            },
            _ => self.parse_atom(pos),
        }
    }

    /// `atom = field_expr | "(" query ")" | bare_text`
    fn parse_atom(&self, pos: usize) -> (r: Result<(SearchQuery, usize), VaultError>)
        requires
            pos <= self.tv().len(),
        ensures
            parse_agrees(r, sp_atom(self.tv(), pos as int)),
            r matches Ok(y) ==> pos < y.1 <= self.tv().len(),
        decreases self.tv().len() - pos, 3int,
    {
        let n = self.tokens.len();
        match self.peek(pos) {
            Some(Token::FieldPrefix(_)) => self.parse_field_expr(pos),
            Some(Token::OpenParen) => {
                let (q, p) = match self.parse_query(pos + 1) {
                    Ok(x) => x,
                    Err(e) => {
                        return Err(e);
                    },
                };
                match self.expect(p) {
                    Ok(p2) => Ok((q, p2)),
                    Err(e) => Err(e),
                }
            },
            Some(Token::Word(_)) | Some(Token::QuotedString(_)) | Some(Token::RegexLiteral(_)) => {
                match self.parse_string_matcher(pos) {
                    Ok((matcher, p)) => {
                        let f = FieldPredicate::Content { matcher };
                        proof {
                            lemma_view_field(f);
                        }
                        Ok((SearchQuery::Field(f), p))
                    },
                    Err(e) => Err(e),
                }
            },
            Some(t) => Err(search_error(unexpected_message(t, pos))),
            None => Err(search_error(lit("Unexpected end of input"))),
        }
    }

    /// `field_expr = FIELD_PREFIX value_expr`
    fn parse_field_expr(&self, pos: usize) -> (r: Result<(SearchQuery, usize), VaultError>)
        requires
            pos <= self.tv().len(),
            tok_at(self.tv(), pos as int) matches Some(TokV::Field(_)),
        ensures
            parse_agrees(r, sp_field(self.tv(), pos as int)),
            r matches Ok(y) ==> pos < y.1 <= self.tv().len(),
        decreases self.tv().len() - pos, 2int,
    {
        let n = self.tokens.len();
        let field = match self.peek(pos) {
            Some(Token::FieldPrefix(f)) => f,
            _ => {
                return Err(search_error(String::new()));
            },
        };
        if str_is(field, "property") {
            self.parse_property_expr(pos + 1)
        } else if str_is(field, "tag") {
            self.parse_tag_expr(pos + 1)
        } else if str_is(field, "section") {
            self.parse_scoping_expr(pos + 1, true)
        } else if str_is(field, "line") {
            self.parse_scoping_expr(pos + 1, false)
        } else if str_is(field, "path") {
            match self.parse_field_value(pos + 1) {
                Ok((matcher, p)) => {
                    let f = FieldPredicate::Path { matcher };
                    proof {
                        lemma_view_field(f);
                    }
                    Ok((SearchQuery::Field(f), p))
                },
                Err(e) => Err(e),
            }
        } else if str_is(field, "filename") {
            match self.parse_field_value(pos + 1) {
                Ok((matcher, p)) => {
                    let f = FieldPredicate::Filename { matcher };
                    proof {
                        lemma_view_field(f);
                    }
                    Ok((SearchQuery::Field(f), p))
                },
                Err(e) => Err(e),
            }
        } else if str_is(field, "content") {
            match self.parse_field_value(pos + 1) {
                Ok((matcher, p)) => {
                    let f = FieldPredicate::Content { matcher };
                    proof {
                        lemma_view_field(f);
                    }
                    Ok((SearchQuery::Field(f), p))
                },
                Err(e) => Err(e),
            }
        } else {
            Err(search_error(concat(lit("Unknown field: "), field.as_str())))
        }
    }

    /// `section:` or `line:` followed by `(query)` or a string matcher.
    fn parse_scoping_expr(&self, pos: usize, section: bool) -> (r: Result<(SearchQuery, usize), VaultError>)
        requires
            pos <= self.tv().len(),
        ensures
            parse_agrees(r, sp_scoping(self.tv(), pos as int, section)),
            r matches Ok(y) ==> pos < y.1 <= self.tv().len(),
        decreases self.tv().len() - pos, 1int,
    {
        let n = self.tokens.len();
        match self.peek(pos) {
            Some(Token::OpenParen) => {
                let (sub, p) = match self.parse_query(pos + 1) {
                    Ok(x) => x,
                    Err(e) => {
                        return Err(e);
                    },
                };
                let p2 = match self.expect(p) {
                    Ok(p2) => p2,
                    Err(e) => {
                        return Err(e);
                    },
                };
                let f = if section {
                    FieldPredicate::Section { query: Box::new(sub) }
                } else {
                    FieldPredicate::Line { query: Box::new(sub) }
                };
                proof {
                    lemma_view_field(f);
                }
                Ok((SearchQuery::Field(f), p2))
            },
            _ => {
                let (matcher, p) = match self.parse_string_matcher(pos) {
                    Ok(x) => x,
                    Err(e) => {
                        return Err(e);
                    },
                };
                let c = FieldPredicate::Content { matcher };
                proof {
                    lemma_view_field(c);
                }
                let content = SearchQuery::Field(c);
                let f = if section {
                    FieldPredicate::Section { query: Box::new(content) }
                } else {
                    FieldPredicate::Line { query: Box::new(content) }
                };
                proof {
                    lemma_view_field(f);
                }
                Ok((SearchQuery::Field(f), p))
            },
        }
    }
}

/// Parse a search query string into a query tree.
pub fn parse_query(input: &str) -> (r: Result<SearchQuery, VaultError>)
    ensures
        match spec_parse_query(input@) {
            Ok(q) => r matches Ok(x) && query_view(x) == q,
            Err(m) => r matches Err(VaultError::SearchError(e)) && e@ == m,
        },
{
    let trimmed = trim_vec(&chars_of(input));
    if trimmed.len() == 0 {
        return Err(search_error(lit("Empty search query")));
    }
    let text = string_of(trimmed.as_slice());
    let tokens = match tokenize(text.as_str()) {
        Ok(t) => t,
        Err(e) => {
            return Err(e);
        },
    };
    if tokens.len() == 0 {
        return Err(search_error(lit("Empty search query")));
    }
    let parser = Parser::new(tokens);
    let (query, pos) = match parser.parse_query(0) {
        Ok(x) => x,
        Err(e) => {
            return Err(e);
        },
    };
    if pos < parser.tokens.len() {
        return Err(search_error(unexpected_message(&parser.tokens[pos], pos)));
    }
    Ok(query)
}

} // verus!
