//! Evaluation of search queries against notes.
//!
//! A query is evaluated against a note's path and content. Section and line
//! predicates evaluate their sub-query against a note made of one section or
//! one line of the body, with the same path. Evaluation stops at the first
//! error (an invalid regular expression); `evaluate_note` then reports no
//! match.
//!
//! Property values are compared as numbers when both parse as numbers. How
//! two texts compare as numbers is the caller's to say: `evaluate_note` takes
//! a function that gives it, and its contract is stated over what that
//! function returns.

use vstd::prelude::*;
use crate::note::Note;
use crate::parser::frontmatter::{spec_body, spec_body_start_line, spec_frontmatter_value};
use crate::parser::inline_property::{spec_inline_properties, PropV};
use crate::parser::code_block::line_of;
use crate::parser::tag::tag_occ;
use crate::parser::heading::spec_headings;
use crate::search::types::{
    FieldPredicate, MatcherV, PredV, PropertyOp, QueryV, SearchMatch, SearchQuery, StringMatcher,
    matcher_view, opt_str_view, pred_view, query_view, queries_view, lemma_view_and, lemma_view_or,
};
use crate::text::{
    chars_of, concat, contains_seq, int_text, lit, str_lowercase, string_of, to_lowercase, trim,
};
use crate::yaml::{untag, map_get, yaml_as_i64, yaml_emit, yaml_f64_text, yaml_tree, YamlV};

verus! {

/// How two texts compare as numbers.
#[derive(Debug, Clone, Copy, PartialEq, Eq, Structural)]
pub struct NumericOrder {
    /// The first is less than the second.
    pub less: bool,
    /// The first is greater than the second.
    pub greater: bool,
    /// The first is less than or equal to the second.
    pub less_eq: bool,
    /// The first is greater than or equal to the second.
    pub greater_eq: bool,
    /// The two are equal within the comparison's tolerance.
    pub close: bool,
}

/// A match as a mathematical value: field, line and text.
pub type MatchV = (Seq<char>, Option<usize>, Option<Seq<char>>);

pub open spec fn match_view(m: SearchMatch) -> MatchV {
    (m.field@, m.line, opt_str_view(m.text))
}

pub open spec fn matches_view(ms: Seq<SearchMatch>) -> Seq<MatchV> {
    ms.map_values(|m: SearchMatch| match_view(m))
}

// ---------------------------------------------------------------------------
// Comparing property values
// ---------------------------------------------------------------------------

/// `a < b` for strings: lexicographic by character.
pub open spec fn str_less(a: Seq<char>, b: Seq<char>) -> bool
    decreases a.len(),
{
    if a.len() == 0 {
        b.len() > 0
    } else if b.len() == 0 {
        false
    } else if a[0] != b[0] {
        a[0] < b[0]
    } else {
        str_less(a.drop_first(), b.drop_first())
    }
}

/// ASCII case-insensitive equality.
pub open spec fn ascii_ci_eq(a: Seq<char>, b: Seq<char>) -> bool {
    crate::text::ascii_lower_seq(a) == crate::text::ascii_lower_seq(b)
}

/// The outcome of comparing a property value with the expected one: by
/// the numeric order when both are numbers, else as strings (equality
/// ignoring ASCII case, order by character).
pub open spec fn compare_spec(actual: Seq<char>, expected: Seq<char>, op: PropertyOp, num: Option<NumericOrder>) -> bool {
    match num {
        Some(n) => match op {
            PropertyOp::Eq => n.close,
            PropertyOp::NotEq => !n.close,
            PropertyOp::Lt => n.less,
            PropertyOp::Gt => n.greater,
            PropertyOp::Lte => n.less_eq,
            PropertyOp::Gte => n.greater_eq,
            PropertyOp::Exists => true,
        },
        None => match op {
            PropertyOp::Eq => ascii_ci_eq(actual, expected),
            PropertyOp::NotEq => !ascii_ci_eq(actual, expected),
            PropertyOp::Lt => str_less(actual, expected),
            PropertyOp::Gt => str_less(expected, actual),
            PropertyOp::Lte => !str_less(expected, actual),
            PropertyOp::Gte => !str_less(actual, expected),
            PropertyOp::Exists => true,
        },
    }
}

proof fn lemma_str_less_irrefl(a: Seq<char>)
    ensures
        !str_less(a, a),
    decreases a.len(),
{
    if a.len() > 0 {
        lemma_str_less_irrefl(a.drop_first());
    }
}

proof fn lemma_str_less_prefix(a: Seq<char>, b: Seq<char>)
    requires
        a.len() < b.len(),
        b.subrange(0, a.len() as int) == a,
    ensures
        str_less(a, b),
    decreases a.len(),
{
    if a.len() > 0 {
        assert(a[0] == b.subrange(0, a.len() as int)[0]);
        assert(b.drop_first().subrange(0, a.drop_first().len() as int) =~= a.drop_first()) by {
            assert forall|i: int| 0 <= i < a.len() - 1 implies b.drop_first()[i] == a.drop_first()[i] by {
                assert(b.subrange(0, a.len() as int)[i + 1] == a[i + 1]);
            }
        }
        lemma_str_less_prefix(a.drop_first(), b.drop_first());
    }
}

proof fn lemma_str_less_first_diff(a: Seq<char>, b: Seq<char>, k: int)
    requires
        0 <= k < a.len(),
        k < b.len(),
        a.subrange(0, k) == b.subrange(0, k),
        a[k] < b[k],
    ensures
        str_less(a, b),
    decreases k,
{
    if k > 0 {
        assert(a[0] == a.subrange(0, k)[0]);
        assert(b[0] == b.subrange(0, k)[0]);
        assert(a.drop_first().subrange(0, k - 1) =~= b.drop_first().subrange(0, k - 1)) by {
            assert forall|i: int| 0 <= i < k - 1 implies a.drop_first()[i] == b.drop_first()[i] by {
                assert(a.subrange(0, k)[i + 1] == a[i + 1]);
                assert(b.subrange(0, k)[i + 1] == b[i + 1]);
                assert(a.subrange(0, k)[i + 1] == b.subrange(0, k)[i + 1]);
            }
        }
        lemma_str_less_first_diff(a.drop_first(), b.drop_first(), k - 1);
    }
}

/// Comparing text values that are not both numbers: `>=` holds exactly
/// when `<` does not and `<=` exactly when `>` does not; `>` is `<` with the
/// values swapped and `>=` is `<=` swapped; a value is `<=` and `>=` itself
/// but not `<` itself; and `<` is the lexicographic order by character: a
/// proper prefix comes first, otherwise the first differing character
/// decides.
pub proof fn law_text_comparisons(a: Seq<char>, b: Seq<char>)
    ensures
        compare_spec(a, b, PropertyOp::Gte, None) == !compare_spec(a, b, PropertyOp::Lt, None),
        compare_spec(a, b, PropertyOp::Lte, None) == !compare_spec(a, b, PropertyOp::Gt, None),
        compare_spec(a, b, PropertyOp::Gt, None) == compare_spec(b, a, PropertyOp::Lt, None),
        compare_spec(a, b, PropertyOp::Gte, None) == compare_spec(b, a, PropertyOp::Lte, None),
        !compare_spec(a, a, PropertyOp::Lt, None),
        compare_spec(a, a, PropertyOp::Lte, None),
        compare_spec(a, a, PropertyOp::Gte, None),
        a.len() < b.len() && b.subrange(0, a.len() as int) == a ==> compare_spec(a, b, PropertyOp::Lt, None)
            && compare_spec(b, a, PropertyOp::Gt, None) && !compare_spec(a, b, PropertyOp::Gte, None),
        forall|k: int|
            0 <= k < a.len() && k < b.len() && a.subrange(0, k) == b.subrange(0, k) && #[trigger] a[k] < #[trigger] b[k]
                ==> compare_spec(a, b, PropertyOp::Lt, None) && !compare_spec(a, b, PropertyOp::Gte, None),
{
    lemma_str_less_irrefl(a);
    if a.len() < b.len() && b.subrange(0, a.len() as int) == a {
        lemma_str_less_prefix(a, b);
    }
    assert forall|k: int|
        0 <= k < a.len() && k < b.len() && a.subrange(0, k) == b.subrange(0, k) && #[trigger] a[k] < #[trigger] b[k]
            implies compare_spec(a, b, PropertyOp::Lt, None) && !compare_spec(a, b, PropertyOp::Gte, None) by {
        lemma_str_less_first_diff(a, b, k);
    }
}

/// Equality of text values ignores ASCII case: a value equals itself and
/// its ASCII-lowercased form, equality is symmetric, `!=` is its negation,
/// and `exists` holds whatever the values.
pub proof fn law_text_equality(a: Seq<char>, b: Seq<char>)
    ensures
        compare_spec(a, a, PropertyOp::Eq, None),
        compare_spec(a, crate::text::ascii_lower_seq(a), PropertyOp::Eq, None),
        compare_spec(a, b, PropertyOp::Eq, None) == compare_spec(b, a, PropertyOp::Eq, None),
        compare_spec(a, b, PropertyOp::NotEq, None) == !compare_spec(a, b, PropertyOp::Eq, None),
        compare_spec(a, b, PropertyOp::Exists, None),
{
    let l = crate::text::ascii_lower_seq(a);
    assert(crate::text::ascii_lower_seq(l) =~= l) by {
        assert forall|i: int| 0 <= i < l.len() implies crate::text::ascii_lower(l[i]) == l[i] by {}
    }
}

/// Comparing numbers follows their numeric order: with an order in which
/// "at least" is "not less" and "at most" is "not greater", `>=` holds
/// exactly when `<` does not and `<=` exactly when `>` does not; `<`, `>`
/// and `=` are the order's less, greater and equal, and `!=` negates `=`.
pub proof fn law_numeric_comparisons(a: Seq<char>, b: Seq<char>, n: NumericOrder)
    requires
        n.greater_eq == !n.less,
        n.less_eq == !n.greater,
    ensures
        compare_spec(a, b, PropertyOp::Gte, Some(n)) == !compare_spec(a, b, PropertyOp::Lt, Some(n)),
        compare_spec(a, b, PropertyOp::Lte, Some(n)) == !compare_spec(a, b, PropertyOp::Gt, Some(n)),
        compare_spec(a, b, PropertyOp::Lt, Some(n)) == n.less,
        compare_spec(a, b, PropertyOp::Gt, Some(n)) == n.greater,
        compare_spec(a, b, PropertyOp::Eq, Some(n)) == n.close,
        compare_spec(a, b, PropertyOp::NotEq, Some(n)) == !n.close,
{
}

fn str_less_exec(a: &Vec<char>, b: &Vec<char>) -> (r: bool)
    ensures
        r == str_less(a@, b@),
{
    let mut i: usize = 0;
    proof {
        assert(a@.subrange(0, a@.len() as int) =~= a@);
        assert(b@.subrange(0, b@.len() as int) =~= b@);
    }
    while i < a.len() && i < b.len() && a[i] == b[i]
        invariant
            i <= a@.len(),
            i <= b@.len(),
            str_less(a@, b@) == str_less(a@.subrange(i as int, a@.len() as int), b@.subrange(
                i as int,
                b@.len() as int,
            )),
        decreases a@.len() - i,
    {
        proof {
            let sa = a@.subrange(i as int, a@.len() as int);
            let sb = b@.subrange(i as int, b@.len() as int);
            assert(sa.drop_first() =~= a@.subrange(i + 1, a@.len() as int));
            assert(sb.drop_first() =~= b@.subrange(i + 1, b@.len() as int));
        }
        i = i + 1;
    }
    if i == a.len() {
        i < b.len()
    } else if i == b.len() {
        false
    } else {
        a[i] < b[i]
    }
}

/// Compare a property value with the expected one; `numeric` is how the
/// two compare as numbers, when both are numbers.
pub fn compare_values(actual: &str, expected: &str, op: &PropertyOp, numeric: Option<NumericOrder>) -> (r: bool)
    ensures
        r == compare_spec(actual@, expected@, *op, numeric),
{
    match numeric {
        Some(n) => match op {
            PropertyOp::Eq => n.close,
            PropertyOp::NotEq => !n.close,
            PropertyOp::Lt => n.less,
            PropertyOp::Gt => n.greater,
            PropertyOp::Lte => n.less_eq,
            PropertyOp::Gte => n.greater_eq,
            PropertyOp::Exists => true,
        },
        None => {
            let a = chars_of(actual);
            let b = chars_of(expected);
            match op {
                PropertyOp::Eq => crate::health::run::eq_ignore_ascii_case(actual, expected),
                PropertyOp::NotEq => !crate::health::run::eq_ignore_ascii_case(actual, expected),
                PropertyOp::Lt => str_less_exec(&a, &b),
                PropertyOp::Gt => str_less_exec(&b, &a),
                PropertyOp::Lte => !str_less_exec(&b, &a),
                PropertyOp::Gte => !str_less_exec(&a, &b),
                PropertyOp::Exists => true,
            }
        },
    }
}

// ---------------------------------------------------------------------------
// Matching strings
// ---------------------------------------------------------------------------

/// What building the regular expression `pattern` (ASCII-and-Unicode case
/// folding when `case_insensitive`) and matching it anywhere in `haystack`
/// gives: whether it matched, or the text of the build error.
pub uninterp spec fn regex_outcome(pattern: Seq<char>, case_insensitive: bool, haystack: Seq<char>) -> Result<bool, Seq<char>>;

/// `regex::RegexBuilder::new(pattern).case_insensitive(..).build()`, then
/// `Regex::is_match` on the haystack; the error's `Display` text when the
/// pattern does not build.
#[verifier::external_body]
pub(crate) fn regex_is_match(pattern: &str, case_insensitive: bool, haystack: &str) -> (r: Result<bool, String>)
    ensures
        match r {
            Ok(b) => regex_outcome(pattern@, case_insensitive, haystack@) == Ok::<bool, Seq<char>>(b),
            Err(e) => regex_outcome(pattern@, case_insensitive, haystack@) == Err::<bool, Seq<char>>(e@),
        },
{
    match regex::RegexBuilder::new(pattern).case_insensitive(case_insensitive).build() {
        Ok(re) => Ok(re.is_match(haystack)),
        Err(e) => Err(e.to_string()),
    }
}

/// Whether a string matches a matcher: contains (lowercased on both sides
/// unless case-sensitive), equals (ignoring ASCII case unless
/// case-sensitive), or matches the regular expression; an error message when
/// the regular expression is invalid.
pub open spec fn matches_spec(h: Seq<char>, m: MatcherV, case_sensitive: bool) -> Result<bool, Seq<char>> {
    match m {
        MatcherV::Contains(v) => Ok(
            if case_sensitive {
                contains_seq(h, v)
            } else {
                contains_seq(str_lowercase(h), str_lowercase(v))
            },
        ),
        MatcherV::Exact(v) => Ok(
            if case_sensitive {
                h == v
            } else {
                ascii_ci_eq(h, v)
            },
        ),
        MatcherV::Regex(p) => match regex_outcome(p, !case_sensitive, h) {
            Ok(b) => Ok(b),
            Err(e) => Err("Invalid regex: "@ + e),
        },
    }
}

/// Whether a path or a file name matches a matcher: a substring match
/// ignores case, as a `Contains` matcher does everywhere; an exact or
/// regular-expression match heeds case.
pub open spec fn name_matches_spec(h: Seq<char>, m: MatcherV) -> Result<bool, Seq<char>> {
    matches_spec(h, m, !(m is Contains))
}

fn contains_exec(h: &Vec<char>, v: &Vec<char>) -> (r: bool)
    ensures
        r == contains_seq(h@, v@),
{
    crate::text::find_seq_from(h.as_slice(), v.as_slice(), 0).is_some()
}

fn is_contains(m: &StringMatcher) -> (r: bool)
    ensures
        r == (matcher_view(*m) is Contains),
{
    match m {
        StringMatcher::Contains { .. } => true,
        _ => false,
    }
}

fn matches_string(haystack: &str, matcher: &StringMatcher, case_sensitive: bool) -> (r: Result<bool, String>)
    ensures
        match matches_spec(haystack@, matcher_view(*matcher), case_sensitive) {
            Ok(b) => r == Ok::<bool, String>(b),
            Err(e) => r matches Err(x) && x@ == e,
        },
{
    match matcher {
        StringMatcher::Contains { value } => {
            if case_sensitive {
                Ok(contains_exec(&chars_of(haystack), &chars_of(value.as_str())))
            } else {
                let h = to_lowercase(haystack);
                let v = to_lowercase(value.as_str());
                Ok(contains_exec(&chars_of(h.as_str()), &chars_of(v.as_str())))
            }
        },
        StringMatcher::Exact { value } => {
            if case_sensitive {
                Ok(crate::text::same_chars(chars_of(haystack).as_slice(), chars_of(value.as_str()).as_slice()))
            } else {
                Ok(crate::health::run::eq_ignore_ascii_case(haystack, value.as_str()))
            }
        },
        StringMatcher::Regex { pattern } => match regex_is_match(pattern.as_str(), !case_sensitive, haystack) {
            Ok(b) => Ok(b),
            Err(e) => Err(concat(lit("Invalid regex: "), e.as_str())),
        },
    }
}


// ---------------------------------------------------------------------------
// Tags
// ---------------------------------------------------------------------------

/// A string without its leading `#`s.
pub open spec fn strip_hashes(s: Seq<char>) -> Seq<char>
    decreases s.len(),
{
    if s.len() > 0 && s[0] == '#' {
        strip_hashes(s.drop_first())
    } else {
        s
    }
}

fn strip_hashes_exec(s: &Vec<char>) -> (r: Vec<char>)
    ensures
        r@ == strip_hashes(s@),
{
    let mut i: usize = 0;
    proof {
        assert(s@.subrange(0, s@.len() as int) =~= s@);
    }
    while i < s.len() && s[i] == '#'
        invariant
            i <= s@.len(),
            strip_hashes(s@) == strip_hashes(s@.subrange(i as int, s@.len() as int)),
        decreases s@.len() - i,
    {
        proof {
            assert(s@.subrange(i as int, s@.len() as int).drop_first() =~= s@.subrange(i + 1, s@.len() as int));
        }
        i = i + 1;
    }
    crate::text::sub_vec(s, i, s.len())
}

/// A tag name as it is compared: without leading `#`s, lowercased.
pub open spec fn tag_key(name: Seq<char>) -> Seq<char> {
    str_lowercase(strip_hashes(name))
}

/// The first inline tag, from occurrence `i` on, whose key is `want`: its
/// name and line.
pub open spec fn first_tag(c: Seq<char>, want: Seq<char>, i: int) -> Option<(Seq<char>, int)>
    decreases tag_occ(c).len() - i,
{
    if i < 0 || i >= tag_occ(c).len() {
        None
    } else {
        let m = tag_occ(c)[i];
        let name = c.subrange(m.0, m.1);
        if tag_key(name) == want {
            Some((name, line_of(c, m.0)))
        } else {
            first_tag(c, want, i + 1)
        }
    }
}

/// The items of the frontmatter's `tags` list, if it has one.
pub open spec fn fm_tag_items(c: Seq<char>) -> Seq<YamlV> {
    match spec_frontmatter_value(c) {
        Ok(Some(fm)) => match untag(fm) {
            YamlV::Mapping(es) => match map_get(es, "tags"@) {
                Some(tv) => match untag(tv) {
                    YamlV::List(items) => items,
                    _ => Seq::empty(),
                },
                None => Seq::empty(),
            },
            _ => Seq::empty(),
        },
        _ => Seq::empty(),
    }
}

/// The first string item, from `i` on, whose key is `want`.
pub open spec fn first_fm_tag(items: Seq<YamlV>, want: Seq<char>, i: int) -> Option<Seq<char>>
    decreases items.len() - i,
{
    if i < 0 || i >= items.len() {
        None
    } else {
        match untag(items[i]) {
            YamlV::Str(t) => if tag_key(t) == want {
                Some(t)
            } else {
                first_fm_tag(items, want, i + 1)
            },
            _ => first_fm_tag(items, want, i + 1),
        }
    }
}

/// The match of a tag predicate: the first inline tag with the wanted key
/// (the value lowercased, without leading `#`s), else the first such item
/// of the frontmatter's `tags` list (on line 1).
pub open spec fn tag_matches(c: Seq<char>, value: Seq<char>) -> Seq<MatchV> {
    let want = strip_hashes(str_lowercase(value));
    match first_tag(c, want, 0) {
        Some((n, l)) => seq![("tag"@, Some(l as usize), Some(n))],
        None => match first_fm_tag(fm_tag_items(c), want, 0) {
            Some(t) => seq![("tag"@, Some(1usize), Some(t))],
            None => Seq::empty(),
        },
    }
}

fn tag_key_exec(name: &str) -> (r: Vec<char>)
    ensures
        r@ == tag_key(name@),
{
    let stripped = strip_hashes_exec(&chars_of(name));
    let t = string_of(stripped.as_slice());
    chars_of(to_lowercase(t.as_str()).as_str())
}

fn evaluate_tag(note: &Note, value: &str) -> (r: Vec<SearchMatch>)
    ensures
        matches_view(r@) == tag_matches(note.content@, value@),
{
    let ghost c = note.content@;
    let lowered = to_lowercase(value);
    let want = strip_hashes_exec(&chars_of(lowered.as_str()));
    let tags = crate::parser::tag::parse_tags(note.content.as_str());
    let mut i: usize = 0;
    while i < tags.len()
        invariant
            i <= tags@.len(),
            c == note.content@,
            crate::parser::tag::tags_of(tags@, c),
            want@ == strip_hashes(str_lowercase(value@)),
            first_tag(c, want@, 0) == first_tag(c, want@, i as int),
        decreases tags@.len() - i,
    {
        let t = &tags[i];
        proof {
            assert(crate::parser::tag::tag_describes(tags@[i as int], c, tag_occ(c)[i as int]));
        }
        let k = tag_key_exec(t.name.as_str());
        if crate::text::same_chars(k.as_slice(), want.as_slice()) {
            let name = t.name.clone();
            let r = vec![SearchMatch { field: lit("tag"), line: Some(t.line), text: Some(name) }];
            proof {
                let m = tag_occ(c)[i as int];
                assert(name@ == t.name@);
                assert(match_view(r@[0]) == ("tag"@, Some((line_of(c, m.0)) as usize), Some(c.subrange(m.0, m.1))));
                assert(first_tag(c, want@, i as int) == Some((c.subrange(m.0, m.1), line_of(c, m.0))));
                let ex: Seq<MatchV> = seq![("tag"@, Some((line_of(c, m.0)) as usize), Some(c.subrange(m.0, m.1)))];
                assert(tag_matches(c, value@) == ex);
                assert(matches_view(r@) =~= ex);
                assert(r@[0].line == Some((line_of(c, m.0)) as usize));
                assert(matches_view(r@) =~= tag_matches(c, value@));
            }
            return r;
        }
        i = i + 1;
    }
    let ghost items = fm_tag_items(c);
    let mut found: Option<String> = None;
    match note.frontmatter() {
        Ok(Some(fm)) => match crate::yaml::value_get(&fm, "tags") {
            Some(tv) => match crate::yaml::value_as_sequence(tv) {
                Some(list) => {
                    let mut j: usize = 0;
                    while j < list.len()
                        invariant_except_break
                            found is None,
                        invariant
                            j <= list@.len(),
                            list@.len() == items.len(),
                            forall|k: int| 0 <= k < items.len() ==> yaml_tree(#[trigger] list@[k]) == items[k],
                            first_fm_tag(items, want@, 0) == first_fm_tag(items, want@, j as int),
                        ensures
                            match found {
                                Some(t) => first_fm_tag(items, want@, 0) == Some(t@),
                                None => first_fm_tag(items, want@, 0) is None,
                            },
                        decreases list@.len() - j,
                    {
                        match crate::yaml::value_as_str(&list[j]) {
                            Some(t) => {
                                let k = tag_key_exec(t);
                                if crate::text::same_chars(k.as_slice(), want.as_slice()) {
                                    found = Some(lit(t));
                                    break;
                                }
                            },
                            None => {},
                        }
                        j = j + 1;
                    }
                },
                None => {},
            },
            None => {},
        },
        _ => {},
    }
    match found {
        Some(t) => {
            let r = vec![SearchMatch { field: lit("tag"), line: Some(1), text: Some(t) }];
            proof {
                assert(matches_view(r@) =~= tag_matches(c, value@));
            }
            r
        },
        None => {
            let r: Vec<SearchMatch> = Vec::new();
            proof {
                assert(matches_view(r@) =~= tag_matches(c, value@));
            }
            r
        },
    }
}


// ---------------------------------------------------------------------------
// Content
// ---------------------------------------------------------------------------

/// The lines of a note's body.
pub open spec fn body_lines(c: Seq<char>) -> Seq<Seq<char>> {
    crate::text::lines(spec_body(c))
}

/// The line number, in the note, of line `i` of the body (wrapping as
/// `usize` addition does).
pub open spec fn body_line_num(c: Seq<char>, i: int) -> usize {
    vstd::wrapping::usize_specs::wrapping_add(spec_body_start_line(c) as usize, i as usize)
}

/// The matches of a content predicate from body line `i` on: each line that
/// matches (case-insensitively), in order; the first error stops.
pub open spec fn content_from(c: Seq<char>, m: MatcherV, i: int) -> Result<Seq<MatchV>, Seq<char>>
    decreases body_lines(c).len() - i,
{
    if i < 0 || i >= body_lines(c).len() {
        Ok(Seq::empty())
    } else {
        match matches_spec(body_lines(c)[i], m, false) {
            Err(e) => Err(e),
            Ok(b) => match content_from(c, m, i + 1) {
                Err(e) => Err(e),
                Ok(rest) => Ok(
                    if b {
                        seq![("content"@, Some(body_line_num(c, i)), Some(body_lines(c)[i]))] + rest
                    } else {
                        rest
                    },
                ),
            },
        }
    }
}

/// The body lines of a note and the line its body starts on.
fn body_lines_of(note: &Note) -> (r: (Vec<Vec<char>>, usize))
    ensures
        r.0.deep_view() == body_lines(note.content@),
        r.1 == spec_body_start_line(note.content@),
{
    let body = note.body();
    let b = chars_of(body.as_str());
    (crate::text::split_lines(&b), note.body_start_line())
}

fn evaluate_content(note: &Note, matcher: &StringMatcher) -> (r: Result<Vec<SearchMatch>, String>)
    ensures
        match content_from(note.content@, matcher_view(*matcher), 0) {
            Ok(ms) => r matches Ok(v) && matches_view(v@) == ms,
            Err(e) => r matches Err(x) && x@ == e,
        },
{
    let ghost c = note.content@;
    let ghost m = matcher_view(*matcher);
    let (ls, start) = body_lines_of(note);
    let mut out: Vec<SearchMatch> = Vec::new();
    let mut i: usize = 0;
    while i < ls.len()
        invariant
            i <= ls@.len(),
            ls.deep_view() == body_lines(c),
            c == note.content@,
            start == spec_body_start_line(c),
            m == matcher_view(*matcher),
            content_from(c, m, 0) == match content_from(c, m, i as int) {
                Err(e) => Err(e),
                Ok(rest) => Ok(matches_view(out@) + rest),
            },
        decreases ls@.len() - i,
    {
        let line = string_of(ls[i].as_slice());
        proof {
            assert(ls.deep_view()[i as int] == ls@[i as int]@);
        }
        match matches_string(line.as_str(), matcher, false) {
            Err(e) => {
                proof {
                    assert(line@ == body_lines(c)[i as int]);
                    assert(content_from(c, m, i as int) == Err::<Seq<MatchV>, Seq<char>>(e@));
                }
                return Err(e);
            },
            Ok(b) => {
                if b {
                    let ghost before = matches_view(out@);
                    out.push(SearchMatch { field: lit("content"), line: Some(start.wrapping_add(i)), text: Some(line) });
                    proof {
                        assert(matches_view(out@) =~= before.push(
                            ("content"@, Some(body_line_num(c, i as int)), Some(body_lines(c)[i as int])),
                        ));
                        match content_from(c, m, i + 1) {
                            Ok(rest) => {
                                assert(matches_view(out@) + rest =~= before + (seq![
                                    ("content"@, Some(body_line_num(c, i as int)), Some(body_lines(c)[i as int])),
                                ] + rest));
                            },
                            Err(_) => {},
                        }
                    }
                }
            },
        }
        i = i + 1;
    }
    proof {
        assert(matches_view(out@) + Seq::<MatchV>::empty() =~= matches_view(out@));
    }
    Ok(out)
}

// ---------------------------------------------------------------------------
// Properties
// ---------------------------------------------------------------------------

/// The text of a frontmatter value when compared: a string as it is; a
/// number as its integer text, else its floating-point text; `true`,
/// `false`, `null`; any other value as its YAML text, trimmed (empty when it
/// cannot be written).
pub open spec fn yaml_text(v: YamlV) -> Seq<char> {
    match v {
        YamlV::Str(s) => s,
        YamlV::Number(t) => match yaml_as_i64(t) {
            Some(i) => int_text(i as int),
            None => match yaml_f64_text(t) {
                Some(x) => x,
                None => Seq::empty(),
            },
        },
        YamlV::Bool(b) => if b {
            "true"@
        } else {
            "false"@
        },
        YamlV::Null => "null"@,
        _ => match yaml_emit(v) {
            Ok(t) => trim(t),
            Err(_) => Seq::empty(),
        },
    }
}

fn yaml_value_to_string(v: &serde_yaml::Value) -> (r: String)
    ensures
        r@ == yaml_text(yaml_tree(*v)),
{
    match crate::yaml::string_variant(v) {
        Some(s) => s.clone(),
        None => match crate::yaml::number_as_i64(v) {
            Some(i) => crate::text::int_string(i),
            None => match crate::yaml::number_f64_text(v) {
                Some(t) => t,
                None => match crate::yaml::bool_variant(v) {
                    Some(b) => if b {
                        lit("true")
                    } else {
                        lit("false")
                    },
                    None => if crate::yaml::is_null_variant(v) {
                        lit("null")
                    } else {
                        match crate::yaml::yaml_to_string(v) {
                            Ok(t) => string_of(crate::text::trim_vec(&chars_of(t.as_str())).as_slice()),
                            Err(_) => String::new(),
                        }
                    },
                },
            },
        },
    }
}

/// The frontmatter value for `key`, when the frontmatter parses to a
/// mapping that holds it.
pub open spec fn fm_value(c: Seq<char>, key: Seq<char>) -> Option<YamlV> {
    match spec_frontmatter_value(c) {
        Ok(Some(fm)) => match untag(fm) {
            YamlV::Mapping(es) => map_get(es, key),
            _ => None,
        },
        _ => None,
    }
}

/// The inline values for `key`, each with its line.
pub open spec fn inline_found(ps: Seq<PropV>, key: Seq<char>) -> Seq<(Seq<char>, usize)>
    decreases ps.len(),
{
    if ps.len() == 0 {
        Seq::empty()
    } else {
        inline_found(ps.drop_last(), key) + if ps.last().0 == key {
            seq![(ps.last().1, ps.last().2 as usize)]
        } else {
            Seq::<(Seq<char>, usize)>::empty()
        }
    }
}

/// The values found for a property: the frontmatter's (on line 1), then
/// the inline ones.
pub open spec fn found_values(c: Seq<char>, key: Seq<char>) -> Seq<(Seq<char>, usize)> {
    fm_found(c, key) + inline_found(spec_inline_properties(c), key)
}

/// The frontmatter's value for a property, as text, on line 1.
pub open spec fn fm_found(c: Seq<char>, key: Seq<char>) -> Seq<(Seq<char>, usize)> {
    match fm_value(c, key) {
        Some(v) => seq![(yaml_text(v), 1usize)],
        None => Seq::<(Seq<char>, usize)>::empty(),
    }
}

/// The first found value, from `i` on, that compares as asked.
pub open spec fn first_compared(
    fv: Seq<(Seq<char>, usize)>,
    expected: Seq<char>,
    op: PropertyOp,
    num: spec_fn(Seq<char>, Seq<char>) -> Option<NumericOrder>,
    i: int,
) -> Option<int>
    decreases fv.len() - i,
{
    if i < 0 || i >= fv.len() {
        None
    } else if compare_spec(fv[i].0, expected, op, num(fv[i].0, expected)) {
        Some(i)
    } else {
        first_compared(fv, expected, op, num, i + 1)
    }
}

/// The match of a property predicate: for `Exists`, the first value found;
/// else the first value that compares as asked with the expected value
/// (empty when none is given).
pub open spec fn property_matches(
    c: Seq<char>,
    key: Seq<char>,
    op: PropertyOp,
    expected: Option<Seq<char>>,
    num: spec_fn(Seq<char>, Seq<char>) -> Option<NumericOrder>,
) -> Seq<MatchV> {
    let fv = found_values(c, key);
    if fv.len() == 0 {
        Seq::empty()
    } else if op == PropertyOp::Exists {
        seq![("property:"@ + key, Some(fv[0].1), Some(fv[0].0))]
    } else {
        let e = match expected {
            Some(x) => x,
            None => Seq::empty(),
        };
        match first_compared(fv, e, op, num, 0) {
            Some(j) => seq![("property:"@ + key, Some(fv[j].1), Some(fv[j].0))],
            None => Seq::empty(),
        }
    }
}

/// How two texts compare as numbers, by what `f` returns for them.
pub open spec fn numeric_of<F: Fn(&str, &str) -> Option<NumericOrder>>(f: F, a: Seq<char>, b: Seq<char>) -> Option<NumericOrder> {
    (choose|o: Option<NumericOrder>, x: &str, y: &str| #[trigger] call_ensures(f, (x, y), o) && x@ == a && y@ == b).0
}

/// `f` can be called on any two texts and gives the same for the same texts.
pub open spec fn numeric_ok<F: Fn(&str, &str) -> Option<NumericOrder>>(f: F) -> bool {
    &&& forall|x: &str, y: &str| call_requires(f, (x, y))
    &&& forall|x: &str, y: &str, o: Option<NumericOrder>| #[trigger] call_ensures(f, (x, y), o) ==> o == numeric_of(f, x@, y@)
}

/// The numeric comparison that `f` stands for.
pub open spec fn numeric_fn<F: Fn(&str, &str) -> Option<NumericOrder>>(f: F) -> spec_fn(Seq<char>, Seq<char>) -> Option<NumericOrder> {
    |a: Seq<char>, b: Seq<char>| numeric_of(f, a, b)
}

fn evaluate_property<F: Fn(&str, &str) -> Option<NumericOrder>>(
    note: &Note,
    key: &str,
    op: &PropertyOp,
    expected: &Option<String>,
    numeric: &F,
) -> (r: Vec<SearchMatch>)
    requires
        numeric_ok(*numeric),
    ensures
        matches_view(r@) == property_matches(note.content@, key@, *op, opt_str_view(*expected), numeric_fn(*numeric)),
{
    let ghost c = note.content@;
    let ghost fv = found_values(c, key@);
    let mut found: Vec<(String, usize)> = Vec::new();
    match note.frontmatter() {
        Ok(Some(fm)) => match crate::yaml::value_get(&fm, key) {
            Some(v) => {
                found.push((yaml_value_to_string(v), 1));
            },
            None => {},
        },
        _ => {},
    }
    let ghost head = found@.map_values(|p: (String, usize)| (p.0@, p.1));
    proof {
        assert(head =~= fm_found(c, key@));
    }
    let props = note.inline_properties();
    let ghost ps = spec_inline_properties(c);
    let mut k: usize = 0;
    while k < props.len()
        invariant
            k <= props@.len(),
            crate::parser::inline_property::props_view(props@) == ps,
            found@.map_values(|p: (String, usize)| (p.0@, p.1)) == head + inline_found(ps.subrange(0, k as int), key@),
        decreases props@.len() - k,
    {
        proof {
            assert(ps.subrange(0, k + 1).drop_last() == ps.subrange(0, k as int));
            assert(ps[k as int] == crate::parser::inline_property::prop_view(props@[k as int]));
        }
        let ghost before = found@;
        if crate::text::same_chars(chars_of(props[k].key.as_str()).as_slice(), chars_of(key).as_slice()) {
            found.push((props[k].value.clone(), props[k].line));
            proof {
                assert(found@.map_values(|p: (String, usize)| (p.0@, p.1)) =~= before.map_values(
                    |p: (String, usize)| (p.0@, p.1),
                ).push((ps[k as int].1, ps[k as int].2 as usize)));
            }
        } else {
            proof {
                assert(found@ == before);
            }
        }
        k = k + 1;
    }
    proof {
        assert(ps.subrange(0, k as int) == ps);
    }
    let ghost fvs = found@.map_values(|p: (String, usize)| (p.0@, p.1));
    assert(fvs == fv);
    if found.len() == 0 {
        let r: Vec<SearchMatch> = Vec::new();
        assert(matches_view(r@) =~= Seq::<MatchV>::empty());
        return r;
    }
    let field = concat(lit("property:"), key);
    match op {
        PropertyOp::Exists => {
            let r = vec![SearchMatch { field, line: Some(found[0].1), text: Some(found[0].0.clone()) }];
            proof {
                assert(fvs[0] == (found@[0].0@, found@[0].1));
                assert(matches_view(r@) =~= seq![("property:"@ + key@, Some(fv[0].1), Some(fv[0].0))]);
            }
            r
        },
        _ => {
            let e: &str = match expected {
                Some(x) => x.as_str(),
                None => "",
            };
            proof {
                reveal_strlit("");
            }
            let ghost ev = match opt_str_view(*expected) {
                Some(x) => x,
                None => Seq::<char>::empty(),
            };
            assert(e@ == ev);
            let mut j: usize = 0;
            while j < found.len()
                invariant
                    j <= found@.len(),
                    fvs == found@.map_values(|p: (String, usize)| (p.0@, p.1)),
                    fvs == fv,
                    c == note.content@,
                    fv == found_values(c, key@),
                    ev == match opt_str_view(*expected) {
                        Some(x) => x,
                        None => Seq::<char>::empty(),
                    },
                    field@ == "property:"@ + key@,
                    e@ == ev,
                    *op != PropertyOp::Exists,
                    numeric_ok(*numeric),
                    first_compared(fvs, ev, *op, numeric_fn(*numeric), 0) == first_compared(
                        fvs,
                        ev,
                        *op,
                        numeric_fn(*numeric),
                        j as int,
                    ),
                decreases found@.len() - j,
            {
                let o = numeric(found[j].0.as_str(), e);
                proof {
                    assert(fvs[j as int] == (found@[j as int].0@, found@[j as int].1));
                    assert(o == numeric_of(*numeric, found@[j as int].0@, e@));
                }
                if compare_values(found[j].0.as_str(), e, op, o) {
                    let r = vec![
                        SearchMatch { field, line: Some(found[j].1), text: Some(found[j].0.clone()) },
                    ];
                    proof {
                        assert(first_compared(fvs, ev, *op, numeric_fn(*numeric), j as int) == Some(j as int));
                        assert(matches_view(r@) =~= seq![("property:"@ + key@, Some(fv[j as int].1), Some(fv[j as int].0))]);
                    }
                    return r;
                }
                j = j + 1;
            }
            let r: Vec<SearchMatch> = Vec::new();
            assert(matches_view(r@) =~= Seq::<MatchV>::empty());
            r
        },
    }
}


// ---------------------------------------------------------------------------
// Sections
// ---------------------------------------------------------------------------

/// The body-line indices of the headings at or below the body's first line.
pub open spec fn heading_idx(hs: Seq<(Seq<char>, int, int, Seq<char>)>, bs: int) -> Seq<int>
    decreases hs.len(),
{
    if hs.len() == 0 {
        Seq::empty()
    } else {
        heading_idx(hs.drop_last(), bs) + if hs.last().2 >= bs {
            seq![hs.last().2 - bs]
        } else {
            Seq::<int>::empty()
        }
    }
}

/// The body-line ranges of a note's sections: the whole body when it has
/// no headings; else the part before the first heading (when there is
/// one) and a range from each heading to the next (the last to the end).
pub open spec fn sections(c: Seq<char>) -> Seq<(int, int)> {
    let idx = heading_idx(spec_headings(c), spec_body_start_line(c));
    let n = body_lines(c).len() as int;
    if idx.len() == 0 {
        seq![(0int, n)]
    } else {
        (if idx[0] > 0 {
            seq![(0int, idx[0])]
        } else {
            Seq::<(int, int)>::empty()
        }) + Seq::new(
            idx.len(),
            |i: int|
                (
                    idx[i],
                    if i + 1 < idx.len() {
                        idx[i + 1]
                    } else {
                        n
                    },
                ),
        )
    }
}

/// The text of a section: its body lines joined by line feeds (the range
/// kept within the body).
pub open spec fn section_text(c: Seq<char>, r: (int, int)) -> Seq<char> {
    let n = body_lines(c).len() as int;
    let e = if r.1 < n {
        r.1
    } else {
        n
    };
    let s = if r.0 < e {
        r.0
    } else {
        e
    };
    crate::text::join_lines(body_lines(c).subrange(s, e))
}

/// What is added to a section's line numbers to make them the note's.
pub open spec fn section_offset(c: Seq<char>, start: int) -> usize {
    vstd::wrapping::usize_specs::wrapping_sub(
        vstd::wrapping::usize_specs::wrapping_add(spec_body_start_line(c) as usize, start as usize),
        1,
    )
}

/// Matches of a section, renamed `section:..` and moved to the note's lines.
pub open spec fn in_section(ms: Seq<MatchV>, off: usize) -> Seq<MatchV> {
    ms.map_values(
        |m: MatchV|
            (
                "section:"@ + m.0,
                match m.1 {
                    Some(l) => Some(vstd::wrapping::usize_specs::wrapping_add(l, off)),
                    None => None,
                },
                m.2,
            ),
    )
}

/// Matches of a line, renamed `line:..` and put on that line.
pub open spec fn on_line(ms: Seq<MatchV>, line: usize) -> Seq<MatchV> {
    ms.map_values(|m: MatchV| ("line:"@ + m.0, Some(line), m.2))
}

// ---------------------------------------------------------------------------
// Queries
// ---------------------------------------------------------------------------

/// The result of a query on a note with path `p` and content `c`: its
/// matches (none when it does not match), or the first error.
pub open spec fn eval(
    p: Seq<char>,
    c: Seq<char>,
    q: QueryV,
    num: spec_fn(Seq<char>, Seq<char>) -> Option<NumericOrder>,
) -> Result<Seq<MatchV>, Seq<char>>
    decreases q, 0int,
{
    match q {
        QueryV::Field(pred) => match pred {
            PredV::Path(m) => match name_matches_spec(p, m) {
                Err(e) => Err(e),
                Ok(b) => Ok(
                    if b {
                        seq![("path"@, None, Some(p))]
                    } else {
                        Seq::empty()
                    },
                ),
            },
            PredV::Filename(m) => {
                let n = note_name(p);
                match name_matches_spec(n, m) {
                    Err(e) => Err(e),
                    Ok(b) => Ok(
                        if b {
                            seq![("filename"@, None, Some(n))]
                        } else {
                            Seq::empty()
                        },
                    ),
                }
            },
            PredV::Tag(v) => Ok(tag_matches(c, v)),
            PredV::Content(m) => content_from(c, m, 0),
            PredV::Section(sub) => eval_sections(p, c, *sub, num, 0),
            PredV::Line(sub) => eval_lines(p, c, *sub, num, 0),
            PredV::Property(k, op, v) => Ok(property_matches(c, k, op, v, num)),
        },
        QueryV::And(cs) => if cs.len() == 0 {
            Ok(Seq::empty())
        } else {
            eval_and(p, c, cs, num, 0)
        },
        QueryV::Or(cs) => eval_or(p, c, cs, num, 0),
        QueryV::Not(child) => match eval(p, c, *child, num) {
            Err(e) => Err(e),
            Ok(ms) => Ok(
                if ms.len() == 0 {
                    seq![("not"@, None, None)]
                } else {
                    Seq::empty()
                },
            ),
        },
    }
}

/// All children from `i` on must match; their matches, in order.
pub open spec fn eval_and(
    p: Seq<char>,
    c: Seq<char>,
    cs: Seq<QueryV>,
    num: spec_fn(Seq<char>, Seq<char>) -> Option<NumericOrder>,
    i: int,
) -> Result<Seq<MatchV>, Seq<char>>
    decreases cs, cs.len() - i,
{
    if i < 0 || i >= cs.len() {
        Ok(Seq::empty())
    } else {
        match eval(p, c, cs[i], num) {
            Err(e) => Err(e),
            Ok(ms) => if ms.len() == 0 {
                Ok(Seq::empty())
            } else if i + 1 == cs.len() {
                Ok(ms)
            } else {
                match eval_and(p, c, cs, num, i + 1) {
                    Err(e) => Err(e),
                    Ok(rest) => if rest.len() == 0 {
                        Ok(Seq::empty())
                    } else {
                        Ok(ms + rest)
                    },
                }
            },
        }
    }
}

/// The matches of the first child, from `i` on, that matches.
pub open spec fn eval_or(
    p: Seq<char>,
    c: Seq<char>,
    cs: Seq<QueryV>,
    num: spec_fn(Seq<char>, Seq<char>) -> Option<NumericOrder>,
    i: int,
) -> Result<Seq<MatchV>, Seq<char>>
    decreases cs, cs.len() - i,
{
    if i < 0 || i >= cs.len() {
        Ok(Seq::empty())
    } else {
        match eval(p, c, cs[i], num) {
            Err(e) => Err(e),
            Ok(ms) => if ms.len() > 0 {
                Ok(ms)
            } else {
                eval_or(p, c, cs, num, i + 1)
            },
        }
    }
}

/// The matches of the sub-query in the first section, from `i` on, where
/// it matches.
pub open spec fn eval_sections(
    p: Seq<char>,
    c: Seq<char>,
    sub: QueryV,
    num: spec_fn(Seq<char>, Seq<char>) -> Option<NumericOrder>,
    i: int,
) -> Result<Seq<MatchV>, Seq<char>>
    decreases sub, sections(c).len() - i,
{
    if i < 0 || i >= sections(c).len() {
        Ok(Seq::empty())
    } else {
        match eval(p, section_text(c, sections(c)[i]), sub, num) {
            Err(e) => Err(e),
            Ok(ms) => if ms.len() > 0 {
                Ok(in_section(ms, section_offset(c, sections(c)[i].0)))
            } else {
                eval_sections(p, c, sub, num, i + 1)
            },
        }
    }
}

/// The matches of the sub-query on the first body line, from `i` on,
/// where it matches.
pub open spec fn eval_lines(
    p: Seq<char>,
    c: Seq<char>,
    sub: QueryV,
    num: spec_fn(Seq<char>, Seq<char>) -> Option<NumericOrder>,
    i: int,
) -> Result<Seq<MatchV>, Seq<char>>
    decreases sub, body_lines(c).len() - i,
{
    if i < 0 || i >= body_lines(c).len() {
        Ok(Seq::empty())
    } else {
        match eval(p, body_lines(c)[i], sub, num) {
            Err(e) => Err(e),
            Ok(ms) => if ms.len() > 0 {
                Ok(on_line(ms, body_line_num(c, i)))
            } else {
                eval_lines(p, c, sub, num, i + 1)
            },
        }
    }
}

/// A note's name: the file stem of its path (empty without one).
pub open spec fn note_name(p: Seq<char>) -> Seq<char> {
    match crate::text::path_file_stem(p) {
        Some(x) => x,
        None => Seq::empty(),
    }
}


/// An executable result agrees with a specified one.
pub open spec fn result_agrees(r: Result<Vec<SearchMatch>, String>, s: Result<Seq<MatchV>, Seq<char>>) -> bool {
    match s {
        Ok(ms) => r matches Ok(v) && matches_view(v@) == ms,
        Err(e) => r matches Err(x) && x@ == e,
    }
}

fn remap_section(ms: Vec<SearchMatch>, off: usize) -> (r: Vec<SearchMatch>)
    ensures
        matches_view(r@) == in_section(matches_view(ms@), off),
{
    let mut out: Vec<SearchMatch> = Vec::new();
    let mut i: usize = 0;
    while i < ms.len()
        invariant
            i <= ms@.len(),
            matches_view(out@) == in_section(matches_view(ms@.subrange(0, i as int)), off),
        decreases ms@.len() - i,
    {
        let m = &ms[i];
        let line = match m.line {
            Some(l) => Some(l.wrapping_add(off)),
            None => None,
        };
        let text = match &m.text {
            Some(t) => Some(t.clone()),
            None => None,
        };
        let ghost before = out@;
        out.push(SearchMatch { field: concat(lit("section:"), m.field.as_str()), line, text });
        proof {
            assert(ms@.subrange(0, i + 1) =~= ms@.subrange(0, i as int).push(ms@[i as int]));
            assert(matches_view(out@) =~= matches_view(before).push(match_view(out@[i as int])));
            assert(in_section(matches_view(ms@.subrange(0, i + 1)), off) =~= in_section(
                matches_view(ms@.subrange(0, i as int)),
                off,
            ).push(in_section(seq![match_view(ms@[i as int])], off)[0]));
        }
        i = i + 1;
    }
    proof {
        assert(ms@.subrange(0, i as int) =~= ms@);
    }
    out
}

fn remap_line(ms: Vec<SearchMatch>, line: usize) -> (r: Vec<SearchMatch>)
    ensures
        matches_view(r@) == on_line(matches_view(ms@), line),
{
    let mut out: Vec<SearchMatch> = Vec::new();
    let mut i: usize = 0;
    while i < ms.len()
        invariant
            i <= ms@.len(),
            matches_view(out@) == on_line(matches_view(ms@.subrange(0, i as int)), line),
        decreases ms@.len() - i,
    {
        let m = &ms[i];
        let text = match &m.text {
            Some(t) => Some(t.clone()),
            None => None,
        };
        let ghost before = out@;
        out.push(SearchMatch { field: concat(lit("line:"), m.field.as_str()), line: Some(line), text });
        proof {
            assert(ms@.subrange(0, i + 1) =~= ms@.subrange(0, i as int).push(ms@[i as int]));
            assert(matches_view(out@) =~= matches_view(before).push(match_view(out@[i as int])));
            assert(on_line(matches_view(ms@.subrange(0, i + 1)), line) =~= on_line(
                matches_view(ms@.subrange(0, i as int)),
                line,
            ).push(on_line(seq![match_view(ms@[i as int])], line)[0]));
        }
        i = i + 1;
    }
    proof {
        assert(ms@.subrange(0, i as int) =~= ms@);
    }
    out
}

fn section_ranges(note: &Note, n: usize, bs: usize) -> (r: Vec<(usize, usize)>)
    requires
        n == body_lines(note.content@).len(),
        bs == spec_body_start_line(note.content@),
    ensures
        r@.map_values(|x: (usize, usize)| (x.0 as int, x.1 as int)) == sections(note.content@),
{
    let ghost c = note.content@;
    let hs = crate::parser::heading::parse_headings(note.content.as_str());
    let ghost hv = spec_headings(c);
    let mut idx: Vec<usize> = Vec::new();
    let mut k: usize = 0;
    while k < hs.len()
        invariant
            k <= hs@.len(),
            crate::parser::heading::headings_view(hs@) == hv,
            idx@.map_values(|x: usize| x as int) == heading_idx(hv.subrange(0, k as int), bs as int),
        decreases hs@.len() - k,
    {
        proof {
            assert(hv.subrange(0, k + 1).drop_last() =~= hv.subrange(0, k as int));
            assert(hv[k as int] == crate::parser::heading::heading_view(hs@[k as int]));
        }
        let ghost before = idx@;
        if hs[k].line >= bs {
            idx.push(hs[k].line - bs);
            proof {
                assert(idx@.map_values(|x: usize| x as int) =~= before.map_values(|x: usize| x as int).push(
                    hs@[k as int].line - bs,
                ));
            }
        }
        k = k + 1;
    }
    proof {
        assert(hv.subrange(0, k as int) =~= hv);
    }
    let ghost iv = heading_idx(hv, bs as int);
    let mut r: Vec<(usize, usize)> = Vec::new();
    if idx.len() == 0 {
        r.push((0, n));
        proof {
            assert(r@.map_values(|x: (usize, usize)| (x.0 as int, x.1 as int)) =~= sections(c));
        }
        return r;
    }
    let ghost lead: Seq<(int, int)> = if iv[0] > 0 {
        seq![(0int, iv[0])]
    } else {
        Seq::<(int, int)>::empty()
    };
    if idx[0] > 0 {
        r.push((0, idx[0]));
    }
    proof {
        assert(idx@[0] as int == iv[0]);
        assert(r@.map_values(|x: (usize, usize)| (x.0 as int, x.1 as int)) =~= lead);
    }
    let ghost tail = Seq::new(
        iv.len(),
        |i: int|
            (
                iv[i],
                if i + 1 < iv.len() {
                    iv[i + 1]
                } else {
                    n as int
                },
            ),
    );
    let mut j: usize = 0;
    while j < idx.len()
        invariant
            j <= idx@.len(),
            idx@.map_values(|x: usize| x as int) == iv,
            tail.len() == iv.len(),
            forall|i: int|
                0 <= i < iv.len() ==> #[trigger] tail[i] == (
                    iv[i],
                    if i + 1 < iv.len() {
                        iv[i + 1]
                    } else {
                        n as int
                    },
                ),
            r@.map_values(|x: (usize, usize)| (x.0 as int, x.1 as int)) == lead + tail.subrange(0, j as int),
        decreases idx@.len() - j,
    {
        let end = if j + 1 < idx.len() {
            idx[j + 1]
        } else {
            n
        };
        let ghost before = r@;
        r.push((idx[j], end));
        proof {
            assert(idx@[j as int] as int == iv[j as int]);
            if j + 1 < idx.len() {
                assert(idx@[j + 1] as int == iv[j + 1]);
            }
            assert(tail.subrange(0, j + 1) =~= tail.subrange(0, j as int).push(tail[j as int]));
            assert(r@.map_values(|x: (usize, usize)| (x.0 as int, x.1 as int)) =~= before.map_values(
                |x: (usize, usize)| (x.0 as int, x.1 as int),
            ).push(tail[j as int]));
        }
        j = j + 1;
    }
    proof {
        assert(tail.subrange(0, j as int) =~= tail);
        assert(r@.map_values(|x: (usize, usize)| (x.0 as int, x.1 as int)) =~= sections(c));
    }
    r
}

fn section_text_exec(ls: &Vec<Vec<char>>, r: (usize, usize)) -> (t: String)
    ensures
        t@ == crate::text::join_lines(
            ls.deep_view().subrange(
                if (if r.1 < ls@.len() { r.1 as int } else { ls@.len() as int }) > r.0 {
                    r.0 as int
                } else {
                    if r.1 < ls@.len() { r.1 as int } else { ls@.len() as int }
                },
                if r.1 < ls@.len() { r.1 as int } else { ls@.len() as int },
            ),
        ),
{
    let e = if r.1 < ls.len() {
        r.1
    } else {
        ls.len()
    };
    let s = if r.0 < e {
        r.0
    } else {
        e
    };
    let mut part: Vec<Vec<char>> = Vec::new();
    let mut i: usize = s;
    while i < e
        invariant
            s <= i <= e <= ls@.len(),
            part@.len() == i - s,
            part.deep_view() == ls.deep_view().subrange(s as int, i as int),
        decreases e - i,
    {
        let n = ls[i].len();
        let line = crate::text::sub_vec(&ls[i], 0, n);
        let ghost before = part.deep_view();
        let ghost old_part = part@;
        proof {
            assert(line.deep_view() =~= line@);
        }
        let ghost lv = line@;
        part.push(line);
        proof {
            assert(lv =~= ls@[i as int]@);
            assert(part@ == old_part.push(part@[i - s]));
            assert(part.deep_view() =~= before.push(lv));
            assert(ls.deep_view().subrange(s as int, i + 1) =~= ls.deep_view().subrange(s as int, i as int).push(
                ls.deep_view()[i as int],
            ));
        }
        i = i + 1;
    }
    let j = crate::text::join_with_newlines(&part);
    string_of(j.as_slice())
}


fn evaluate_inner<F: Fn(&str, &str) -> Option<NumericOrder>>(note: &Note, query: &SearchQuery, numeric: &F) -> (r:
    Result<Vec<SearchMatch>, String>)
    requires
        numeric_ok(*numeric),
    ensures
        result_agrees(r, eval(note.path@, note.content@, query_view(*query), numeric_fn(*numeric))),
    decreases *query, 0int,
{
    let ghost p = note.path@;
    let ghost c = note.content@;
    let ghost num = numeric_fn(*numeric);
    match query {
        SearchQuery::Field(pred) => {
            proof {
                assert(query_view(*query) == QueryV::Field(pred_view(*pred)));
            }
            match pred {
            FieldPredicate::Path { matcher } => {
                proof {
                    assert(pred_view(*pred) == PredV::Path(matcher_view(*matcher)));
                }
                let b = match matches_string(note.path.as_str(), matcher, !is_contains(matcher)) {
                    Ok(b) => b,
                    Err(e) => {
                        return Err(e);
                    },
                };
                if b {
                    let r = vec![SearchMatch { field: lit("path"), line: None, text: Some(note.path.clone()) }];
                    proof {
                        assert(matches_view(r@) =~= seq![("path"@, None::<usize>, Some(p))]);
                    }
                    Ok(r)
                } else {
                    let r: Vec<SearchMatch> = Vec::new();
                    proof {
                        assert(matches_view(r@) =~= Seq::<MatchV>::empty());
                    }
                    Ok(r)
                }
            },
            FieldPredicate::Filename { matcher } => {
                proof {
                    assert(pred_view(*pred) == PredV::Filename(matcher_view(*matcher)));
                }
                let name = note.name();
                let b = match matches_string(name.as_str(), matcher, !is_contains(matcher)) {
                    Ok(b) => b,
                    Err(e) => {
                        return Err(e);
                    },
                };
                if b {
                    let r = vec![SearchMatch { field: lit("filename"), line: None, text: Some(name) }];
                    proof {
                        assert(matches_view(r@) =~= seq![("filename"@, None::<usize>, Some(note_name(p)))]);
                    }
                    Ok(r)
                } else {
                    let r: Vec<SearchMatch> = Vec::new();
                    proof {
                        assert(matches_view(r@) =~= Seq::<MatchV>::empty());
                    }
                    Ok(r)
                }
            },
            FieldPredicate::Tag { value } => Ok(evaluate_tag(note, value.as_str())),
            FieldPredicate::Content { matcher } => evaluate_content(note, matcher),
            FieldPredicate::Section { query: sub } => evaluate_section(note, sub, numeric),
            FieldPredicate::Line { query: sub } => evaluate_line(note, sub, numeric),
            FieldPredicate::Property { key, op, value } => Ok(
                evaluate_property(note, key.as_str(), op, value, numeric),
            ),
            }
        },
        SearchQuery::And { children } => {
            proof {
                lemma_view_and(*children);
            }
            let ghost cs = queries_view(children@);
            if children.len() == 0 {
                let r: Vec<SearchMatch> = Vec::new();
                proof {
                    assert(matches_view(r@) =~= Seq::<MatchV>::empty());
                }
                return Ok(r);
            }
            let mut all: Vec<SearchMatch> = Vec::new();
            let mut i: usize = 0;
            proof {
                match eval_and(p, c, cs, num, 0) {
                    Ok(rest) => {
                        assert(matches_view(all@) + rest =~= rest);
                    },
                    Err(_) => {},
                }
            }
            while i < children.len()
                invariant
                    i <= children@.len(),
                    children@.len() > 0,
                    cs == queries_view(children@),
                    query_view(*query) == QueryV::And(cs),
                    *query == (SearchQuery::And { children: *children }),
                    p == note.path@,
                    c == note.content@,
                    num == numeric_fn(*numeric),
                    numeric_ok(*numeric),
                    i > 0 ==> matches_view(all@).len() > 0,
                    i < children@.len() ==> eval_and(p, c, cs, num, 0) == match eval_and(p, c, cs, num, i as int) {
                        Err(e) => Err(e),
                        Ok(rest) => if rest.len() == 0 {
                            Ok(Seq::<MatchV>::empty())
                        } else {
                            Ok(matches_view(all@) + rest)
                        },
                    },
                    i == children@.len() ==> eval_and(p, c, cs, num, 0) == Ok::<Seq<MatchV>, Seq<char>>(matches_view(all@)),
                decreases children@.len() - i,
            {
                proof {
                    assert(decreases_to!(*query => children@[i as int]));
                }
                let ms = match evaluate_inner(note, &children[i], numeric) {
                    Ok(ms) => ms,
                    Err(e) => {
                        return Err(e);
                    },
                };
                if ms.len() == 0 {
                    let r: Vec<SearchMatch> = Vec::new();
                    proof {
                        assert(matches_view(r@) =~= Seq::<MatchV>::empty());
                        assert(matches_view(ms@).len() == 0);
                    }
                    return Ok(r);
                }
                let ghost before = matches_view(all@);
                let ghost mv = matches_view(ms@);
                let mut ms = ms;
                all.append(&mut ms);
                proof {
                    assert(matches_view(all@) =~= before + mv);
                    assert(mv.len() > 0);
                    if i + 1 < children@.len() {
                        match eval_and(p, c, cs, num, i + 1) {
                            Ok(rest) => {
                                assert(before + (mv + rest) =~= matches_view(all@) + rest);
                            },
                            Err(_) => {},
                        }
                    }
                }
                i = i + 1;
            }
            Ok(all)
        },
        SearchQuery::Or { children } => {
            proof {
                lemma_view_or(*children);
            }
            let ghost cs = queries_view(children@);
            let mut i: usize = 0;
            while i < children.len()
                invariant
                    i <= children@.len(),
                    cs == queries_view(children@),
                    query_view(*query) == QueryV::Or(cs),
                    *query == (SearchQuery::Or { children: *children }),
                    p == note.path@,
                    c == note.content@,
                    num == numeric_fn(*numeric),
                    numeric_ok(*numeric),
                    eval_or(p, c, cs, num, 0) == eval_or(p, c, cs, num, i as int),
                decreases children@.len() - i,
            {
                proof {
                    assert(decreases_to!(*query => children@[i as int]));
                }
                let ms = match evaluate_inner(note, &children[i], numeric) {
                    Ok(ms) => ms,
                    Err(e) => {
                        return Err(e);
                    },
                };
                if ms.len() > 0 {
                    return Ok(ms);
                }
                i = i + 1;
            }
            let r: Vec<SearchMatch> = Vec::new();
            proof {
                assert(matches_view(r@) =~= Seq::<MatchV>::empty());
            }
            Ok(r)
        },
        SearchQuery::Not { child } => {
            let ms = match evaluate_inner(note, child, numeric) {
                Ok(ms) => ms,
                Err(e) => {
                    return Err(e);
                },
            };
            if ms.len() == 0 {
                let r = vec![SearchMatch { field: lit("not"), line: None, text: None }];
                proof {
                    assert(matches_view(r@) =~= seq![("not"@, None::<usize>, None::<Seq<char>>)]);
                }
                Ok(r)
            } else {
                let r: Vec<SearchMatch> = Vec::new();
                proof {
                    assert(matches_view(r@) =~= Seq::<MatchV>::empty());
                }
                Ok(r)
            }
        },
    }
}

fn evaluate_section<F: Fn(&str, &str) -> Option<NumericOrder>>(note: &Note, sub: &SearchQuery, numeric: &F) -> (r:
    Result<Vec<SearchMatch>, String>)
    requires
        numeric_ok(*numeric),
    ensures
        result_agrees(r, eval_sections(note.path@, note.content@, query_view(*sub), numeric_fn(*numeric), 0)),
    decreases *sub, 1int,
{
    let ghost p = note.path@;
    let ghost c = note.content@;
    let ghost q = query_view(*sub);
    let ghost num = numeric_fn(*numeric);
    let (ls, bs) = body_lines_of(note);
    let secs = section_ranges(note, ls.len(), bs);
    let ghost sv = sections(c);
    let mut i: usize = 0;
    while i < secs.len()
        invariant
            i <= secs@.len(),
            secs@.map_values(|x: (usize, usize)| (x.0 as int, x.1 as int)) == sv,
            sv == sections(c),
            ls.deep_view() == body_lines(c),
            bs == spec_body_start_line(c),
            p == note.path@,
            c == note.content@,
            q == query_view(*sub),
            num == numeric_fn(*numeric),
            numeric_ok(*numeric),
            eval_sections(p, c, q, num, 0) == eval_sections(p, c, q, num, i as int),
        decreases secs@.len() - i,
    {
        let range = secs[i];
        proof {
            assert(sv[i as int] == (range.0 as int, range.1 as int));
        }
        let text = section_text_exec(&ls, range);
        let part = Note { path: note.path.clone(), content: text };
        proof {
            assert(part.content@ == section_text(c, sv[i as int]));
        }
        let ms = match evaluate_inner(&part, sub, numeric) {
            Ok(ms) => ms,
            Err(e) => {
                return Err(e);
            },
        };
        if ms.len() > 0 {
            let off = bs.wrapping_add(range.0).wrapping_sub(1);
            return Ok(remap_section(ms, off));
        }
        i = i + 1;
    }
    let r: Vec<SearchMatch> = Vec::new();
    proof {
        assert(matches_view(r@) =~= Seq::<MatchV>::empty());
    }
    Ok(r)
}

fn evaluate_line<F: Fn(&str, &str) -> Option<NumericOrder>>(note: &Note, sub: &SearchQuery, numeric: &F) -> (r:
    Result<Vec<SearchMatch>, String>)
    requires
        numeric_ok(*numeric),
    ensures
        result_agrees(r, eval_lines(note.path@, note.content@, query_view(*sub), numeric_fn(*numeric), 0)),
    decreases *sub, 1int,
{
    let ghost p = note.path@;
    let ghost c = note.content@;
    let ghost q = query_view(*sub);
    let ghost num = numeric_fn(*numeric);
    let (ls, bs) = body_lines_of(note);
    let mut i: usize = 0;
    while i < ls.len()
        invariant
            i <= ls@.len(),
            ls.deep_view() == body_lines(c),
            bs == spec_body_start_line(c),
            p == note.path@,
            c == note.content@,
            q == query_view(*sub),
            num == numeric_fn(*numeric),
            numeric_ok(*numeric),
            eval_lines(p, c, q, num, 0) == eval_lines(p, c, q, num, i as int),
        decreases ls@.len() - i,
    {
        let line = Note { path: note.path.clone(), content: string_of(ls[i].as_slice()) };
        proof {
            assert(ls.deep_view()[i as int] == ls@[i as int]@);
        }
        let ms = match evaluate_inner(&line, sub, numeric) {
            Ok(ms) => ms,
            Err(e) => {
                return Err(e);
            },
        };
        if ms.len() > 0 {
            return Ok(remap_line(ms, bs.wrapping_add(i)));
        }
        i = i + 1;
    }
    let r: Vec<SearchMatch> = Vec::new();
    proof {
        assert(matches_view(r@) =~= Seq::<MatchV>::empty());
    }
    Ok(r)
}

/// Evaluate a query against a note: its matches, none when it does not
/// match or when evaluating it fails (an invalid regular expression).
/// `numeric` tells how two texts compare as numbers, when both are.
pub fn evaluate_note<F: Fn(&str, &str) -> Option<NumericOrder>>(note: &Note, query: &SearchQuery, numeric: &F) -> (r:
    Vec<SearchMatch>)
    requires
        numeric_ok(*numeric),
    ensures
        matches_view(r@) == match eval(note.path@, note.content@, query_view(*query), numeric_fn(*numeric)) {
            Ok(ms) => ms,
            Err(_) => Seq::<MatchV>::empty(),
        },
{
    match evaluate_inner(note, query, numeric) {
        Ok(ms) => ms,
        Err(_) => {
            let r: Vec<SearchMatch> = Vec::new();
            proof {
                assert(matches_view(r@) =~= Seq::<MatchV>::empty());
            }
            r
        },
    }
}


// ---------------------------------------------------------------------------
// Laws
// ---------------------------------------------------------------------------

/// A negated query matches exactly when the query does not, and fails
/// exactly when it fails.
pub proof fn law_not_negates(
    p: Seq<char>,
    c: Seq<char>,
    q: QueryV,
    num: spec_fn(Seq<char>, Seq<char>) -> Option<NumericOrder>,
)
    ensures
        (eval(p, c, QueryV::Not(Box::new(q)), num) matches Ok(ms) && ms.len() > 0) <==> (eval(p, c, q, num) matches Ok(
            ms,
        ) && ms.len() == 0),
        eval(p, c, QueryV::Not(Box::new(q)), num) is Err <==> eval(p, c, q, num) is Err,
{
}

/// A conjunction of one query is that query.
pub proof fn law_and_single(
    p: Seq<char>,
    c: Seq<char>,
    q: QueryV,
    num: spec_fn(Seq<char>, Seq<char>) -> Option<NumericOrder>,
)
    ensures
        eval(p, c, QueryV::And(seq![q]), num) == eval(p, c, q, num),
{
    let cs = seq![q];
    assert(cs[0] == q);
    assert(eval(p, c, QueryV::And(cs), num) == eval_and(p, c, cs, num, 0));
    match eval(p, c, q, num) {
        Ok(ms) => {
            if ms.len() == 0 {
                assert(ms =~= Seq::<MatchV>::empty());
            }
        },
        Err(e) => {},
    }
}

/// A disjunction of one query is that query.
pub proof fn law_or_single(
    p: Seq<char>,
    c: Seq<char>,
    q: QueryV,
    num: spec_fn(Seq<char>, Seq<char>) -> Option<NumericOrder>,
)
    ensures
        eval(p, c, QueryV::Or(seq![q]), num) == eval(p, c, q, num),
{
    let cs = seq![q];
    assert(cs[0] == q);
    assert(eval(p, c, QueryV::Or(cs), num) == eval_or(p, c, cs, num, 0));
    assert(eval_or(p, c, cs, num, 1) == Ok::<Seq<MatchV>, Seq<char>>(Seq::empty()));
    match eval(p, c, q, num) {
        Ok(ms) => {
            if ms.len() == 0 {
                assert(ms =~= Seq::<MatchV>::empty());
            }
        },
        Err(e) => {},
    }
}

/// A conjunction matches only when each of its queries matches.
pub proof fn law_and_needs_all(
    p: Seq<char>,
    c: Seq<char>,
    cs: Seq<QueryV>,
    num: spec_fn(Seq<char>, Seq<char>) -> Option<NumericOrder>,
    i: int,
)
    requires
        0 <= i < cs.len(),
        eval(p, c, QueryV::And(cs), num) matches Ok(ms) && ms.len() > 0,
    ensures
        eval(p, c, cs[i], num) matches Ok(ms) && ms.len() > 0,
{
    lemma_and_from(p, c, cs, num, 0, i);
}

proof fn lemma_and_from(
    p: Seq<char>,
    c: Seq<char>,
    cs: Seq<QueryV>,
    num: spec_fn(Seq<char>, Seq<char>) -> Option<NumericOrder>,
    j: int,
    i: int,
)
    requires
        0 <= j <= i < cs.len(),
        eval_and(p, c, cs, num, j) matches Ok(ms) && ms.len() > 0,
    ensures
        eval(p, c, cs[i], num) matches Ok(ms) && ms.len() > 0,
    decreases i - j,
{
    if j < i {
        lemma_and_from(p, c, cs, num, j + 1, i);
    }
}

/// A result with at least one match.
pub open spec fn found_some(r: Result<Seq<MatchV>, Seq<char>>) -> bool {
    r matches Ok(ms) && ms.len() > 0
}

/// A result without error and without matches.
pub open spec fn found_none(r: Result<Seq<MatchV>, Seq<char>>) -> bool {
    r matches Ok(ms) && ms.len() == 0
}

/// The matches of the children from `i` on, in order.
pub open spec fn concat_from(
    p: Seq<char>,
    c: Seq<char>,
    cs: Seq<QueryV>,
    num: spec_fn(Seq<char>, Seq<char>) -> Option<NumericOrder>,
    i: int,
) -> Seq<MatchV>
    decreases cs.len() - i,
{
    if i < 0 || i >= cs.len() {
        Seq::empty()
    } else {
        match eval(p, c, cs[i], num) {
            Ok(ms) => ms + concat_from(p, c, cs, num, i + 1),
            Err(_) => Seq::empty(),
        }
    }
}

/// Every child from `i` on matches, without error.
pub open spec fn all_match_from(
    p: Seq<char>,
    c: Seq<char>,
    cs: Seq<QueryV>,
    num: spec_fn(Seq<char>, Seq<char>) -> Option<NumericOrder>,
    i: int,
) -> bool {
    forall|k: int| i <= k < cs.len() ==> found_some(#[trigger] eval(p, c, cs[k], num))
}

proof fn lemma_and_concat(
    p: Seq<char>,
    c: Seq<char>,
    cs: Seq<QueryV>,
    num: spec_fn(Seq<char>, Seq<char>) -> Option<NumericOrder>,
    i: int,
)
    requires
        0 <= i < cs.len(),
        all_match_from(p, c, cs, num, i),
    ensures
        eval_and(p, c, cs, num, i) == Ok::<Seq<MatchV>, Seq<char>>(concat_from(p, c, cs, num, i)),
        concat_from(p, c, cs, num, i).len() > 0,
    decreases cs.len() - i,
{
    assert(found_some(eval(p, c, cs[i], num)));
    if i + 1 < cs.len() {
        lemma_and_concat(p, c, cs, num, i + 1);
    } else {
        assert(concat_from(p, c, cs, num, i + 1) == Seq::<MatchV>::empty());
        assert(concat_from(p, c, cs, num, i) =~= eval(p, c, cs[i], num)->Ok_0);
    }
}

/// When every child of a conjunction matches, the conjunction gives all
/// their matches, concatenated in the children's order.
pub proof fn law_and_concatenates(
    p: Seq<char>,
    c: Seq<char>,
    cs: Seq<QueryV>,
    num: spec_fn(Seq<char>, Seq<char>) -> Option<NumericOrder>,
)
    requires
        all_match_from(p, c, cs, num, 0),
    ensures
        eval(p, c, QueryV::And(cs), num) == Ok::<Seq<MatchV>, Seq<char>>(concat_from(p, c, cs, num, 0)),
{
    if cs.len() > 0 {
        lemma_and_concat(p, c, cs, num, 0);
    } else {
        assert(concat_from(p, c, cs, num, 0) == Seq::<MatchV>::empty());
    }
}

proof fn lemma_or_from(
    p: Seq<char>,
    c: Seq<char>,
    cs: Seq<QueryV>,
    num: spec_fn(Seq<char>, Seq<char>) -> Option<NumericOrder>,
    j: int,
    i: int,
)
    requires
        0 <= j <= i <= cs.len(),
        forall|k: int| j <= k < i ==> found_none(#[trigger] eval(p, c, cs[k], num)),
    ensures
        eval_or(p, c, cs, num, j) == eval_or(p, c, cs, num, i),
    decreases i - j,
{
    if j < i {
        assert(found_none(eval(p, c, cs[j], num)));
        lemma_or_from(p, c, cs, num, j + 1, i);
    }
}

/// A disjunction gives the matches of its first child that matches, when
/// the children before it match nothing (without error).
pub proof fn law_or_first_match(
    p: Seq<char>,
    c: Seq<char>,
    cs: Seq<QueryV>,
    num: spec_fn(Seq<char>, Seq<char>) -> Option<NumericOrder>,
    i: int,
)
    requires
        0 <= i < cs.len(),
        forall|k: int| 0 <= k < i ==> found_none(#[trigger] eval(p, c, cs[k], num)),
        eval(p, c, cs[i], num) matches Ok(ms) && ms.len() > 0,
    ensures
        eval(p, c, QueryV::Or(cs), num) == eval(p, c, cs[i], num),
{
    lemma_or_from(p, c, cs, num, 0, i);
}

/// A disjunction whose children all match nothing (without error) matches
/// nothing.
pub proof fn law_or_none_match(
    p: Seq<char>,
    c: Seq<char>,
    cs: Seq<QueryV>,
    num: spec_fn(Seq<char>, Seq<char>) -> Option<NumericOrder>,
)
    requires
        forall|k: int| 0 <= k < cs.len() ==> found_none(#[trigger] eval(p, c, cs[k], num)),
    ensures
        eval(p, c, QueryV::Or(cs), num) == Ok::<Seq<MatchV>, Seq<char>>(Seq::empty()),
{
    lemma_or_from(p, c, cs, num, 0, cs.len() as int);
}

/// A matcher's regular expression, if it has one, builds: matching it
/// gives no error, on any text, ignoring case or not.
pub open spec fn matcher_builds(m: MatcherV) -> bool {
    m matches MatcherV::Regex(pat) ==> forall|ci: bool, h: Seq<char>| #[trigger] regex_outcome(pat, ci, h) is Ok
}

/// Every regular expression of a query builds.
pub open spec fn query_builds(q: QueryV) -> bool
    decreases q,
{
    match q {
        QueryV::Field(pred) => match pred {
            PredV::Path(m) => matcher_builds(m),
            PredV::Filename(m) => matcher_builds(m),
            PredV::Content(m) => matcher_builds(m),
            PredV::Section(sub) => query_builds(*sub),
            PredV::Line(sub) => query_builds(*sub),
            PredV::Tag(_) => true,
            PredV::Property(_, _, _) => true,
        },
        QueryV::And(cs) => forall|k: int| 0 <= k < cs.len() ==> query_builds(#[trigger] cs[k]),
        QueryV::Or(cs) => forall|k: int| 0 <= k < cs.len() ==> query_builds(#[trigger] cs[k]),
        QueryV::Not(child) => query_builds(*child),
    }
}

proof fn lemma_matches_builds(h: Seq<char>, m: MatcherV, cs: bool)
    requires
        matcher_builds(m),
    ensures
        matches_spec(h, m, cs) is Ok,
{
    if let MatcherV::Regex(pat) = m {
        assert(regex_outcome(pat, !cs, h) is Ok);
    }
}

proof fn lemma_content_builds(c: Seq<char>, m: MatcherV, i: int)
    requires
        matcher_builds(m),
    ensures
        content_from(c, m, i) is Ok,
    decreases body_lines(c).len() - i,
{
    if 0 <= i < body_lines(c).len() {
        lemma_matches_builds(body_lines(c)[i], m, false);
        lemma_content_builds(c, m, i + 1);
    }
}

/// When every regular expression of a query builds, evaluating the query
/// gives no error.
pub proof fn lemma_query_builds_ok(
    p: Seq<char>,
    c: Seq<char>,
    q: QueryV,
    num: spec_fn(Seq<char>, Seq<char>) -> Option<NumericOrder>,
)
    requires
        query_builds(q),
    ensures
        eval(p, c, q, num) is Ok,
    decreases q, 0int,
{
    match q {
        QueryV::Field(pred) => match pred {
            PredV::Path(m) => lemma_matches_builds(p, m, !(m is Contains)),
            PredV::Filename(m) => lemma_matches_builds(note_name(p), m, !(m is Contains)),
            PredV::Content(m) => lemma_content_builds(c, m, 0),
            PredV::Section(sub) => lemma_sections_builds(p, c, *sub, num, 0),
            PredV::Line(sub) => lemma_lines_builds(p, c, *sub, num, 0),
            PredV::Tag(_) => {},
            PredV::Property(_, _, _) => {},
        },
        QueryV::And(cs) => {
            if cs.len() > 0 {
                lemma_and_builds(p, c, cs, num, 0);
            }
        },
        QueryV::Or(cs) => lemma_or_builds(p, c, cs, num, 0),
        QueryV::Not(child) => lemma_query_builds_ok(p, c, *child, num),
    }
}

proof fn lemma_and_builds(
    p: Seq<char>,
    c: Seq<char>,
    cs: Seq<QueryV>,
    num: spec_fn(Seq<char>, Seq<char>) -> Option<NumericOrder>,
    i: int,
)
    requires
        forall|k: int| 0 <= k < cs.len() ==> query_builds(#[trigger] cs[k]),
    ensures
        eval_and(p, c, cs, num, i) is Ok,
    decreases cs, cs.len() - i,
{
    if 0 <= i < cs.len() {
        assert(query_builds(cs[i]));
        lemma_query_builds_ok(p, c, cs[i], num);
        lemma_and_builds(p, c, cs, num, i + 1);
    }
}

proof fn lemma_or_builds(
    p: Seq<char>,
    c: Seq<char>,
    cs: Seq<QueryV>,
    num: spec_fn(Seq<char>, Seq<char>) -> Option<NumericOrder>,
    i: int,
)
    requires
        forall|k: int| 0 <= k < cs.len() ==> query_builds(#[trigger] cs[k]),
    ensures
        eval_or(p, c, cs, num, i) is Ok,
    decreases cs, cs.len() - i,
{
    if 0 <= i < cs.len() {
        assert(query_builds(cs[i]));
        lemma_query_builds_ok(p, c, cs[i], num);
        lemma_or_builds(p, c, cs, num, i + 1);
    }
}

proof fn lemma_sections_builds(
    p: Seq<char>,
    c: Seq<char>,
    sub: QueryV,
    num: spec_fn(Seq<char>, Seq<char>) -> Option<NumericOrder>,
    i: int,
)
    requires
        query_builds(sub),
    ensures
        eval_sections(p, c, sub, num, i) is Ok,
    decreases sub, sections(c).len() - i,
{
    if 0 <= i < sections(c).len() {
        lemma_query_builds_ok(p, section_text(c, sections(c)[i]), sub, num);
        lemma_sections_builds(p, c, sub, num, i + 1);
    }
}

proof fn lemma_lines_builds(
    p: Seq<char>,
    c: Seq<char>,
    sub: QueryV,
    num: spec_fn(Seq<char>, Seq<char>) -> Option<NumericOrder>,
    i: int,
)
    requires
        query_builds(sub),
    ensures
        eval_lines(p, c, sub, num, i) is Ok,
    decreases sub, body_lines(c).len() - i,
{
    if 0 <= i < body_lines(c).len() {
        lemma_query_builds_ok(p, body_lines(c)[i], sub, num);
        lemma_lines_builds(p, c, sub, num, i + 1);
    }
}

/// When every regular expression of a query builds, a negated query
/// matches exactly when the query matches nothing, and neither fails.
pub proof fn law_built_not_negates(
    p: Seq<char>,
    c: Seq<char>,
    q: QueryV,
    num: spec_fn(Seq<char>, Seq<char>) -> Option<NumericOrder>,
)
    requires
        query_builds(q),
    ensures
        eval(p, c, QueryV::Not(Box::new(q)), num) is Ok,
        found_some(eval(p, c, QueryV::Not(Box::new(q)), num)) <==> !found_some(eval(p, c, q, num)),
{
    lemma_query_builds_ok(p, c, q, num);
}

proof fn lemma_and_empty_from(
    p: Seq<char>,
    c: Seq<char>,
    cs: Seq<QueryV>,
    num: spec_fn(Seq<char>, Seq<char>) -> Option<NumericOrder>,
    i: int,
    k: int,
)
    requires
        0 <= i <= k < cs.len(),
        forall|j: int| 0 <= j < cs.len() ==> query_builds(#[trigger] cs[j]),
        found_none(eval(p, c, cs[k], num)),
    ensures
        eval_and(p, c, cs, num, i) == Ok::<Seq<MatchV>, Seq<char>>(Seq::empty()),
    decreases k - i,
{
    assert(query_builds(cs[i]));
    lemma_query_builds_ok(p, c, cs[i], num);
    if i < k {
        lemma_and_empty_from(p, c, cs, num, i + 1, k);
        let ms = eval(p, c, cs[i], num)->Ok_0;
        if ms.len() == 0 {
            assert(eval_and(p, c, cs, num, i) == Ok::<Seq<MatchV>, Seq<char>>(Seq::empty()));
        }
    } else {
        assert(eval(p, c, cs[i], num)->Ok_0 =~= Seq::<MatchV>::empty());
    }
}

/// When every regular expression of a conjunction builds, the conjunction
/// gives the matches of all its queries, concatenated in order, when each
/// of them matches, and no match otherwise.
pub proof fn law_built_and(
    p: Seq<char>,
    c: Seq<char>,
    cs: Seq<QueryV>,
    num: spec_fn(Seq<char>, Seq<char>) -> Option<NumericOrder>,
)
    requires
        forall|k: int| 0 <= k < cs.len() ==> query_builds(#[trigger] cs[k]),
    ensures
        eval(p, c, QueryV::And(cs), num) == if all_match_from(p, c, cs, num, 0) {
            Ok::<Seq<MatchV>, Seq<char>>(concat_from(p, c, cs, num, 0))
        } else {
            Ok::<Seq<MatchV>, Seq<char>>(Seq::empty())
        },
{
    if all_match_from(p, c, cs, num, 0) {
        law_and_concatenates(p, c, cs, num);
    } else {
        let k = choose|k: int| 0 <= k < cs.len() && !found_some(#[trigger] eval(p, c, cs[k], num));
        assert(query_builds(cs[k]));
        lemma_query_builds_ok(p, c, cs[k], num);
        lemma_and_empty_from(p, c, cs, num, 0, k);
    }
}

/// The matches of the first child, from `i` on, that matches; none when
/// none matches.
pub open spec fn first_found_from(
    p: Seq<char>,
    c: Seq<char>,
    cs: Seq<QueryV>,
    num: spec_fn(Seq<char>, Seq<char>) -> Option<NumericOrder>,
    i: int,
) -> Seq<MatchV>
    decreases cs.len() - i,
{
    if i < 0 || i >= cs.len() {
        Seq::empty()
    } else if found_some(eval(p, c, cs[i], num)) {
        eval(p, c, cs[i], num)->Ok_0
    } else {
        first_found_from(p, c, cs, num, i + 1)
    }
}

proof fn lemma_or_first_from(
    p: Seq<char>,
    c: Seq<char>,
    cs: Seq<QueryV>,
    num: spec_fn(Seq<char>, Seq<char>) -> Option<NumericOrder>,
    i: int,
)
    requires
        0 <= i,
        forall|k: int| 0 <= k < cs.len() ==> query_builds(#[trigger] cs[k]),
    ensures
        eval_or(p, c, cs, num, i) == Ok::<Seq<MatchV>, Seq<char>>(first_found_from(p, c, cs, num, i)),
    decreases cs.len() - i,
{
    if i < cs.len() {
        assert(query_builds(cs[i]));
        lemma_query_builds_ok(p, c, cs[i], num);
        lemma_or_first_from(p, c, cs, num, i + 1);
    }
}

/// When every regular expression of a disjunction builds, the disjunction
/// gives the matches of its first query that matches, and no match when
/// none does.
pub proof fn law_built_or(
    p: Seq<char>,
    c: Seq<char>,
    cs: Seq<QueryV>,
    num: spec_fn(Seq<char>, Seq<char>) -> Option<NumericOrder>,
)
    requires
        forall|k: int| 0 <= k < cs.len() ==> query_builds(#[trigger] cs[k]),
    ensures
        eval(p, c, QueryV::Or(cs), num) == Ok::<Seq<MatchV>, Seq<char>>(first_found_from(p, c, cs, num, 0)),
{
    lemma_or_first_from(p, c, cs, num, 0);
}

} // verus!
