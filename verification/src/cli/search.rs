//! Search command: which notes a query hits by name, path or content, and
//! the tag and frontmatter filters that narrow the hits.
//!
//! Scores are floating point and computed by the caller; what is decided
//! here is whether a note scores above zero at all, which for every mode is
//! a plain condition on characters.

use vstd::prelude::*;
use crate::search::matcher::{regex_is_match, regex_outcome};
use crate::cli::content::char_offset;
use crate::text::{
    append_chars, byte_len, bytes_between, char_at_byte, char_index_at_byte, is_whitespace, is_ws,
    lemma_char_at_byte_some, lemma_utf8_len_bounds, lemma_utf8_prefix_strict, pat3, string_of, trim, trim_vec, utf8_len,
    chars_of, contains_seq, find_char, find_char_from, find_from, find_seq_from, has_prefix,
    lemma_find_char_found, lemma_find_from_found, matches_at, pat2, same_chars, str_lowercase, string_of_range, sub_vec, to_lowercase,
};
use crate::yaml::{
    bool_variant, map_get, number_text, sequence_variant, string_variant, untag, value_get,
    yaml_tree, YamlV,
};

verus! {

/// How a query is compared with note names.
#[derive(Debug, Clone, Copy, PartialEq, Eq, Structural)]
pub enum SearchMode {
    Subsequence,
    Fuzzy,
    Exact,
    Regex,
}

/// The characters `q[qi..]` occur in order in `t[ti..]`, matched greedily.
pub open spec fn subseq_from(q: Seq<char>, t: Seq<char>, qi: int, ti: int) -> bool
    decreases t.len() - ti,
{
    if qi >= q.len() {
        true
    } else if ti < 0 || ti >= t.len() {
        false
    } else if t[ti] == q[qi] {
        subseq_from(q, t, qi + 1, ti + 1)
    } else {
        subseq_from(q, t, qi, ti + 1)
    }
}

/// Some character of `t` occurs in `q`.
pub open spec fn shares_char(q: Seq<char>, t: Seq<char>) -> bool {
    exists|j: int| 0 <= j < t.len() && #[trigger] q.contains(t[j])
}

/// Whether a text scores above zero for a query: the lowercased query is a
/// subsequence of the lowercased text (subsequence mode); that, or some
/// character in common (fuzzy mode); the lowercased text contains the
/// lowercased query (exact mode); the regular expression matches (regex
/// mode), or the text of the error when it does not build.
pub open spec fn text_hit(mode: SearchMode, q: Seq<char>, t: Seq<char>) -> Result<bool, Seq<char>> {
    let ql = str_lowercase(q);
    let tl = str_lowercase(t);
    match mode {
        SearchMode::Subsequence => Ok(subseq_from(ql, tl, 0, 0)),
        SearchMode::Fuzzy => Ok(subseq_from(ql, tl, 0, 0) || shares_char(ql, tl)),
        SearchMode::Exact => Ok(contains_seq(tl, ql)),
        SearchMode::Regex => regex_outcome(q, false, t),
    }
}

/// Whether a note scores above zero by name: as [`text_hit`] on the name,
/// except that a regular expression may also match the path.
pub open spec fn name_hit(mode: SearchMode, q: Seq<char>, name: Seq<char>, path: Seq<char>) -> Result<
    bool,
    Seq<char>,
> {
    match mode {
        SearchMode::Regex => match regex_outcome(q, false, name) {
            Ok(true) => Ok(true),
            Ok(false) => regex_outcome(q, false, path),
            Err(e) => Err(e),
        },
        _ => text_hit(mode, q, name),
    }
}

/// An executable result agrees with its specification.
pub open spec fn hit_agrees(r: Result<bool, String>, s: Result<bool, Seq<char>>) -> bool {
    match s {
        Ok(b) => r == Ok::<bool, String>(b),
        Err(e) => r matches Err(x) && x@ == e,
    }
}

fn is_subsequence(q: &[char], t: &[char]) -> (r: bool)
    ensures
        r == subseq_from(q@, t@, 0, 0),
{
    let mut qi: usize = 0;
    let mut ti: usize = 0;
    while ti < t.len()
        invariant
            qi <= q@.len(),
            ti <= t@.len(),
            subseq_from(q@, t@, 0, 0) == subseq_from(q@, t@, qi as int, ti as int),
        decreases t@.len() - ti,
    {
        if qi < q.len() && t[ti] == q[qi] {
            qi = qi + 1;
        }
        ti = ti + 1;
    }
    qi >= q.len()
}

fn has_shared_char(q: &[char], t: &[char]) -> (r: bool)
    ensures
        r == shares_char(q@, t@),
{
    let mut j: usize = 0;
    while j < t.len()
        invariant
            j <= t@.len(),
            forall|jj: int| 0 <= jj < j ==> !q@.contains(#[trigger] t@[jj]),
        decreases t@.len() - j,
    {
        let mut i: usize = 0;
        while i < q.len()
            invariant
                j < t@.len(),
                i <= q@.len(),
                forall|ii: int| 0 <= ii < i ==> q@[ii] != t@[j as int],
            decreases q@.len() - i,
        {
            if q[i] == t[j] {
                assert(q@.contains(t@[j as int]));
                return true;
            }
            i = i + 1;
        }
        j = j + 1;
    }
    false
}

/// Whether `text` scores above zero for `query` in the given mode (see
/// [`text_hit`]); used for note bodies.
pub fn content_hit(mode: SearchMode, query: &str, text: &str) -> (r: Result<bool, String>)
    ensures
        hit_agrees(r, text_hit(mode, query@, text@)),
{
    match mode {
        SearchMode::Regex => regex_is_match(query, false, text),
        _ => {
            let ql = chars_of(to_lowercase(query).as_str());
            let tl = chars_of(to_lowercase(text).as_str());
            match mode {
                SearchMode::Subsequence => Ok(is_subsequence(ql.as_slice(), tl.as_slice())),
                SearchMode::Fuzzy => Ok(
                    is_subsequence(ql.as_slice(), tl.as_slice()) || has_shared_char(
                        ql.as_slice(),
                        tl.as_slice(),
                    ),
                ),
                _ => Ok(find_seq_from(tl.as_slice(), ql.as_slice(), 0).is_some()),
            }
        },
    }
}

/// Whether a note scores above zero by its name and path (see
/// [`name_hit`]); an invalid regular expression gives its error, which the
/// command counts as no hit.
pub fn search_hit(mode: SearchMode, query: &str, name: &str, path: &str) -> (r: Result<bool, String>)
    ensures
        hit_agrees(r, name_hit(mode, query@, name@, path@)),
{
    match mode {
        SearchMode::Regex => match regex_is_match(query, false, name) {
            Ok(true) => Ok(true),
            Ok(false) => regex_is_match(query, false, path),
            Err(e) => Err(e),
        },
        _ => content_hit(mode, query, name),
    }
}

// ---------------------------------------------------------------------------
// Tag filters
// ---------------------------------------------------------------------------

/// The lowercased tag a filter asks for, with `#` in front.
pub open spec fn required_tag(r: Seq<char>) -> Seq<char> {
    if r.len() > 0 && r[0] == '#' {
        str_lowercase(r)
    } else {
        seq!['#'] + str_lowercase(r)
    }
}

/// A lowercased tag is the required one or nested under it.
pub open spec fn tag_under(t: Seq<char>, req: Seq<char>) -> bool {
    t == req || has_prefix(t, req.push('/'))
}

/// Some tag of the note, lowercased, is the required tag or nested under it.
pub open spec fn tag_hits(tags: Seq<Seq<char>>, r: Seq<char>) -> bool {
    exists|i: int| 0 <= i < tags.len() && tag_under(#[trigger] str_lowercase(tags[i]), required_tag(r))
}

/// The texts of strings.
pub open spec fn texts(v: Seq<String>) -> Seq<Seq<char>> {
    v.map_values(|s: String| s@)
}

/// Every tag of `all` hits, some tag of `any` hits (when `any` is not
/// empty), and no tag of `none` hits.
pub open spec fn tag_filters_pass(
    tags: Seq<Seq<char>>,
    all: Seq<Seq<char>>,
    any: Seq<Seq<char>>,
    none: Seq<Seq<char>>,
) -> bool {
    &&& forall|i: int| 0 <= i < all.len() ==> #[trigger] tag_hits(tags, all[i])
    &&& (any.len() == 0 || exists|i: int| 0 <= i < any.len() && #[trigger] tag_hits(tags, any[i]))
    &&& !exists|i: int| 0 <= i < none.len() && #[trigger] tag_hits(tags, none[i])
}

fn required_chars(r: &str) -> (out: Vec<char>)
    ensures
        out@ == required_tag(r@),
{
    let rc = chars_of(r);
    let lower = chars_of(to_lowercase(r).as_str());
    if rc.len() > 0 && rc[0] == '#' {
        lower
    } else {
        let mut out: Vec<char> = Vec::new();
        out.push('#');
        let mut k: usize = 0;
        while k < lower.len()
            invariant
                k <= lower@.len(),
                out@ == seq!['#'] + lower@.subrange(0, k as int),
            decreases lower@.len() - k,
        {
            out.push(lower[k]);
            k = k + 1;
            assert(out@ == seq!['#'] + lower@.subrange(0, k as int));
        }
        assert(lower@.subrange(0, lower@.len() as int) == lower@);
        out
    }
}

/// Whether some tag of the note is the filter's tag or nested under it,
/// ignoring case (`project` hits `#project` and `#Project/foo`).
pub fn tag_matches(tags: &Vec<String>, required: &str) -> (r: bool)
    ensures
        r == tag_hits(texts(tags@), required@),
{
    let req = required_chars(required);
    let mut slash = req.clone();
    slash.push('/');
    let mut i: usize = 0;
    while i < tags.len()
        invariant
            i <= tags@.len(),
            req@ == required_tag(required@),
            slash@ == req@.push('/'),
            forall|k: int| 0 <= k < i ==> !tag_under(#[trigger] str_lowercase(texts(tags@)[k]), req@),
        decreases tags@.len() - i,
    {
        let t = chars_of(to_lowercase(tags[i].as_str()).as_str());
        assert(texts(tags@)[i as int] == tags@[i as int]@);
        if same_chars(t.as_slice(), req.as_slice()) || matches_at(t.as_slice(), 0, slash.as_slice()) {
            assert(tag_under(str_lowercase(texts(tags@)[i as int]), req@));
            return true;
        }
        i = i + 1;
    }
    false
}

/// Whether a note with these tags passes the tag filters: all of `all`,
/// at least one of `any` (when given), none of `none`.
pub fn passes_tag_filters(
    tags: &Vec<String>,
    all: &Vec<String>,
    any: &Vec<String>,
    none: &Vec<String>,
) -> (r: bool)
    ensures
        r == tag_filters_pass(texts(tags@), texts(all@), texts(any@), texts(none@)),
{
    let ghost tv = texts(tags@);
    let mut i: usize = 0;
    while i < all.len()
        invariant
            i <= all@.len(),
            tv == texts(tags@),
            forall|k: int| 0 <= k < i ==> #[trigger] tag_hits(tv, texts(all@)[k]),
        decreases all@.len() - i,
    {
        if !tag_matches(tags, all[i].as_str()) {
            assert(!tag_hits(tv, texts(all@)[i as int]));
            return false;
        }
        i = i + 1;
    }
    if any.len() > 0 {
        let mut found = false;
        let mut i: usize = 0;
        while i < any.len()
            invariant
                i <= any@.len(),
                tv == texts(tags@),
                found ==> exists|k: int| 0 <= k < any@.len() && #[trigger] tag_hits(tv, texts(any@)[k]),
                !found ==> forall|k: int| 0 <= k < i ==> !#[trigger] tag_hits(tv, texts(any@)[k]),
            decreases any@.len() - i,
        {
            if !found && tag_matches(tags, any[i].as_str()) {
                assert(tag_hits(tv, texts(any@)[i as int]));
                found = true;
            }
            i = i + 1;
        }
        if !found {
            return false;
        }
    }
    let mut i: usize = 0;
    while i < none.len()
        invariant
            i <= none@.len(),
            tv == texts(tags@),
            forall|k: int| 0 <= k < i ==> !#[trigger] tag_hits(tv, texts(none@)[k]),
        decreases none@.len() - i,
    {
        if tag_matches(tags, none[i].as_str()) {
            assert(tag_hits(tv, texts(none@)[i as int]));
            return false;
        }
        i = i + 1;
    }
    true
}

// ---------------------------------------------------------------------------
// Frontmatter filters
// ---------------------------------------------------------------------------

/// A value equals a filter's text: a string with that text, `true`/`false`
/// for a boolean, a number with that text.
pub open spec fn value_equals(v: YamlV, value: Seq<char>) -> bool {
    match v {
        YamlV::Str(s) => s == value,
        YamlV::Bool(b) => (value == "true"@ && b) || (value == "false"@ && !b),
        YamlV::Number(t) => t == value,
        _ => false,
    }
}

/// `s` without its leading `[[` pairs.
pub open spec fn strip_opens(s: Seq<char>) -> Seq<char>
    decreases s.len(),
{
    if s.len() >= 2 && s[0] == '[' && s[1] == '[' {
        strip_opens(s.subrange(2, s.len() as int))
    } else {
        s
    }
}

/// `s` without its trailing `]]` pairs.
pub open spec fn strip_closes(s: Seq<char>) -> Seq<char>
    decreases s.len(),
{
    if s.len() >= 2 && s[s.len() - 2] == ']' && s[s.len() - 1] == ']' {
        strip_closes(s.subrange(0, s.len() - 2))
    } else {
        s
    }
}

/// A list item contains a filter's text: a string equal to it, or whose
/// text without `[[`/`]]` is it; then, with a `|` in that text, its part
/// before or after the first `|` is it, and without one the text contains
/// it. Booleans and numbers as in [`value_equals`].
pub open spec fn item_contains(v: YamlV, value: Seq<char>) -> bool {
    match v {
        YamlV::Str(s) => {
            let st = strip_closes(strip_opens(s));
            s == value || st == value || match find_char_from(st, '|', 0) {
                Some(k) => st.subrange(0, k) == value || st.subrange(k + 1, st.len() as int) == value,
                None => contains_seq(st, value),
            }
        },
        _ => value_equals(v, value),
    }
}

/// A value contains a filter's text: some item of a list contains it, and
/// any other value equals it.
pub open spec fn list_contains(v: YamlV, value: Seq<char>) -> bool {
    match v {
        YamlV::List(items) => some_item_contains(items, value),
        _ => value_equals(v, value),
    }
}

/// Some item contains a filter's text.
pub open spec fn some_item_contains(items: Seq<YamlV>, value: Seq<char>) -> bool {
    exists|i: int| 0 <= i < items.len() && #[trigger] item_contains(items[i], value)
}

/// The value of a string key of the frontmatter (through its tags).
pub open spec fn fm_lookup(fm: YamlV, k: Seq<char>) -> Option<YamlV> {
    match untag(fm) {
        YamlV::Mapping(es) => map_get(es, k),
        _ => None,
    }
}

/// One frontmatter filter: `key!=value` (true when the key is missing),
/// `key~=value` (list contains), `key=value`, or a bare key that must be
/// present; the first `!=`, then the first `~=`, then the first `=` splits.
pub open spec fn filter_matches(f: Seq<char>, fm: YamlV) -> bool {
    match find_from(f, seq!['!', '='], 0) {
        Some(i) => match fm_lookup(fm, f.subrange(0, i)) {
            Some(v) => !value_equals(v, f.subrange(i + 2, f.len() as int)),
            None => true,
        },
        None => match find_from(f, seq!['~', '='], 0) {
            Some(i) => match fm_lookup(fm, f.subrange(0, i)) {
                Some(v) => list_contains(v, f.subrange(i + 2, f.len() as int)),
                None => false,
            },
            None => match find_char_from(f, '=', 0) {
                Some(i) => match fm_lookup(fm, f.subrange(0, i)) {
                    Some(v) => value_equals(v, f.subrange(i + 1, f.len() as int)),
                    None => false,
                },
                None => fm_lookup(fm, f) is Some,
            },
        },
    }
}

/// Without filters every note passes; with some, the note needs
/// frontmatter that every filter matches.
pub open spec fn fm_filters_pass(filters: Seq<Seq<char>>, fm: Option<YamlV>) -> bool {
    filters.len() == 0 || match fm {
        Some(v) => all_filters_match(filters, v),
        None => false,
    }
}

/// The tree of an optional frontmatter value.
pub open spec fn fm_tree(fm: Option<&serde_yaml::Value>) -> Option<YamlV> {
    match fm {
        Some(v) => Some(yaml_tree(*v)),
        None => None,
    }
}

/// Every filter matches the frontmatter.
pub open spec fn all_filters_match(filters: Seq<Seq<char>>, fm: YamlV) -> bool {
    forall|i: int| 0 <= i < filters.len() ==> #[trigger] filter_matches(filters[i], fm)
}

fn value_equals_exec(v: &serde_yaml::Value, value: &Vec<char>) -> (r: bool)
    ensures
        r == value_equals(yaml_tree(*v), value@),
{
    match string_variant(v) {
        Some(s) => same_chars(chars_of(s.as_str()).as_slice(), value.as_slice()),
        None => match bool_variant(v) {
            Some(b) => (b && same_chars(value.as_slice(), chars_of("true").as_slice())) || (!b
                && same_chars(value.as_slice(), chars_of("false").as_slice())),
            None => match number_text(v) {
                Some(t) => same_chars(chars_of(t.as_str()).as_slice(), value.as_slice()),
                None => false,
            },
        },
    }
}

fn strip_brackets(s: &Vec<char>) -> (r: Vec<char>)
    ensures
        r@ == strip_closes(strip_opens(s@)),
{
    let n = s.len();
    let mut lo: usize = 0;
    assert(s@.subrange(0, n as int) == s@);
    while n - lo >= 2 && s[lo] == '[' && s[lo + 1] == '['
        invariant
            n == s@.len(),
            lo <= n,
            strip_opens(s@) == strip_opens(s@.subrange(lo as int, n as int)),
        decreases n - lo,
    {
        assert(s@.subrange(lo as int, n as int).subrange(2, (n - lo) as int) =~= s@.subrange(
            lo + 2,
            n as int,
        ));
        lo = lo + 2;
    }
    let mut hi: usize = n;
    let ghost o = s@.subrange(lo as int, n as int);
    assert(o == strip_opens(s@));
    while hi - lo >= 2 && s[hi - 2] == ']' && s[hi - 1] == ']'
        invariant
            n == s@.len(),
            lo <= hi <= n,
            o == s@.subrange(lo as int, n as int),
            strip_closes(o) == strip_closes(s@.subrange(lo as int, hi as int)),
        decreases hi,
    {
        assert(s@.subrange(lo as int, hi as int).subrange(0, hi - lo - 2) =~= s@.subrange(
            lo as int,
            hi - 2,
        ));
        hi = hi - 2;
    }
    sub_vec(s, lo, hi)
}

fn item_contains_exec(v: &serde_yaml::Value, value: &Vec<char>) -> (r: bool)
    ensures
        r == item_contains(yaml_tree(*v), value@),
{
    match string_variant(v) {
        Some(s) => {
            let sc = chars_of(s.as_str());
            let st = strip_brackets(&sc);
            if same_chars(sc.as_slice(), value.as_slice()) || same_chars(st.as_slice(), value.as_slice()) {
                return true;
            }
            match find_char(st.as_slice(), '|', 0) {
                Some(k) => {
                    proof {
                        lemma_find_char_found(st@, '|', 0);
                    }
                    let path = sub_vec(&st, 0, k);
                    let alias = sub_vec(&st, k + 1, st.len());
                    same_chars(path.as_slice(), value.as_slice()) || same_chars(
                        alias.as_slice(),
                        value.as_slice(),
                    )
                },
                None => find_seq_from(st.as_slice(), value.as_slice(), 0).is_some(),
            }
        },
        None => value_equals_exec(v, value),
    }
}

fn list_contains_exec(v: &serde_yaml::Value, value: &Vec<char>) -> (r: bool)
    ensures
        r == list_contains(yaml_tree(*v), value@),
{
    match sequence_variant(v) {
        Some(items) => {
            let ghost its = yaml_tree(*v)->List_0;
            let mut i: usize = 0;
            while i < items.len()
                invariant
                    yaml_tree(*v) == YamlV::List(its),
                    items@.len() == its.len(),
                    forall|k: int| 0 <= k < its.len() ==> yaml_tree(#[trigger] items@[k]) == its[k],
                    i <= items@.len(),
                    forall|k: int| 0 <= k < i ==> !#[trigger] item_contains(its[k], value@),
                decreases items@.len() - i,
            {
                assert(yaml_tree(items@[i as int]) == its[i as int]);
                if item_contains_exec(&items[i], value) {
                    assert(item_contains(its[i as int], value@));
                    assert(exists|k: int| 0 <= k < its.len() && #[trigger] item_contains(its[k], value@));
                    return true;
                }
                i = i + 1;
            }
            false
        },
        None => value_equals_exec(v, value),
    }
}

fn lookup<'a>(fm: &'a serde_yaml::Value, f: &Vec<char>, i: usize) -> (r: Option<&'a serde_yaml::Value>)
    requires
        i <= f@.len(),
    ensures
        match fm_lookup(yaml_tree(*fm), f@.subrange(0, i as int)) {
            Some(x) => r matches Some(y) && yaml_tree(*y) == x,
            None => r is None,
        },
{
    let key = string_of_range(f, 0, i);
    value_get(fm, key.as_str())
}

/// Whether the frontmatter matches one filter (see [`filter_matches`]).
pub fn matches_frontmatter_filter(filter: &str, fm: &serde_yaml::Value) -> (r: bool)
    ensures
        r == filter_matches(filter@, yaml_tree(*fm)),
{
    let f = chars_of(filter);
    let n = f.len();
    let neq = pat2('!', '=');
    let has = pat2('~', '=');
    match find_seq_from(f.as_slice(), neq.as_slice(), 0) {
        Some(i) => {
            proof {
                lemma_find_from_found(f@, neq@, 0);
            }
            let rest = sub_vec(&f, i + 2, n);
            match lookup(fm, &f, i) {
                Some(v) => !value_equals_exec(v, &rest),
                None => true,
            }
        },
        None => match find_seq_from(f.as_slice(), has.as_slice(), 0) {
            Some(i) => {
                proof {
                    lemma_find_from_found(f@, has@, 0);
                }
                let rest = sub_vec(&f, i + 2, n);
                match lookup(fm, &f, i) {
                    Some(v) => list_contains_exec(v, &rest),
                    None => false,
                }
            },
            None => match find_char(f.as_slice(), '=', 0) {
                Some(i) => {
                    proof {
                        lemma_find_char_found(f@, '=', 0);
                    }
                    let rest = sub_vec(&f, i + 1, n);
                    match lookup(fm, &f, i) {
                        Some(v) => value_equals_exec(v, &rest),
                        None => false,
                    }
                },
                None => {
                    assert(f@.subrange(0, n as int) == f@);
                    lookup(fm, &f, n).is_some()
                },
            },
        },
    }
}

/// Whether a note passes the frontmatter filters: always without filters,
/// and otherwise only with frontmatter (`fm`) that every filter matches.
pub fn passes_frontmatter_filters(filters: &Vec<String>, fm: Option<&serde_yaml::Value>) -> (r: bool)
    ensures
        r == fm_filters_pass(texts(filters@), fm_tree(fm)),
{
    assert(texts(filters@).len() == filters@.len());
    if filters.len() == 0 {
        return true;
    }
    match fm {
        None => false,
        Some(v) => {
            let mut i: usize = 0;
            while i < filters.len()
                invariant
                    i <= filters@.len(),
                    fm_tree(fm) == Some(yaml_tree(*v)),
                    forall|k: int| 0 <= k < i ==> #[trigger] filter_matches(texts(filters@)[k], yaml_tree(*v)),
                decreases filters@.len() - i,
            {
                assert(texts(filters@)[i as int] == filters@[i as int]@);
                if !matches_frontmatter_filter(filters[i].as_str(), v) {
                    assert(!filter_matches(texts(filters@)[i as int], yaml_tree(*v)));
                    assert(!all_filters_match(texts(filters@), yaml_tree(*v)));
                    assert(fm_tree(fm) == Some(yaml_tree(*v)));
                    return false;
                }
                i = i + 1;
            }
            assert(texts(filters@).len() == filters@.len());
            true
        },
    }
}

// ---------------------------------------------------------------------------
// Context around a content match
// ---------------------------------------------------------------------------

/// The last whitespace character before index `i`.
pub open spec fn last_ws_before(s: Seq<char>, i: int) -> Option<int>
    decreases i,
{
    if i <= 0 || i > s.len() {
        None
    } else if is_ws(s[i - 1]) {
        Some(i - 1)
    } else {
        last_ws_before(s, i - 1)
    }
}

/// The first whitespace character at or after index `i`.
pub open spec fn first_ws_from(s: Seq<char>, i: int) -> Option<int>
    decreases s.len() - i,
{
    if i < 0 || i >= s.len() {
        None
    } else if is_ws(s[i]) {
        Some(i)
    } else {
        first_ws_from(s, i + 1)
    }
}

/// The byte offset at which the lowercased query first occurs in the
/// lowercased content.
pub open spec fn ctx_pos(s: Seq<char>, q: Seq<char>) -> Option<int> {
    match find_from(str_lowercase(s), str_lowercase(q), 0) {
        Some(k) => Some(utf8_len(str_lowercase(s).subrange(0, k))),
        None => None,
    }
}

/// Thirty bytes before the match, or the start.
pub open spec fn ctx_start0(pos: int) -> int {
    if pos >= 30 {
        pos - 30
    } else {
        0
    }
}

/// Thirty bytes after the match (the query's length past its start), or
/// the end.
pub open spec fn ctx_end0(s: Seq<char>, q: Seq<char>, pos: int) -> int {
    if pos + utf8_len(q) + 30 < utf8_len(s) {
        pos + utf8_len(q) + 30
    } else {
        utf8_len(s)
    }
}

/// The start widened back to just after the last whitespace before it
/// (one byte past that whitespace's start).
pub open spec fn ctx_start(s: Seq<char>, start0: int) -> int {
    match last_ws_before(s, char_offset(s, start0)) {
        Some(j) => utf8_len(s.subrange(0, j)) + 1,
        None => start0,
    }
}

/// The end widened forward to the next whitespace.
pub open spec fn ctx_end(s: Seq<char>, end0: int) -> int {
    match first_ws_from(s, char_offset(s, end0)) {
        Some(j) => utf8_len(s.subrange(0, j)),
        None => end0,
    }
}

/// The context of a match can be cut from the content: the offsets it uses
/// do not overflow, fall on character boundaries and are in order.
pub open spec fn context_defined(s: Seq<char>, q: Seq<char>) -> bool {
    match ctx_pos(s, q) {
        None => true,
        Some(pos) => {
            &&& pos + utf8_len(q) + 30 <= usize::MAX
            &&& char_at_byte(s, ctx_start0(pos), 0) is Some
            &&& char_at_byte(s, ctx_end0(s, q, pos), 0) is Some
            &&& char_at_byte(s, ctx_start(s, ctx_start0(pos)), 0) is Some
            &&& ctx_start(s, ctx_start0(pos)) <= ctx_end(s, ctx_end0(s, q, pos))
        },
    }
}

/// Line feeds as spaces.
pub open spec fn nl_to_space(t: Seq<char>) -> Seq<char> {
    t.map_values(|c: char| if c == '\n' { ' ' } else { c })
}

/// The context of the first case-insensitive occurrence of `q` in `s`:
/// the text from the start to the end (as bytes), with `...` before it when
/// it does not start the content and after it when it does not end it,
/// line feeds as spaces, trimmed; none when `q` does not occur.
pub open spec fn ctx_text(s: Seq<char>, q: Seq<char>) -> Option<Seq<char>> {
    match ctx_pos(s, q) {
        None => None,
        Some(pos) => {
            let start = ctx_start(s, ctx_start0(pos));
            let end = ctx_end(s, ctx_end0(s, q, pos));
            let body = s.subrange(char_offset(s, start), char_offset(s, end));
            let t = (if start > 0 {
                seq!['.', '.', '.']
            } else {
                Seq::<char>::empty()
            }) + body + (if end < utf8_len(s) {
                seq!['.', '.', '.']
            } else {
                Seq::<char>::empty()
            });
            Some(trim(nl_to_space(t)))
        },
    }
}

fn last_ws_index(s: &Vec<char>, i: usize) -> (r: Option<usize>)
    requires
        i <= s@.len(),
    ensures
        match last_ws_before(s@, i as int) {
            Some(x) => r matches Some(y) && y as int == x,
            None => r is None,
        },
{
    let mut j: usize = i;
    while j > 0
        invariant
            j <= i <= s@.len(),
            last_ws_before(s@, i as int) == last_ws_before(s@, j as int),
        decreases j,
    {
        if is_whitespace(s[j - 1]) {
            return Some(j - 1);
        }
        j = j - 1;
    }
    None
}

fn first_ws_index(s: &Vec<char>, i: usize) -> (r: Option<usize>)
    requires
        i <= s@.len(),
    ensures
        match first_ws_from(s@, i as int) {
            Some(x) => r matches Some(y) && y as int == x,
            None => r is None,
        },
{
    let mut j: usize = i;
    while j < s.len()
        invariant
            i <= j <= s@.len(),
            first_ws_from(s@, i as int) == first_ws_from(s@, j as int),
        decreases s@.len() - j,
    {
        if is_whitespace(s[j]) {
            return Some(j);
        }
        j = j + 1;
    }
    None
}

proof fn lemma_char_at_prefix_bytes(s: Seq<char>, j: int, k: int)
    requires
        0 <= k <= j <= s.len(),
    ensures
        char_at_byte(s, utf8_len(s.subrange(0, j)), k) == Some(j),
    decreases j - k,
{
    if k < j {
        lemma_utf8_prefix_strict(s, k, j);
        lemma_char_at_prefix_bytes(s, j, k + 1);
    }
}

proof fn lemma_last_ws_bound(s: Seq<char>, i: int)
    ensures
        last_ws_before(s, i) matches Some(j) ==> 0 <= j < i,
    decreases i,
{
    if 0 < i <= s.len() && !is_ws(s[i - 1]) {
        lemma_last_ws_bound(s, i - 1);
    }
}

proof fn lemma_first_ws_bound(s: Seq<char>, i: int)
    ensures
        first_ws_from(s, i) matches Some(j) ==> i <= j < s.len(),
    decreases s.len() - i,
{
    if 0 <= i < s.len() && !is_ws(s[i]) {
        lemma_first_ws_bound(s, i + 1);
    }
}

/// The context of a match, as `ctx_text` says; none (the outer option)
/// when `context_defined` fails.
fn context_of(content: &str, query: &str) -> (r: Option<Option<Vec<char>>>)
    ensures
        match r {
            None => !context_defined(content@, query@),
            Some(x) => context_defined(content@, query@) && match ctx_text(content@, query@) {
                Some(t) => x matches Some(v) && v@ == t,
                None => x is None,
            },
        },
{
    let s = chars_of(content);
    let lcs = to_lowercase(content);
    let lc = chars_of(lcs.as_str());
    let lqs = to_lowercase(query);
    let lq = chars_of(lqs.as_str());
    let k = match find_seq_from(lc.as_slice(), lq.as_slice(), 0) {
        None => {
            return Some(None);
        },
        Some(k) => k,
    };
    proof {
        lemma_find_from_found(lc@, lq@, 0);
    }
    let lcb = byte_len(lcs.as_str());
    let pos = bytes_between(&lc, 0, k);
    let qlen = byte_len(query);
    let clen = byte_len(content);
    let ghost sv = content@;
    assert(ctx_pos(sv, query@) == Some(pos as int));
    if pos > usize::MAX - 30 || qlen > usize::MAX - 30 - pos {
        return None;
    }
    let start0: usize = if pos >= 30 {
        pos - 30
    } else {
        0
    };
    let e = pos + qlen + 30;
    let end0 = if e < clen {
        e
    } else {
        clen
    };
    let cs = match char_index_at_byte(&s, start0) {
        Some(x) => x,
        None => {
            return None;
        },
    };
    let ce = match char_index_at_byte(&s, end0) {
        Some(x) => x,
        None => {
            return None;
        },
    };
    proof {
        lemma_char_at_byte_some(sv, start0 as int, 0);
        lemma_char_at_byte_some(sv, end0 as int, 0);
        lemma_last_ws_bound(sv, cs as int);
        lemma_first_ws_bound(sv, ce as int);
        lemma_utf8_len_bounds(sv);
    }
    let start: usize = match last_ws_index(&s, cs) {
        Some(j) => {
            proof {
                lemma_utf8_prefix_strict(sv, j as int, cs as int);
            }
            bytes_between(&s, 0, j) + 1
        },
        None => start0,
    };
    assert(start as int == ctx_start(sv, start0 as int));
    let a = match char_index_at_byte(&s, start) {
        Some(x) => x,
        None => {
            return None;
        },
    };
    let (end, b): (usize, usize) = match first_ws_index(&s, ce) {
        Some(j) => {
            proof {
                lemma_char_at_prefix_bytes(sv, j as int, 0);
            }
            (bytes_between(&s, 0, j), j)
        },
        None => (end0, ce),
    };
    assert(end as int == ctx_end(sv, end0 as int));
    if start > end {
        return None;
    }
    proof {
        lemma_char_at_byte_some(sv, start as int, 0);
        if a > b {
            lemma_utf8_prefix_strict(sv, b as int, a as int);
        }
    }
    assert(context_defined(sv, query@));
    let mut out: Vec<char> = if start > 0 {
        pat3('.', '.', '.')
    } else {
        Vec::new()
    };
    let mid = sub_vec(&s, a, b);
    append_chars(&mut out, mid.as_slice());
    if end < clen {
        let dots = pat3('.', '.', '.');
        append_chars(&mut out, dots.as_slice());
    }
    let ghost t = out@;
    assert(t == (if start > 0 {
        seq!['.', '.', '.']
    } else {
        Seq::<char>::empty()
    }) + sv.subrange(a as int, b as int) + (if end < clen {
        seq!['.', '.', '.']
    } else {
        Seq::<char>::empty()
    }));
    let mut i: usize = 0;
    while i < out.len()
        invariant
            i <= out@.len() == t.len(),
            forall|x: int| 0 <= x < i ==> out@[x] == nl_to_space(t)[x],
            forall|x: int| i <= x < out@.len() ==> out@[x] == t[x],
        decreases out@.len() - i,
    {
        if out[i] == '\n' {
            out.set(i, ' ');
        }
        i = i + 1;
    }
    assert(out@ =~= nl_to_space(t));
    let r = trim_vec(&out);
    Some(Some(r))
}

/// Whether `extract_match_context` can cut the context of a match out of
/// the content (the offsets it uses fall on character boundaries and are
/// in order).
pub fn match_context_defined(content: &str, query: &str) -> (r: bool)
    ensures
        r == context_defined(content@, query@),
{
    context_of(content, query).is_some()
}

/// The context around the first case-insensitive occurrence of `query` in
/// `content`: up to thirty bytes each side, widened to whitespace, with
/// `...` where it does not reach the content's start or end, line feeds as
/// spaces, trimmed; none when `query` does not occur.
pub fn extract_match_context(content: &str, query: &str) -> (r: Option<String>)
    requires
        context_defined(content@, query@),
    ensures
        match ctx_text(content@, query@) {
            Some(t) => r matches Some(x) && x@ == t,
            None => r is None,
        },
{
    match context_of(content, query) {
        Some(Some(v)) => Some(string_of(v.as_slice())),
        _ => None,
    }
}

} // verus!
