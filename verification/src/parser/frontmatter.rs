//! YAML frontmatter delimiting.

use vstd::prelude::*;
use crate::error::VaultError;
use crate::yaml::{yaml_emit, yaml_from_str, yaml_parse, yaml_to_string, yaml_tree, YamlV};
use crate::text::{
    concat, lit, pat2, pat3, pat4, pat5, pat6,
    chars_of, count_char, count_char_prefix, find_from, find_seq_from, has_prefix, has_suffix,
    lemma_count_char_push, lemma_find_from_found, matches_at, occurs_at, string_of_range, sub_vec,
};

verus! {

/// Frontmatter extraction result.
pub struct FrontmatterSplit {
    /// The raw YAML text between the delimiters, if the note has frontmatter.
    pub yaml: Option<String>,
    /// The content after the frontmatter.
    pub content: String,
    /// Line number where the content starts (1-indexed).
    pub content_start_line: usize,
}

pub open spec fn dashes() -> Seq<char> {
    seq!['-', '-', '-']
}

pub open spec fn close_lf() -> Seq<char> {
    seq!['\n', '-', '-', '-', '\n']
}

pub open spec fn close_crlf() -> Seq<char> {
    seq!['\n', '-', '-', '-', '\r', '\n']
}

pub open spec fn close_eof() -> Seq<char> {
    seq!['\n', '-', '-', '-']
}

/// Where the closing delimiter starts, relative to the start of the YAML
/// text `rem`: the first `\n---\n`; else the first `\n---\r\n`; else a final
/// `\n---`.
pub open spec fn closing_pos(rem: Seq<char>) -> Option<int> {
    match find_from(rem, close_lf(), 0) {
        Some(p) => Some(p),
        None => match find_from(rem, close_crlf(), 0) {
            Some(p) => Some(p),
            None => if has_suffix(rem, close_eof()) {
                Some(rem.len() - 4)
            } else {
                None
            },
        },
    }
}

/// Index where the YAML text starts: after `---\n` or `---\r\n` at the very
/// beginning of the note; 0 when the note does not open that way.
pub open spec fn yaml_start(s: Seq<char>) -> int {
    if !has_prefix(s, dashes()) {
        0
    } else if occurs_at(s, seq!['\n'], 3) {
        4
    } else if occurs_at(s, seq!['\r', '\n'], 3) {
        5
    } else {
        0
    }
}

/// The YAML text of a note as the range `(start, end)`, when the note has
/// frontmatter.
pub open spec fn fm_layout(s: Seq<char>) -> Option<(int, int)> {
    let ys = yaml_start(s);
    if ys == 0 {
        None
    } else {
        match closing_pos(s.subrange(ys, s.len() as int)) {
            Some(p) => Some((ys, ys + p)),
            None => None,
        }
    }
}

/// Index where the body (the content after the frontmatter) starts.
pub open spec fn body_start(s: Seq<char>) -> int {
    match fm_layout(s) {
        None => 0,
        Some((_, e)) => {
            let cs = e + 4;
            if cs < s.len() {
                if s[cs] == '\n' {
                    cs + 1
                } else if occurs_at(s, seq!['\r', '\n'], cs) {
                    cs + 2
                } else {
                    cs
                }
            } else {
                s.len() as int
            }
        },
    }
}

/// The raw YAML text of a note's frontmatter.
pub open spec fn spec_yaml(s: Seq<char>) -> Option<Seq<char>> {
    match fm_layout(s) {
        Some((a, e)) => Some(s.subrange(a, e)),
        None => None,
    }
}

/// The body of a note: its content after the frontmatter.
pub open spec fn spec_body(s: Seq<char>) -> Seq<char> {
    s.subrange(body_start(s), s.len() as int)
}

/// The 1-indexed line on which the body starts.
pub open spec fn spec_body_start_line(s: Seq<char>) -> int {
    match fm_layout(s) {
        Some((_, e)) => (count_char(s.subrange(0, e + 4), '\n') + 2) as int,
        None => 1,
    }
}

/// Facts on the layout: the range lies inside the note, the closing
/// delimiter follows it, and the body starts after it.
pub proof fn lemma_layout_bounds(s: Seq<char>)
    ensures
        0 <= body_start(s) <= s.len(),
        fm_layout(s) matches Some((a, e)) ==> {
            &&& (a == 4 || a == 5)
            &&& a <= e
            &&& e + 4 <= body_start(s)
            &&& occurs_at(s, close_eof(), e)
            &&& body_start(s) <= e + 6
        },
{
    let ys = yaml_start(s);
    if ys != 0 {
        let rem = s.subrange(ys, s.len() as int);
        match find_from(rem, close_lf(), 0) {
            Some(p) => {
                lemma_find_from_found(rem, close_lf(), 0);
                assert(close_lf().subrange(0, 4) =~= close_eof());
                assert(s.subrange(ys + p, ys + p + 4) =~= rem.subrange(p, p + 5).subrange(0, 4));
            },
            None => match find_from(rem, close_crlf(), 0) {
                Some(p) => {
                    lemma_find_from_found(rem, close_crlf(), 0);
                    assert(close_crlf().subrange(0, 4) =~= close_eof());
                    assert(s.subrange(ys + p, ys + p + 4) =~= rem.subrange(p, p + 6).subrange(
                        0,
                        4,
                    ));
                },
                None => {
                    if has_suffix(rem, close_eof()) {
                        let p = rem.len() - 4;
                        assert(s.subrange(ys + p, ys + p + 4) =~= rem.subrange(p, p + 4));
                    }
                },
            },
        }
    }
}

/// The note reassembles from its parts: the opening delimiter, the YAML
/// text, the closing delimiter and the body.
pub proof fn lemma_split_reassembles(s: Seq<char>)
    ensures
        fm_layout(s) matches Some((a, e)) ==> s == s.subrange(0, a) + spec_yaml(s)->0 + s.subrange(
            e,
            body_start(s),
        ) + spec_body(s),
        fm_layout(s) is None ==> spec_body(s) == s,
{
    lemma_layout_bounds(s);
    if let Some((a, e)) = fm_layout(s) {
        let b = body_start(s);
        assert(s =~= s.subrange(0, a) + s.subrange(a, e) + s.subrange(e, b) + s.subrange(
            b,
            s.len() as int,
        ));
    } else {
        assert(s.subrange(0, s.len() as int) =~= s);
    }
}

/// The YAML range of a note's frontmatter.
pub fn frontmatter_layout(s: &Vec<char>) -> (r: Option<(usize, usize)>)
    ensures
        r matches Some((a, e)) ==> fm_layout(s@) == Some((a as int, e as int)),
        r is None ==> fm_layout(s@) is None,
{
    let ys: usize = if !matches_at(s, 0, &pat3('-', '-', '-')) {
        0
    } else if s.len() > 3 && s[3] == '\n' {
        4
    } else if matches_at(s, 3, &pat2('\r', '\n')) {
        5
    } else {
        0
    };
    proof {
        if has_prefix(s@, dashes()) && s@.len() > 3 && s@[3] == '\n' {
            assert(s@.subrange(3, 4) =~= seq!['\n']);
        }
        if occurs_at(s@, seq!['\n'], 3) {
            assert(s@[3] == s@.subrange(3, 4)[0]);
        }
    }
    assert(ys == yaml_start(s@));
    if ys == 0 {
        return None;
    }
    let rem = sub_vec(s, ys, s.len());
    let pos: Option<usize> = match find_seq_from(&rem, &pat5('\n', '-', '-', '-', '\n'), 0) {
        Some(p) => Some(p),
        None => match find_seq_from(&rem, &pat6('\n', '-', '-', '-', '\r', '\n'), 0) {
            Some(p) => Some(p),
            None => if rem.len() >= 4 && matches_at(&rem, rem.len() - 4, &pat4('\n', '-', '-', '-')) {
                Some(rem.len() - 4)
            } else {
                None
            },
        },
    };
    match pos {
        Some(p) => {
            proof {
                lemma_layout_bounds(s@);
            }
            assert(closing_pos(rem@) == Some(p as int));
            Some((ys, ys + p))
        },
        None => None,
    }
}

/// Index where the body starts.
pub fn body_start_index(s: &Vec<char>) -> (r: usize)
    ensures
        r == body_start(s@),
        r <= s@.len(),
{
    proof {
        lemma_layout_bounds(s@);
    }
    let len = s.len();
    match frontmatter_layout(s) {
        None => 0,
        Some((_, e)) => {
            assert(occurs_at(s@, close_eof(), e as int));
            let cs = e + 4;
            if cs < s.len() {
                if s[cs] == '\n' {
                    cs + 1
                } else if matches_at(s, cs, &pat2('\r', '\n')) {
                    cs + 2
                } else {
                    cs
                }
            } else {
                s.len()
            }
        },
    }
}

/// The 1-indexed line on which the body starts.
pub fn body_start_line_of(s: &Vec<char>) -> (r: usize)
    ensures
        r == spec_body_start_line(s@),
{
    proof {
        lemma_layout_bounds(s@);
    }
    let len = s.len();
    match frontmatter_layout(s) {
        None => 1,
        Some((_, e)) => {
            assert(occurs_at(s@, close_eof(), e as int));
            let n = count_char_prefix(s, '\n', e + 1);
            proof {
                let t = s@.subrange(0, e + 1);
                assert(s@.subrange(e as int, e + 4) == close_eof());
                assert(s@[e + 1] == '-' && s@[e + 2] == '-' && s@[e + 3] == '-') by {
                    assert(s@[e + 1] == s@.subrange(e as int, e + 4)[1]);
                    assert(s@[e + 2] == s@.subrange(e as int, e + 4)[2]);
                    assert(s@[e + 3] == s@.subrange(e as int, e + 4)[3]);
                }
                lemma_count_char_push(t, '-', '\n');
                lemma_count_char_push(t.push('-'), '-', '\n');
                lemma_count_char_push(t.push('-').push('-'), '-', '\n');
                assert(t.push('-').push('-').push('-') =~= s@.subrange(0, e + 4));
            }
            n + 2
        },
    }
}

/// Split content into frontmatter and body.
pub fn split_frontmatter(content: &str) -> (r: FrontmatterSplit)
    ensures
        r.yaml matches Some(y) ==> spec_yaml(content@) == Some(y@),
        r.yaml is None ==> spec_yaml(content@) is None,
        r.content@ == spec_body(content@),
        r.content_start_line == spec_body_start_line(content@),
{
    let s = chars_of(content);
    let yaml = match frontmatter_layout(&s) {
        Some((a, e)) => {
            proof {
                lemma_layout_bounds(s@);
            }
            Some(string_of_range(&s, a, e))
        },
        None => None,
    };
    let b = body_start_index(&s);
    FrontmatterSplit {
        yaml,
        content: string_of_range(&s, b, s.len()),
        content_start_line: body_start_line_of(&s),
    }
}

/// Extract frontmatter as a raw YAML string.
pub fn extract_frontmatter(content: &str) -> (r: Option<String>)
    ensures
        r matches Some(y) ==> spec_yaml(content@) == Some(y@),
        r is None ==> spec_yaml(content@) is None,
{
    split_frontmatter(content).yaml
}

/// Remove frontmatter from content.
pub fn remove_all_frontmatter(content: &str) -> (r: String)
    ensures
        r@ == spec_body(content@),
{
    split_frontmatter(content).content
}

/// The frontmatter of a note, parsed: `None` without frontmatter, the YAML
/// parse error's message when it does not parse.
pub open spec fn spec_frontmatter_value(s: Seq<char>) -> Result<Option<YamlV>, Seq<char>> {
    match spec_yaml(s) {
        Some(y) => match yaml_parse(y) {
            Ok(v) => Ok(Some(v)),
            Err(m) => Err(m),
        },
        None => Ok(None),
    }
}

/// A parse result agrees with its specification, errors naming `path`.
pub open spec fn frontmatter_agrees(
    r: Result<Option<serde_yaml::Value>, VaultError>,
    s: Result<Option<YamlV>, Seq<char>>,
    path: Seq<char>,
) -> bool {
    match s {
        Ok(Some(v)) => r matches Ok(Some(x)) && yaml_tree(x) == v,
        Ok(None) => r matches Ok(None),
        Err(m) => r matches Err(VaultError::InvalidFrontmatter { path: p, message }) && p@ == path
            && message@ == m,
    }
}

/// Parse the frontmatter of a note with a path for error messages.
pub fn parse_frontmatter_with_path(content: &str, path: &str) -> (r: Result<Option<serde_yaml::Value>, VaultError>)
    ensures
        frontmatter_agrees(r, spec_frontmatter_value(content@), path@),
{
    match extract_frontmatter(content) {
        Some(yaml) => match yaml_from_str(yaml.as_str()) {
            Ok(v) => Ok(Some(v)),
            Err(message) => Err(VaultError::InvalidFrontmatter { path: lit(path), message }),
        },
        None => Ok(None),
    }
}

/// Parse the frontmatter of a note (errors name the path `<unknown>`).
pub fn parse_frontmatter(content: &str) -> (r: Result<Option<serde_yaml::Value>, VaultError>)
    ensures
        frontmatter_agrees(r, spec_frontmatter_value(content@), "<unknown>"@),
{
    parse_frontmatter_with_path(content, "<unknown>")
}

/// The frontmatter block for a value: `---`, its YAML, `---`.
pub open spec fn spec_frontmatter_block(v: YamlV) -> Result<Seq<char>, Seq<char>> {
    match yaml_emit(v) {
        Ok(y) => Ok("---\n"@ + y + "---\n"@),
        Err(m) => Err(m),
    }
}

/// Serialize a value as a frontmatter block, delimiters included.
pub fn serialize_frontmatter(value: &serde_yaml::Value) -> (r: Result<String, VaultError>)
    ensures
        match spec_frontmatter_block(yaml_tree(*value)) {
            Ok(b) => r matches Ok(x) && x@ == b,
            Err(m) => r matches Err(VaultError::YamlParse(e)) && e@ == m,
        },
{
    match yaml_to_string(value) {
        Ok(y) => {
            let out = concat(lit("---\n"), y.as_str());
            Ok(concat(out, "---\n"))
        },
        Err(m) => Err(VaultError::YamlParse(m)),
    }
}

/// The content with its frontmatter replaced by (or, without one, preceded
/// by) the block for `v`.
pub open spec fn spec_update_frontmatter(content: Seq<char>, v: YamlV) -> Result<Seq<char>, Seq<char>> {
    match spec_frontmatter_block(v) {
        Ok(b) => Ok(b + spec_body(content)),
        Err(m) => Err(m),
    }
}

/// Replace the frontmatter of a note's content.
pub fn update_frontmatter(content: &str, new_frontmatter: &serde_yaml::Value) -> (r: Result<String, VaultError>)
    ensures
        match spec_update_frontmatter(content@, yaml_tree(*new_frontmatter)) {
            Ok(c) => r matches Ok(x) && x@ == c,
            Err(m) => r matches Err(VaultError::YamlParse(e)) && e@ == m,
        },
{
    let block = match serialize_frontmatter(new_frontmatter) {
        Ok(b) => b,
        Err(e) => {
            return Err(e);
        },
    };
    let body = remove_all_frontmatter(content);
    Ok(concat(block, body.as_str()))
}

} // verus!
