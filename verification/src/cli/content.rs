//! Replacing parts of a note's content: a section under a heading, a range
//! of lines; and reading a section.
//!
//! The content is taken line by line (`str::lines`); the result is the
//! lines joined with line feeds, with a final line feed only when the
//! content had one.

use vstd::prelude::*;
use crate::error::VaultError;
use crate::parser::code_block::{code_ranges, range_view, ranges_view, CodeBlockRange};
use crate::text::{append_chars, char_at_byte, char_index_at_byte, lemma_char_at_byte_some, lemma_utf8_prefix_strict, utf8_len};
use crate::parser::heading::{heading_view, headings_view, spec_headings};
use crate::text::{
    chars_of, concat, has_prefix, has_suffix, is_ascii_digit, join_lines, lines, lines_with_newlines, lit,
    str_lowercase, string_of, trim, trim_end,
};
use crate::types::Heading;

verus! {

// ---------------------------------------------------------------------------
// Headings of a note
// ---------------------------------------------------------------------------

/// The headings of a note lie on its lines.
proof fn lemma_heading_lines(s: Seq<char>, k: int, acc: Seq<(Seq<char>, int, int, Seq<char>)>)
    requires
        0 <= k,
        forall|i: int| 0 <= i < acc.len() ==> 1 <= (#[trigger] acc[i]).2 <= lines(s).len(),
    ensures
        forall|i: int|
            0 <= i < crate::parser::heading::headings_from(s, k, acc).len() ==> 1 <= (
            #[trigger] crate::parser::heading::headings_from(s, k, acc)[i]).2 <= lines(s).len(),
    decreases lines(s).len() - k,
{
    let ls = lines(s);
    if k < ls.len() {
        if crate::parser::code_block::line_in_fence(s, k + 1) {
            assert(crate::parser::heading::headings_from(s, k, acc) == crate::parser::heading::headings_from(s, k + 1, acc));
            lemma_heading_lines(s, k + 1, acc);
        } else {
            match crate::parser::heading::heading_of_line(ls[k]) {
                Some((level, text)) => {
                    let base = crate::parser::heading::spec_slug(text);
                    let h = (text, level, k + 1, crate::parser::heading::unique_slug(base, crate::parser::heading::slug_uses(acc, base) + 1));
                    assert(crate::parser::heading::headings_from(s, k, acc) == crate::parser::heading::headings_from(s, k + 1, acc.push(h)));
                    assert forall|i: int| 0 <= i < acc.push(h).len() implies 1 <= (#[trigger] acc.push(h)[i]).2 <= lines(s).len() by {
                        if i < acc.len() {
                            assert(acc.push(h)[i] == acc[i]);
                        }
                    }
                    lemma_heading_lines(s, k + 1, acc.push(h));
                },
                None => {
                    assert(crate::parser::heading::headings_from(s, k, acc) == crate::parser::heading::headings_from(s, k + 1, acc));
                    lemma_heading_lines(s, k + 1, acc);
                },
            }
        }
    }
}

/// The first heading, from `i` on, whose lowercase text is `want`.
pub open spec fn heading_with_text(hs: Seq<(Seq<char>, int, int, Seq<char>)>, want: Seq<char>, i: int) -> Option<int>
    decreases hs.len() - i,
{
    if i < 0 || i >= hs.len() {
        None
    } else if str_lowercase(hs[i].0) == want {
        Some(i)
    } else {
        heading_with_text(hs, want, i + 1)
    }
}

/// The first heading, from `i` on, below line `line` (and, when
/// `same_or_higher`, of level at most `level`): the 0-indexed line before it.
pub open spec fn next_heading_line(
    hs: Seq<(Seq<char>, int, int, Seq<char>)>,
    line: int,
    level: int,
    same_or_higher: bool,
    i: int,
) -> Option<int>
    decreases hs.len() - i,
{
    if i < 0 || i >= hs.len() {
        None
    } else if hs[i].2 > line && (!same_or_higher || hs[i].1 <= level) {
        Some(hs[i].2 - 1)
    } else {
        next_heading_line(hs, line, level, same_or_higher, i + 1)
    }
}

/// A heading query without leading `#`s and surrounding whitespace.
pub open spec fn heading_query_text(q: Seq<char>) -> Seq<char> {
    trim(crate::search::matcher::strip_hashes(q))
}

fn strip_hashes_str(s: &str) -> (r: Vec<char>)
    ensures
        r@ == crate::search::matcher::strip_hashes(s@),
{
    let v = chars_of(s);
    let mut i: usize = 0;
    proof {
        assert(v@.subrange(0, v@.len() as int) =~= v@);
    }
    while i < v.len() && v[i] == '#'
        invariant
            i <= v@.len(),
            crate::search::matcher::strip_hashes(v@) == crate::search::matcher::strip_hashes(
                v@.subrange(i as int, v@.len() as int),
            ),
        decreases v@.len() - i,
    {
        proof {
            assert(v@.subrange(i as int, v@.len() as int).drop_first() =~= v@.subrange(i + 1, v@.len() as int));
        }
        i = i + 1;
    }
    crate::text::sub_vec(&v, i, v.len())
}

fn find_text_heading(hs: &Vec<Heading>, want: &Vec<char>) -> (r: Option<usize>)
    ensures
        match r {
            Some(k) => heading_with_text(headings_view(hs@), want@, 0) == Some(k as int) && k < hs@.len(),
            None => heading_with_text(headings_view(hs@), want@, 0) is None,
        },
{
    let ghost hv = headings_view(hs@);
    let mut k: usize = 0;
    while k < hs.len()
        invariant
            k <= hs@.len(),
            hv == headings_view(hs@),
            heading_with_text(hv, want@, 0) == heading_with_text(hv, want@, k as int),
        decreases hs@.len() - k,
    {
        proof {
            assert(hv[k as int] == heading_view(hs@[k as int]));
        }
        let l = chars_of(crate::text::to_lowercase(hs[k].text.as_str()).as_str());
        if crate::text::same_chars(l.as_slice(), want.as_slice()) {
            return Some(k);
        }
        k = k + 1;
    }
    None
}

fn find_next_heading(hs: &Vec<Heading>, line: usize, level: u8, same_or_higher: bool) -> (r: Option<usize>)
    requires
        forall|i: int| 0 <= i < hs@.len() ==> 1 <= (#[trigger] hs@[i]).line,
    ensures
        match r {
            Some(x) => next_heading_line(headings_view(hs@), line as int, level as int, same_or_higher, 0) == Some(
                x as int,
            ),
            None => next_heading_line(headings_view(hs@), line as int, level as int, same_or_higher, 0) is None,
        },
{
    let ghost hv = headings_view(hs@);
    let mut k: usize = 0;
    while k < hs.len()
        invariant
            k <= hs@.len(),
            hv == headings_view(hs@),
            forall|i: int| 0 <= i < hs@.len() ==> 1 <= (#[trigger] hs@[i]).line,
            next_heading_line(hv, line as int, level as int, same_or_higher, 0) == next_heading_line(
                hv,
                line as int,
                level as int,
                same_or_higher,
                k as int,
            ),
        decreases hs@.len() - k,
    {
        proof {
            assert(hv[k as int] == heading_view(hs@[k as int]));
            assert(1 <= hs@[k as int].line);
        }
        if hs[k].line > line && (!same_or_higher || hs[k].level <= level) {
            return Some(hs[k].line - 1);
        }
        k = k + 1;
    }
    None
}

// ---------------------------------------------------------------------------
// Joining lines
// ---------------------------------------------------------------------------

/// The text of some lines, each followed by a line feed, then `mid`, then
/// more lines each followed by a line feed; the last line feed dropped when
/// the content did not end with one.
pub open spec fn assemble(c: Seq<char>, before: Seq<Seq<char>>, mid: Seq<char>, after: Seq<Seq<char>>) -> Seq<char> {
    let r = lines_with_newlines(before) + mid + lines_with_newlines(after);
    if !has_suffix(c, seq!['\n']) && has_suffix(r, seq!['\n']) {
        r.drop_last()
    } else {
        r
    }
}

fn lines_text(ls: &Vec<Vec<char>>, lo: usize, hi: usize) -> (r: Vec<char>)
    requires
        lo <= hi <= ls@.len(),
    ensures
        r@ == lines_with_newlines(ls.deep_view().subrange(lo as int, hi as int)),
{
    let mut r: Vec<char> = Vec::new();
    let mut i: usize = lo;
    proof {
        assert(ls.deep_view().subrange(lo as int, lo as int) =~= Seq::<Seq<char>>::empty());
    }
    while i < hi
        invariant
            lo <= i <= hi <= ls@.len(),
            r@ == lines_with_newlines(ls.deep_view().subrange(lo as int, i as int)),
        decreases hi - i,
    {
        proof {
            assert(ls.deep_view().subrange(lo as int, i + 1).drop_last() =~= ls.deep_view().subrange(lo as int, i as int));
            assert(ls.deep_view()[i as int] == ls@[i as int]@);
        }
        crate::text::append_chars(&mut r, ls[i].as_slice());
        r.push('\n');
        i = i + 1;
    }
    r
}

proof fn lemma_last_char(s: Seq<char>, c: char)
    ensures
        has_suffix(s, seq![c]) == (s.len() > 0 && s.last() == c),
{
    if s.len() > 0 {
        let t = s.subrange(s.len() - 1, s.len() as int);
        assert(t[0] == s.last());
        if s.last() == c {
            assert(t =~= seq![c]);
        }
    }
}

proof fn lemma_first_char(s: Seq<char>, c: char)
    ensures
        has_prefix(s, seq![c]) == (s.len() > 0 && s[0] == c),
{
    if s.len() > 0 {
        let t = s.subrange(0, 1);
        assert(t[0] == s[0]);
        if s[0] == c {
            assert(t =~= seq![c]);
        }
    }
}

fn finish(content: &Vec<char>, r: Vec<char>) -> (out: String)
    ensures
        out@ == if !has_suffix(content@, seq!['\n']) && has_suffix(r@, seq!['\n']) {
            r@.drop_last()
        } else {
            r@
        },
{
    let ends_nl = content.len() > 0 && content[content.len() - 1] == '\n';
    let r_nl = r.len() > 0 && r[r.len() - 1] == '\n';
    proof {
        if content@.len() > 0 {
            assert(content@.subrange(content@.len() - 1, content@.len() as int) =~= seq![content@.last()]);
            assert(ends_nl == (content@.last() == '\n'));
        }
        lemma_last_char(content@, '\n');
        if r@.len() > 0 {
            assert(r@.subrange(r@.len() - 1, r@.len() as int) =~= seq![r@.last()]);
            assert(r_nl == (r@.last() == '\n'));
        }
        lemma_last_char(r@, '\n');
    }
    if !ends_nl && r_nl {
        let mut r = r;
        r.pop();
        string_of(r.as_slice())
    } else {
        string_of(r.as_slice())
    }
}

// ---------------------------------------------------------------------------
// Sections
// ---------------------------------------------------------------------------

/// The content with the section under a heading replaced: the lines before
/// the heading, the heading line unless the replacement (trimmed) starts
/// with `#`, the replacement and a line feed, then the lines from the next
/// heading of the same or a higher level on. An error when no heading has
/// the text of the query (ignoring leading `#`s, surrounding whitespace
/// and case).
pub open spec fn spec_replace_section(c: Seq<char>, heading: Seq<char>, replacement: Seq<char>) -> Result<Seq<char>, Seq<char>> {
    let hs = spec_headings(c);
    let ls = lines(c);
    match heading_with_text(hs, str_lowercase(heading_query_text(heading)), 0) {
        None => Err(heading),
        Some(t) => {
            let start = hs[t].2 - 1;
            let end = match next_heading_line(hs, hs[t].2, hs[t].1, true, 0) {
                Some(e) => e,
                None => ls.len() as int,
            };
            let rep = trim(replacement);
            let mid = (if has_prefix(rep, seq!['#']) {
                Seq::empty()
            } else {
                ls[start] + seq!['\n']
            }) + rep + seq!['\n'];
            Ok(assemble(c, ls.subrange(0, start), mid, ls.subrange(end, ls.len() as int)))
        },
    }
}

/// Replace the section under a heading.
pub fn replace_section(content: &str, heading: &str, replacement: &str) -> (r: Result<String, VaultError>)
    ensures
        match spec_replace_section(content@, heading@, replacement@) {
            Ok(c) => r matches Ok(x) && x@ == c,
            Err(h) => r matches Err(VaultError::SectionNotFound(x)) && x@ == h,
        },
{
    let hs = crate::parser::heading::parse_headings(content);
    let ghost hv = spec_headings(content@);
    proof {
        lemma_heading_lines(content@, 0, Seq::empty());
        assert forall|i: int| 0 <= i < hs@.len() implies 1 <= (#[trigger] hs@[i]).line <= lines(content@).len() by {
            assert(hv[i] == heading_view(hs@[i]));
        }
    }
    let q = strip_hashes_str(heading);
    let qt = crate::text::trim_vec(&q);
    let want = chars_of(crate::text::to_lowercase(string_of(qt.as_slice()).as_str()).as_str());
    let t = match find_text_heading(&hs, &want) {
        Some(t) => t,
        None => {
            return Err(VaultError::SectionNotFound(lit(heading)));
        },
    };
    proof {
        assert(hv[t as int] == heading_view(hs@[t as int]));
    }
    let s = chars_of(content);
    let ls = crate::text::split_lines(&s);
    let start = hs[t].line - 1;
    let end = match find_next_heading(&hs, hs[t].line, hs[t].level, true) {
        Some(e) => e,
        None => ls.len(),
    };
    proof {
        match next_heading_line(hv, hv[t as int].2, hv[t as int].1, true, 0) {
            Some(e) => {
                lemma_next_heading_bounds(hv, hv[t as int].2, hv[t as int].1, true, 0, lines(content@).len() as int);
            },
            None => {},
        }
    }
    let mut r = lines_text(&ls, 0, start);
    let rep_chars = crate::text::trim_vec(&chars_of(replacement));
    let ghost part1 = r@;
    let ghost rep = trim(replacement@);
    let starts_hash = rep_chars.len() > 0 && rep_chars[0] == '#';
    proof {
        if rep_chars@.len() > 0 {
            assert(rep_chars@.subrange(0, 1) =~= seq![rep_chars@[0]]);
        }
        lemma_first_char(rep, '#');
    }
    if !starts_hash {
        crate::text::append_chars(&mut r, ls[start].as_slice());
        r.push('\n');
        proof {
            assert(ls.deep_view()[start as int] == ls@[start as int]@);
        }
    }
    let ghost head = if has_prefix(rep, seq!['#']) {
        Seq::<char>::empty()
    } else {
        lines(content@)[start as int] + seq!['\n']
    };
    proof {
        assert(r@ =~= part1 + head);
    }
    crate::text::append_chars(&mut r, rep_chars.as_slice());
    r.push('\n');
    let ghost part2 = r@;
    proof {
        assert(part2 =~= part1 + (head + rep + seq!['\n']));
    }
    let tail = lines_text(&ls, end, ls.len());
    crate::text::append_chars(&mut r, tail.as_slice());
    proof {
        assert(r@ =~= part1 + (head + rep + seq!['\n']) + tail@);
    }
    Ok(finish(&s, r))
}

proof fn lemma_next_heading_bounds(
    hs: Seq<(Seq<char>, int, int, Seq<char>)>,
    line: int,
    level: int,
    same_or_higher: bool,
    i: int,
    n: int,
)
    requires
        0 <= i,
        forall|k: int| 0 <= k < hs.len() ==> 1 <= (#[trigger] hs[k]).2 <= n,
    ensures
        next_heading_line(hs, line, level, same_or_higher, i) matches Some(e) ==> line <= e < n,
    decreases hs.len() - i,
{
    if i < hs.len() && !(hs[i].2 > line && (!same_or_higher || hs[i].1 <= level)) {
        lemma_next_heading_bounds(hs, line, level, same_or_higher, i + 1, n);
    }
}

// ---------------------------------------------------------------------------
// Line ranges
// ---------------------------------------------------------------------------

/// The value of a run of ASCII digits.
pub open spec fn digits_value(s: Seq<char>) -> int
    decreases s.len(),
{
    if s.len() == 0 {
        0
    } else {
        digits_value(s.drop_last()) * 10 + (s.last() as int - '0' as int)
    }
}

/// Every character is an ASCII digit.
pub open spec fn all_digits(d: Seq<char>) -> bool {
    forall|i: int| 0 <= i < d.len() ==> is_ascii_digit(#[trigger] d[i])
}

/// `str::parse::<usize>`: an optional `+`, then one or more ASCII digits,
/// whose value fits in `usize`.
pub open spec fn parse_usize_spec(s: Seq<char>) -> Option<int> {
    let d = if s.len() > 0 && s[0] == '+' {
        s.drop_first()
    } else {
        s
    };
    if d.len() > 0 && all_digits(d) && digits_value(d) <= usize::MAX {
        Some(digits_value(d))
    } else {
        None
    }
}

/// Parse a `usize` as `str::parse` does.
pub fn parse_usize(s: &Vec<char>) -> (r: Option<usize>)
    ensures
        match parse_usize_spec(s@) {
            Some(v) => r matches Some(x) && x as int == v,
            None => r is None,
        },
{
    let start: usize = if s.len() > 0 && s[0] == '+' {
        1
    } else {
        0
    };
    let ghost d = if s@.len() > 0 && s@[0] == '+' {
        s@.drop_first()
    } else {
        s@
    };
    proof {
        assert(d =~= s@.subrange(start as int, s@.len() as int));
    }
    if start >= s.len() {
        return None;
    }
    let mut v: usize = 0;
    let mut i: usize = start;
    while i < s.len()
        invariant
            start <= i <= s@.len(),
            d == s@.subrange(start as int, s@.len() as int),
            d == (if s@.len() > 0 && s@[0] == '+' {
                s@.drop_first()
            } else {
                s@
            }),
            forall|k: int| start <= k < i ==> is_ascii_digit(#[trigger] s@[k]),
            v as int == digits_value(s@.subrange(start as int, i as int)),
        decreases s@.len() - i,
    {
        let c = s[i];
        proof {
            assert(s@.subrange(start as int, i + 1).drop_last() =~= s@.subrange(start as int, i as int));
        }
        if !('0' <= c && c <= '9') {
            proof {
                assert(d[i - start] == c);
                assert(!is_ascii_digit(d[i - start]));
                assert(!all_digits(d));
                assert(parse_usize_spec(s@) is None);
            }
            return None;
        }
        let dv = (c as u32 - '0' as u32) as usize;
        proof {
            assert(dv as int == c as int - '0' as int);
        }
        match v.checked_mul(10) {
            Some(v10) => match v10.checked_add(dv) {
                Some(nv) => {
                    v = nv;
                },
                None => {
                    proof {
                        assert(d.subrange(0, i + 1 - start) =~= s@.subrange(start as int, i + 1));
                        assert(digits_value(s@.subrange(start as int, i + 1)) == v * 10 + dv);
                        lemma_overflow_none(d, i + 1 - start);
                        assert(parse_usize_spec(s@) is None);
                    }
                    return None;
                },
            },
            None => {
                proof {
                    assert(d.subrange(0, i + 1 - start) =~= s@.subrange(start as int, i + 1));
                    assert(digits_value(s@.subrange(start as int, i + 1)) == v * 10 + dv);
                    lemma_overflow_none(d, i + 1 - start);
                }
                return None;
            },
        }
        i = i + 1;
    }
    proof {
        assert(s@.subrange(start as int, i as int) =~= d);
    }
    Some(v)
}

/// A text whose prefix of digits is already past `usize` does not parse.
proof fn lemma_overflow_none(d: Seq<char>, k: int)
    requires
        0 <= k <= d.len(),
        digits_value(d.subrange(0, k)) > usize::MAX,
    ensures
        !(d.len() > 0 && all_digits(d) && digits_value(d) <= usize::MAX),
{
    if all_digits(d) {
        lemma_digits_grow(d, k);
    }
}

/// A run of digits is worth at least any of its prefixes.
pub(crate) proof fn lemma_digits_grow(d: Seq<char>, k: int)
    requires
        0 <= k <= d.len(),
        forall|i: int| 0 <= i < d.len() ==> is_ascii_digit(#[trigger] d[i]),
    ensures
        digits_value(d) >= digits_value(d.subrange(0, k)),
    decreases d.len(),
{
    if k < d.len() {
        lemma_digits_grow(d.drop_last(), k);
        assert(d.drop_last().subrange(0, k) =~= d.subrange(0, k));
        lemma_digits_nonneg(d.drop_last());
    } else {
        assert(d.subrange(0, k) =~= d);
    }
}

pub(crate) proof fn lemma_digits_nonneg(d: Seq<char>)
    requires
        forall|i: int| 0 <= i < d.len() ==> is_ascii_digit(#[trigger] d[i]),
    ensures
        digits_value(d) >= 0,
    decreases d.len(),
{
    if d.len() > 0 {
        lemma_digits_nonneg(d.drop_last());
    }
}

/// The first `-` of a text.
pub open spec fn first_dash(s: Seq<char>, i: int) -> Option<int>
    decreases s.len() - i,
{
    if i < 0 || i >= s.len() {
        None
    } else if s[i] == '-' {
        Some(i)
    } else {
        first_dash(s, i + 1)
    }
}

/// A line range (`N`, `N-M`, `N-`, `-M`, 1-indexed and inclusive) as
/// 0-indexed bounds: start and end (exclusive), within `total` lines;
/// `None` when it does not parse or is empty.
pub open spec fn spec_line_range(range: Seq<char>, total: int) -> Option<(int, int)> {
    let r = trim(range);
    match first_dash(r, 0) {
        Some(p) => {
            let a = r.subrange(0, p);
            let b = r.subrange(p + 1, r.len() as int);
            let start = if a.len() == 0 {
                Some(0int)
            } else {
                match parse_usize_spec(a) {
                    Some(v) => Some(if v >= 1 { v - 1 } else { 0 }),
                    None => None,
                }
            };
            let end = if b.len() == 0 {
                Some(total)
            } else {
                match parse_usize_spec(b) {
                    Some(v) => Some(if v < total { v } else { total }),
                    None => None,
                }
            };
            match (start, end) {
                (Some(s), Some(e)) => if s > e {
                    None
                } else {
                    Some((s, e))
                },
                _ => None,
            }
        },
        None => match parse_usize_spec(r) {
            Some(v) => {
                let l = if v >= 1 {
                    v - 1
                } else {
                    0
                };
                if l >= total {
                    None
                } else {
                    Some((l, l + 1))
                }
            },
            None => None,
        },
    }
}

fn first_dash_exec(s: &Vec<char>) -> (r: Option<usize>)
    ensures
        match r {
            Some(p) => first_dash(s@, 0) == Some(p as int) && p < s@.len(),
            None => first_dash(s@, 0) is None,
        },
{
    let mut i: usize = 0;
    while i < s.len()
        invariant
            i <= s@.len(),
            first_dash(s@, 0) == first_dash(s@, i as int),
        decreases s@.len() - i,
    {
        if s[i] == '-' {
            return Some(i);
        }
        i = i + 1;
    }
    None
}

/// Parse a line range against `total` lines.
pub fn parse_line_range(range_str: &str, total_lines: usize) -> (r: Result<(usize, usize), VaultError>)
    ensures
        match spec_line_range(range_str@, total_lines as int) {
            Some((s, e)) => r matches Ok(x) && x.0 as int == s && x.1 as int == e,
            None => r matches Err(VaultError::InvalidLineRange(m)) && m@ == trim(range_str@),
        },
{
    let r = crate::text::trim_vec(&chars_of(range_str));
    let err = VaultError::InvalidLineRange(string_of(r.as_slice()));
    match first_dash_exec(&r) {
        Some(p) => {
            assert(p < r.len());
            let a = crate::text::sub_vec(&r, 0, p);
            let b = crate::text::sub_vec(&r, p + 1, r.len());
            let start = if a.len() == 0 {
                0
            } else {
                match parse_usize(&a) {
                    Some(v) => v.saturating_sub(1),
                    None => {
                        return Err(err);
                    },
                }
            };
            let end = if b.len() == 0 {
                total_lines
            } else {
                match parse_usize(&b) {
                    Some(v) => if v < total_lines {
                        v
                    } else {
                        total_lines
                    },
                    None => {
                        return Err(err);
                    },
                }
            };
            if start > end {
                return Err(err);
            }
            Ok((start, end))
        },
        None => match parse_usize(&r) {
            Some(v) => {
                let l = v.saturating_sub(1);
                if l >= total_lines {
                    return Err(err);
                }
                Ok((l, l + 1))
            },
            None => Err(err),
        },
    }
}

/// The content with a range of lines replaced by the replacement (its
/// trailing whitespace removed) and a line feed.
pub open spec fn spec_replace_lines(c: Seq<char>, range: Seq<char>, replacement: Seq<char>) -> Option<Seq<char>> {
    let ls = lines(c);
    match spec_line_range(range, ls.len() as int) {
        Some((s, e)) => Some(
            assemble(c, ls.subrange(0, s), trim_end(replacement) + seq!['\n'], ls.subrange(e, ls.len() as int)),
        ),
        None => None,
    }
}

/// Replace a range of lines.
pub fn replace_lines(content: &str, range_str: &str, replacement: &str) -> (r: Result<String, VaultError>)
    ensures
        match spec_replace_lines(content@, range_str@, replacement@) {
            Some(c) => r matches Ok(x) && x@ == c,
            None => r matches Err(VaultError::InvalidLineRange(m)) && m@ == trim(range_str@),
        },
{
    let s = chars_of(content);
    let ls = crate::text::split_lines(&s);
    let (start, end) = match parse_line_range(range_str, ls.len()) {
        Ok(x) => x,
        Err(e) => {
            return Err(e);
        },
    };
    let mut r = lines_text(&ls, 0, start);
    let rep = crate::text::trim_end_vec(&chars_of(replacement));
    crate::text::append_chars(&mut r, rep.as_slice());
    r.push('\n');
    let tail = lines_text(&ls, end, ls.len());
    crate::text::append_chars(&mut r, tail.as_slice());
    proof {
        assert(r@ =~= lines_with_newlines(lines(content@).subrange(0, start as int)) + (trim_end(replacement@) + seq![
            '\n',
        ]) + lines_with_newlines(lines(content@).subrange(end as int, lines(content@).len() as int)));
    }
    Ok(finish(&s, r))
}

// ---------------------------------------------------------------------------
// Reading a section
// ---------------------------------------------------------------------------

/// The text of a section: from the heading (or the line after it when only
/// the content is wanted) to the next heading (of the same or a higher
/// level when subheadings are included), lines joined with line feeds and
/// trailing whitespace removed; empty when it starts past the end.
pub open spec fn spec_section_text(
    c: Seq<char>,
    t: (Seq<char>, int, int, Seq<char>),
    include_subheadings: bool,
    content_only: bool,
) -> Seq<char> {
    let hs = spec_headings(c);
    let ls = lines(c);
    let start = if content_only {
        t.2
    } else {
        t.2 - 1
    };
    let end_line = match next_heading_line(hs, t.2, t.1, include_subheadings, 0) {
        Some(e) => e,
        None => ls.len() as int,
    };
    if start < ls.len() {
        let end = if end_line < ls.len() {
            end_line
        } else {
            ls.len() as int
        };
        trim_end(join_lines(ls.subrange(start, end)))
    } else {
        Seq::empty()
    }
}

/// The text of the section under the heading `h` of a note, as the section
/// command gives it. `h` is one of the note's headings.
pub fn section_text(content: &str, h: &Heading, include_subheadings: bool, content_only: bool) -> (r: String)
    requires
        spec_headings(content@).contains(heading_view(*h)),
    ensures
        r@ == spec_section_text(content@, heading_view(*h), include_subheadings, content_only),
{
    let hs = crate::parser::heading::parse_headings(content);
    let ghost hv = spec_headings(content@);
    proof {
        lemma_heading_lines(content@, 0, Seq::empty());
        assert forall|i: int| 0 <= i < hs@.len() implies 1 <= (#[trigger] hs@[i]).line <= lines(content@).len() by {
            assert(hv[i] == heading_view(hs@[i]));
        }
        let k = choose|k: int| 0 <= k < hv.len() && hv[k] == heading_view(*h);
        assert(hv[k] == heading_view(*h));
        match next_heading_line(hv, h.line as int, h.level as int, include_subheadings, 0) {
            Some(e) => {
                lemma_next_heading_bounds(hv, h.line as int, h.level as int, include_subheadings, 0, lines(content@).len() as int);
            },
            None => {},
        }
    }
    let s = chars_of(content);
    let ls = crate::text::split_lines(&s);
    let start = if content_only {
        h.line
    } else {
        h.line - 1
    };
    let end_line = match find_next_heading(&hs, h.line, h.level, include_subheadings) {
        Some(e) => e,
        None => ls.len(),
    };
    if start < ls.len() {
        let end = if end_line < ls.len() {
            end_line
        } else {
            ls.len()
        };
        let mut part: Vec<Vec<char>> = Vec::new();
        let mut i: usize = start;
        while i < end
            invariant
                start <= i <= end <= ls@.len(),
                part@.len() == i - start,
                part.deep_view() == ls.deep_view().subrange(start as int, i as int),
            decreases end - i,
        {
            let n = ls[i].len();
            let line = crate::text::sub_vec(&ls[i], 0, n);
            let ghost before = part.deep_view();
            let ghost old_part = part@;
            proof {
                assert(line.deep_view() =~= line@);
            }
            let ghost lv = line@;
            part.push(line);
            proof {
                assert(lv =~= ls@[i as int]@);
                assert(part@ == old_part.push(part@[i - start]));
                assert(part.deep_view() =~= before.push(lv));
                assert(ls.deep_view().subrange(start as int, i + 1) =~= ls.deep_view().subrange(start as int, i as int).push(
                    ls.deep_view()[i as int],
                ));
            }
            i = i + 1;
        }
        let joined = crate::text::join_with_newlines(&part);
        string_of(crate::text::trim_end_vec(&joined).as_slice())
    } else {
        String::new()
    }
}

/// A heading matches the section query: by slug, or by text (ignoring case)
/// against the query without leading `#`s and surrounding whitespace.
pub open spec fn section_query_hit(h: (Seq<char>, int, int, Seq<char>), q: Seq<char>, by_slug: bool) -> bool {
    if by_slug {
        h.3 == q
    } else {
        str_lowercase(h.0) == str_lowercase(heading_query_text(q))
    }
}

/// The section of the note at `path` under the first heading that matches
/// `heading_query` (see [`section_query_hit`]), as the section command
/// gives it; `HeadingNotFound` when no heading matches.
pub fn get_section(
    path: &str,
    content: &str,
    heading_query: &str,
    by_slug: bool,
    include_subheadings: bool,
    content_only: bool,
) -> (r: Result<String, VaultError>)
    ensures
        match r {
            Ok(t) => exists|k: int|
                0 <= k < spec_headings(content@).len() && section_query_hit(
                    #[trigger] spec_headings(content@)[k],
                    heading_query@,
                    by_slug,
                ) && (forall|m: int| 0 <= m < k ==> !section_query_hit(spec_headings(content@)[m], heading_query@, by_slug))
                    && t@ == spec_section_text(content@, spec_headings(content@)[k], include_subheadings, content_only),
            Err(e) => e matches VaultError::HeadingNotFound { note, heading } && note@ == path@
                && heading@ == heading_query@ && (forall|m: int|
                0 <= m < spec_headings(content@).len() ==> !section_query_hit(
                    #[trigger] spec_headings(content@)[m],
                    heading_query@,
                    by_slug,
                )),
        },
{
    let hs = crate::parser::heading::parse_headings(content);
    let ghost hv = spec_headings(content@);
    let found = if by_slug {
        crate::parser::heading::find_heading_by_slug(hs.as_slice(), heading_query)
    } else {
        let q = strip_hashes_str(heading_query);
        let qt = crate::text::trim_vec(&q);
        let qs = string_of(qt.as_slice());
        assert(qs@ == heading_query_text(heading_query@));
        crate::parser::heading::find_heading_by_text(hs.as_slice(), qs.as_str())
    };
    match found {
        Some(h) => {
            let ghost k = choose|k: int| 0 <= k < hs@.len() && hs@[k] == *h && (if by_slug {
                h.slug@ == heading_query@ && forall|m: int| 0 <= m < k ==> (#[trigger] hs@[m]).slug@ != heading_query@
            } else {
                str_lowercase(h.text@) == str_lowercase(heading_query_text(heading_query@)) && forall|m: int|
                    0 <= m < k ==> str_lowercase((#[trigger] hs@[m]).text@) != str_lowercase(
                        heading_query_text(heading_query@),
                    )
            });
            proof {
                assert(hv[k] == heading_view(hs@[k]));
                assert forall|m: int| 0 <= m < k implies !section_query_hit(hv[m], heading_query@, by_slug) by {
                    assert(hv[m] == heading_view(hs@[m]));
                }
                assert(hv.contains(heading_view(*h)));
            }
            Ok(section_text(content, h, include_subheadings, content_only))
        },
        None => {
            proof {
                assert forall|m: int| 0 <= m < hv.len() implies !section_query_hit(
                    #[trigger] hv[m],
                    heading_query@,
                    by_slug,
                ) by {
                    assert(hv[m] == heading_view(hs@[m]));
                }
            }
            Err(VaultError::HeadingNotFound { note: lit(path), heading: lit(heading_query) })
        },
    }
}

// ---------------------------------------------------------------------------
// Replacing a block
// ---------------------------------------------------------------------------

/// The characters that have a meaning in a regular expression
/// (`regex_syntax::is_meta_character`).
pub open spec fn is_regex_meta(c: char) -> bool {
    c == '\\' || c == '.' || c == '+' || c == '*' || c == '?' || c == '(' || c == ')' || c == '|' || c == '['
        || c == ']' || c == '{' || c == '}' || c == '^' || c == '$' || c == '#' || c == '&' || c == '-' || c == '~'
}

/// A text with a backslash put before each regular-expression
/// metacharacter.
pub open spec fn regex_escaped(s: Seq<char>) -> Seq<char>
    decreases s.len(),
{
    if s.len() == 0 {
        Seq::empty()
    } else {
        regex_escaped(s.drop_last()) + if is_regex_meta(s.last()) {
            seq!['\\', s.last()]
        } else {
            seq![s.last()]
        }
    }
}

/// `regex::escape`, which, as `regex_syntax::escape_into` shows, puts a
/// backslash before each metacharacter and keeps every other character.
#[verifier::external_body]
fn regex_escape(s: &str) -> (r: String)
    ensures
        r@ == regex_escaped(s@),
{
    regex::escape(s)
}

/// The pattern of a line that ends with the block ID `id`: `\^`, the
/// escaped ID, `\s*$`.
pub open spec fn block_pattern(id: Seq<char>) -> Seq<char> {
    "\\^"@ + regex_escaped(id) + "\\s*$"@
}

/// The first line from `i` on that the pattern matches; the error text when
/// the pattern does not build.
pub open spec fn block_line_from(ls: Seq<Seq<char>>, pat: Seq<char>, i: int) -> Result<Option<int>, Seq<char>>
    decreases ls.len() - i,
{
    if i < 0 || i >= ls.len() {
        Ok(None)
    } else {
        match crate::search::matcher::regex_outcome(pat, false, ls[i]) {
            Err(e) => Err(e),
            Ok(true) => Ok(Some(i)),
            Ok(false) => block_line_from(ls, pat, i + 1),
        }
    }
}

/// The line of a note that carries the block ID `id`: the pattern is built
/// first (its error, if any), then the lines are tried in order.
pub open spec fn block_line(c: Seq<char>, id: Seq<char>) -> Result<Option<int>, Seq<char>> {
    match crate::search::matcher::regex_outcome(block_pattern(id), false, Seq::empty()) {
        Err(e) => Err(e),
        Ok(_) => block_line_from(lines(c), block_pattern(id), 0),
    }
}

/// Replace the line that carries a block ID by the replacement (trailing
/// whitespace removed): `BlockNotFound` when no line carries it.
pub fn replace_block(content: &str, block_id: &str, replacement: &str) -> (r: Result<String, VaultError>)
    ensures
        match block_line(content@, block_id@) {
            Err(e) => r matches Err(VaultError::RegexError(m)) && m@ == e,
            Ok(None) => r matches Err(VaultError::BlockNotFound(m)) && m@ == block_id@,
            Ok(Some(k)) => r matches Ok(x) && x@ == assemble(
                content@,
                lines(content@).subrange(0, k),
                trim_end(replacement@) + seq!['\n'],
                lines(content@).subrange(k + 1, lines(content@).len() as int),
            ),
        },
{
    let pattern = concat(concat(lit("\\^"), regex_escape(block_id).as_str()), "\\s*$");
    assert(pattern@ == block_pattern(block_id@));
    proof {
        reveal_strlit("");
        assert(""@ =~= Seq::<char>::empty());
    }
    match crate::search::matcher::regex_is_match(pattern.as_str(), false, "") {
        Err(e) => {
            return Err(VaultError::RegexError(e));
        },
        Ok(_) => {},
    }
    let s = chars_of(content);
    let ls = crate::text::split_lines(&s);
    let ghost lv = lines(content@);
    let mut i: usize = 0;
    while i < ls.len()
        invariant
            i <= ls@.len(),
            ls.deep_view() == lv,
            lv == lines(content@),
            s@ == content@,
            pattern@ == block_pattern(block_id@),
            block_line(content@, block_id@) == block_line_from(lv, pattern@, i as int),
        decreases ls@.len() - i,
    {
        let line = crate::text::string_of(ls[i].as_slice());
        assert(line@ == lv[i as int]);
        match crate::search::matcher::regex_is_match(pattern.as_str(), false, line.as_str()) {
            Err(e) => {
                return Err(VaultError::RegexError(e));
            },
            Ok(true) => {
                let mut r = lines_text(&ls, 0, i);
                let rep = crate::text::trim_end_vec(&chars_of(replacement));
                crate::text::append_chars(&mut r, rep.as_slice());
                r.push('\n');
                let tail = lines_text(&ls, i + 1, ls.len());
                crate::text::append_chars(&mut r, tail.as_slice());
                proof {
                    assert(r@ =~= lines_with_newlines(lv.subrange(0, i as int)) + (trim_end(replacement@) + seq!['\n'])
                        + lines_with_newlines(lv.subrange(i + 1, lv.len() as int)));
                }
                return Ok(finish(&s, r));
            },
            Ok(false) => {},
        }
        i = i + 1;
    }
    Err(VaultError::BlockNotFound(lit(block_id)))
}

// ---------------------------------------------------------------------------
// Replacing matches of a pattern
// ---------------------------------------------------------------------------

/// The matches of a regular expression in a text, leftmost first and
/// without overlap, each as its start and end in UTF-8 bytes; the error's
/// text when the expression does not build.
pub uninterp spec fn regex_find_spans(pattern: Seq<char>, haystack: Seq<char>) -> Result<Seq<(int, int)>, Seq<char>>;

/// Spans as plain integers.
pub open spec fn spans_view(v: Seq<(usize, usize)>) -> Seq<(int, int)> {
    v.map_values(|x: (usize, usize)| (x.0 as int, x.1 as int))
}

/// `Regex::new`, then `Regex::find_iter`, each match as its byte range.
/// As the crate documents, the matches follow one another without overlap
/// and their offsets fall on character boundaries of the text.
#[verifier::external_body]
fn regex_find_all(pattern: &str, haystack: &str) -> (r: Result<Vec<(usize, usize)>, String>)
    ensures
        match r {
            Ok(v) => regex_find_spans(pattern@, haystack@) == Ok::<Seq<(int, int)>, Seq<char>>(spans_view(v@))
                && (forall|i: int| 0 <= i < v@.len() ==> (#[trigger] v@[i]).0 <= v@[i].1)
                && (forall|i: int| 0 <= i < v@.len() ==> char_at_byte(haystack@, (#[trigger] v@[i]).0 as int, 0) is Some
                    && char_at_byte(haystack@, v@[i].1 as int, 0) is Some)
                && (forall|i: int, j: int| 0 <= i < j < v@.len() ==> (#[trigger] v@[i]).1 <= (#[trigger] v@[j]).0),
            Err(e) => regex_find_spans(pattern@, haystack@) == Err::<Seq<(int, int)>, Seq<char>>(e@),
        },
{
    match regex::Regex::new(pattern) {
        Ok(re) => Ok(re.find_iter(haystack).map(|m| (m.start(), m.end())).collect()),
        Err(e) => Err(e.to_string()),
    }
}

/// The character index at which a byte offset of the text falls (0 when
/// it falls inside a character or past the end).
pub open spec fn char_offset(c: Seq<char>, b: int) -> int {
    match char_at_byte(c, b, 0) {
        Some(k) => k,
        None => 0,
    }
}

/// Byte spans of a text as character spans.
pub open spec fn char_spans(c: Seq<char>, sps: Seq<(int, int)>) -> Seq<(int, int)> {
    sps.map_values(|sp: (int, int)| (char_offset(c, sp.0), char_offset(c, sp.1)))
}

/// Byte spans on character boundaries, in order and without overlap, as
/// character spans.
fn to_char_spans(s: &Vec<char>, spans: &Vec<(usize, usize)>) -> (r: Vec<(usize, usize)>)
    requires
        forall|i: int| 0 <= i < spans@.len() ==> (#[trigger] spans@[i]).0 <= spans@[i].1,
        forall|i: int| 0 <= i < spans@.len() ==> char_at_byte(s@, (#[trigger] spans@[i]).0 as int, 0) is Some
            && char_at_byte(s@, spans@[i].1 as int, 0) is Some,
        forall|i: int, j: int| 0 <= i < j < spans@.len() ==> (#[trigger] spans@[i]).1 <= (#[trigger] spans@[j]).0,
    ensures
        spans_view(r@) == char_spans(s@, spans_view(spans@)),
        forall|i: int| 0 <= i < r@.len() ==> (#[trigger] r@[i]).0 <= r@[i].1 <= s@.len(),
        forall|i: int, j: int| 0 <= i < j < r@.len() ==> (#[trigger] r@[i]).1 <= (#[trigger] r@[j]).0,
{
    let mut r: Vec<(usize, usize)> = Vec::new();
    let mut i: usize = 0;
    while i < spans.len()
        invariant
            i <= spans@.len(),
            r@.len() == i,
            forall|x: int| 0 <= x < spans@.len() ==> (#[trigger] spans@[x]).0 <= spans@[x].1,
            forall|x: int| 0 <= x < spans@.len() ==> char_at_byte(s@, (#[trigger] spans@[x]).0 as int, 0) is Some
                && char_at_byte(s@, spans@[x].1 as int, 0) is Some,
            forall|x: int, y: int| 0 <= x < y < spans@.len() ==> (#[trigger] spans@[x]).1 <= (#[trigger] spans@[y]).0,
            forall|x: int| 0 <= x < i ==> (#[trigger] r@[x]).0 as int == char_offset(s@, spans@[x].0 as int)
                && r@[x].1 as int == char_offset(s@, spans@[x].1 as int),
            forall|x: int| 0 <= x < i ==> (#[trigger] r@[x]).0 <= r@[x].1 <= s@.len(),
            forall|x: int, y: int| 0 <= x < y < i ==> (#[trigger] r@[x]).1 <= (#[trigger] r@[y]).0,
        decreases spans@.len() - i,
    {
        let (a, b) = spans[i];
        let ka = char_index_at_byte(s, a);
        let kb = char_index_at_byte(s, b);
        let (ca, cb) = match (ka, kb) {
            (Some(x), Some(y)) => (x, y),
            _ => {
                proof {
                    assert(char_at_byte(s@, spans@[i as int].0 as int, 0) is Some);
                }
                (0, 0)
            },
        };
        proof {
            lemma_char_at_byte_some(s@, a as int, 0);
            lemma_char_at_byte_some(s@, b as int, 0);
            if ca > cb {
                lemma_utf8_prefix_strict(s@, cb as int, ca as int);
            }
            assert forall|x: int| 0 <= x < i implies (#[trigger] r@[x]).1 <= ca by {
                let bx = spans@[x].1;
                lemma_char_at_byte_some(s@, bx as int, 0);
                assert(bx <= a);
                if r@[x].1 > ca {
                    lemma_utf8_prefix_strict(s@, ca as int, r@[x].1 as int);
                }
            }
        }
        r.push((ca, cb));
        i = i + 1;
    }
    assert(spans_view(r@) =~= char_spans(s@, spans_view(spans@)));
    r
}

/// A span lies inside one of the text's code ranges.
pub open spec fn span_in_code(c: Seq<char>, sp: (int, int)) -> bool {
    exists|k: int|
        0 <= k < code_ranges(c).len() && (#[trigger] code_ranges(c)[k]).0 <= sp.0 && sp.1 <= code_ranges(c)[k].1
}

/// The spans that lie outside code, in order.
pub open spec fn kept_spans(c: Seq<char>, sps: Seq<(int, int)>) -> Seq<(int, int)>
    decreases sps.len(),
{
    if sps.len() == 0 {
        Seq::empty()
    } else {
        kept_spans(c, sps.drop_last()) + if span_in_code(c, sps.last()) {
            Seq::<(int, int)>::empty()
        } else {
            seq![sps.last()]
        }
    }
}

/// The text with each of the spans `sps` (in order, without overlap)
/// replaced by `rep`, the last first.
pub open spec fn splice_all(c: Seq<char>, sps: Seq<(int, int)>, rep: Seq<char>) -> Seq<char>
    decreases sps.len(),
{
    if sps.len() == 0 {
        c
    } else {
        let l = sps.last();
        splice_all(c.subrange(0, l.0) + rep + c.subrange(l.1, c.len() as int), sps.drop_last(), rep)
    }
}

/// Replacing the matches of a pattern outside code: every such match (with
/// `all`), or the first one, which must exist; the pattern's build error
/// first.
pub open spec fn spec_replace_pattern(c: Seq<char>, pattern: Seq<char>, rep: Seq<char>, all: bool) -> Result<
    Seq<char>,
    Result<Seq<char>, Seq<char>>,
> {
    match regex_find_spans(pattern, c) {
        Err(e) => Err(Ok(e)),
        Ok(sps) => {
            let ks = kept_spans(c, char_spans(c, sps));
            if all {
                Ok(splice_all(c, ks, rep))
            } else if ks.len() > 0 {
                Ok(c.subrange(0, ks[0].0) + rep + c.subrange(ks[0].1, c.len() as int))
            } else {
                Err(Err("Pattern '"@ + pattern + "' not found outside code blocks"@))
            }
        },
    }
}

proof fn lemma_span_in_code_iff(c: Seq<char>, r: Seq<CodeBlockRange>, a: int, b: int)
    requires
        ranges_view(r).to_multiset() == code_ranges(c).to_multiset(),
    ensures
        (exists|k: int| 0 <= k < r.len() && (#[trigger] r[k]).start <= a && b <= r[k].end) <==> span_in_code(
            c,
            (a, b),
        ),
{
    broadcast use vstd::seq_lib::to_multiset_contains;

    let v = ranges_view(r);
    let cr = code_ranges(c);
    if exists|k: int| 0 <= k < r.len() && (#[trigger] r[k]).start <= a && b <= r[k].end {
        let k = choose|k: int| 0 <= k < r.len() && (#[trigger] r[k]).start <= a && b <= r[k].end;
        assert(v[k] == range_view(r[k]));
        assert(v.contains(v[k]));
        assert(v.to_multiset().contains(v[k]));
        assert(cr.contains(v[k]));
        let m = choose|m: int| 0 <= m < cr.len() && cr[m] == v[k];
        assert(cr[m].0 <= a && b <= cr[m].1);
    }
    if span_in_code(c, (a, b)) {
        let m = choose|m: int| 0 <= m < cr.len() && (#[trigger] cr[m]).0 <= a && b <= cr[m].1;
        assert(cr.contains(cr[m]));
        assert(v.to_multiset().contains(cr[m]));
        assert(v.contains(cr[m]));
        let k = choose|k: int| 0 <= k < v.len() && v[k] == cr[m];
        assert(v[k] == range_view(r[k]));
        assert(r[k].start <= a && b <= r[k].end);
    }
}

fn span_in_ranges(r: &Vec<CodeBlockRange>, a: usize, b: usize) -> (out: bool)
    ensures
        out == exists|k: int| 0 <= k < r@.len() && (#[trigger] r@[k]).start <= a && b <= r@[k].end,
{
    let mut k: usize = 0;
    while k < r.len()
        invariant
            k <= r@.len(),
            forall|m: int| 0 <= m < k ==> !((#[trigger] r@[m]).start <= a && b <= r@[m].end),
        decreases r@.len() - k,
    {
        if r[k].start <= a && b <= r[k].end {
            return true;
        }
        k = k + 1;
    }
    false
}

/// Replace the matches of a regular expression that lie outside code:
/// every one (`all`), or the first one, failing when there is none; an
/// invalid expression gives its error.
pub fn replace_pattern(content: &str, pattern: &str, replacement: &str, all: bool) -> (r: Result<String, VaultError>)
    ensures
        match spec_replace_pattern(content@, pattern@, replacement@, all) {
            Ok(x) => r matches Ok(y) && y@ == x,
            Err(Ok(e)) => r matches Err(VaultError::RegexError(m)) && m@ == e,
            Err(Err(m)) => r matches Err(VaultError::Other(x)) && x@ == m,
        },
{
    let found = match regex_find_all(pattern, content) {
        Ok(v) => v,
        Err(e) => {
            return Err(VaultError::RegexError(e));
        },
    };
    let s = chars_of(content);
    let spans = to_char_spans(&s, &found);
    let ranges = crate::parser::code_block::code_ranges_of(&s);
    let ghost sv = spans_view(spans@);
    // The kept spans, in order.
    let mut kept: Vec<(usize, usize)> = Vec::new();
    let mut i: usize = 0;
    while i < spans.len()
        invariant
            i <= spans@.len(),
            s@ == content@,
            sv == spans_view(spans@),
            ranges_view(ranges@).to_multiset() == code_ranges(content@).to_multiset(),
            spans_view(kept@) == kept_spans(content@, sv.subrange(0, i as int)),
            forall|x: int| 0 <= x < kept@.len() ==> exists|y: int| 0 <= y < i && #[trigger] kept@[x] == spans@[y],
            forall|x: int, z: int| #![trigger kept@[x], kept@[z]] 0 <= x < z < kept@.len() ==> exists|y1: int, y2: int|
                0 <= y1 < y2 < i && kept@[x] == #[trigger] spans@[y1] && kept@[z] == #[trigger] spans@[y2],
        decreases spans@.len() - i,
    {
        let (a, b) = spans[i];
        proof {
            lemma_span_in_code_iff(content@, ranges@, a as int, b as int);
            assert(sv.subrange(0, i + 1).drop_last() =~= sv.subrange(0, i as int));
            assert(sv.subrange(0, i + 1).last() == (a as int, b as int));
        }
        let ghost before = kept@;
        if !span_in_ranges(&ranges, a, b) {
            kept.push((a, b));
            proof {
                assert(spans_view(kept@) =~= spans_view(before).push((a as int, b as int)));
                assert forall|x: int| 0 <= x < kept@.len() implies exists|y: int| 0 <= y < i + 1 && #[trigger] kept@[x] == spans@[y] by {
                    if x < before.len() {
                        assert(kept@[x] == before[x]);
                    } else {
                        assert(kept@[x] == spans@[i as int]);
                    }
                }
                assert forall|x: int, z: int| #![trigger kept@[x], kept@[z]] 0 <= x < z < kept@.len() implies exists|y1: int, y2: int|
                    0 <= y1 < y2 < i + 1 && kept@[x] == #[trigger] spans@[y1] && kept@[z] == #[trigger] spans@[y2] by {
                    if z < before.len() {
                        assert(kept@[x] == before[x] && kept@[z] == before[z]);
                    } else {
                        assert(kept@[z] == spans@[i as int]);
                        assert(kept@[x] == before[x]);
                        let y = choose|y: int| 0 <= y < i && #[trigger] before[x] == spans@[y];
                        assert(kept@[x] == spans@[y] && kept@[z] == spans@[i as int]);
                    }
                }
            }
        } else {
            assert(spans_view(kept@) =~= kept_spans(content@, sv.subrange(0, i + 1)));
        }
        i = i + 1;
    }
    assert(sv.subrange(0, spans@.len() as int) =~= sv);
    let ghost ks = spans_view(kept@);
    // Facts on the kept spans: within the text, ordered, without overlap.
    assert forall|x: int| 0 <= x < kept@.len() implies (#[trigger] kept@[x]).0 <= kept@[x].1 <= s@.len() by {
        let y = choose|y: int| 0 <= y < spans@.len() && #[trigger] kept@[x] == spans@[y];
    }
    assert forall|x: int, z: int| 0 <= x < z < kept@.len() implies (#[trigger] kept@[x]).1 <= (#[trigger] kept@[z]).0 by {
        let (y1, y2) = choose|y1: int, y2: int|
            0 <= y1 < y2 < spans@.len() && kept@[x] == #[trigger] spans@[y1] && kept@[z] == #[trigger] spans@[y2];
    }
    if !all {
        if kept.len() == 0 {
            return Err(VaultError::Other(concat(concat(lit("Pattern '"), pattern), "' not found outside code blocks")));
        }
        let (a, b) = kept[0];
        let mut out = crate::text::sub_vec(&s, 0, a);
        append_chars(&mut out, chars_of(replacement).as_slice());
        let tail = crate::text::sub_vec(&s, b, s.len());
        append_chars(&mut out, tail.as_slice());
        return Ok(string_of(out.as_slice()));
    }
    // Replace every kept span, the last first.
    let rc = chars_of(replacement);
    let mut cur = s.clone();
    let mut k: usize = kept.len();
    assert(ks.subrange(0, ks.len() as int) =~= ks);
    while k > 0
        invariant
            k <= kept@.len(),
            ks == spans_view(kept@),
            rc@ == replacement@,
            forall|x: int| 0 <= x < kept@.len() ==> (#[trigger] kept@[x]).0 <= kept@[x].1 <= s@.len(),
            forall|x: int, z: int| 0 <= x < z < kept@.len() ==> (#[trigger] kept@[x]).1 <= (#[trigger] kept@[z]).0,
            k < kept@.len() ==> kept@[k as int].0 <= cur@.len(),
            k == kept@.len() ==> cur@ == s@,
            k < kept@.len() ==> cur@.subrange(0, kept@[k as int].0 as int) == s@.subrange(0, kept@[k as int].0 as int),
            splice_all(content@, ks, replacement@) == splice_all(cur@, ks.subrange(0, k as int), replacement@),
        decreases k,
    {
        let (a, b) = kept[k - 1];
        proof {
            if k < kept@.len() {
                assert(kept@[k - 1].1 <= kept@[k as int].0);
            }
        }
        let ghost c0 = cur@;
        let n = cur.len();
        let mut out = crate::text::sub_vec(&cur, 0, a);
        append_chars(&mut out, rc.as_slice());
        let tail = crate::text::sub_vec(&cur, b, n);
        append_chars(&mut out, tail.as_slice());
        proof {
            let sub = ks.subrange(0, k as int);
            assert(sub.last() == (a as int, b as int));
            assert(sub.drop_last() =~= ks.subrange(0, k - 1));
            assert(out@ =~= c0.subrange(0, a as int) + rc@ + c0.subrange(b as int, c0.len() as int));
            if k >= 2 {
                assert(kept@[k - 2].1 <= kept@[k - 1].0);
            }
            assert(out@.subrange(0, a as int) =~= c0.subrange(0, a as int));
            if k < kept@.len() {
                assert(c0.subrange(0, a as int) =~= s@.subrange(0, a as int));
            }
            assert(out@.subrange(0, a as int) =~= s@.subrange(0, a as int));
        }
        cur = out;
        k = k - 1;
    }
    proof {
        assert(ks.subrange(0, 0) =~= Seq::<(int, int)>::empty());
    }
    Ok(string_of(cur.as_slice()))
}

} // verus!
