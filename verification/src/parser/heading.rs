//! Headings and their slugs.

use vstd::prelude::*;
use unicode_normalization::UnicodeNormalization;
use crate::parser::block_id::is_id_char;
use crate::parser::code_block::{code_ranges_of, is_line_in_fenced_code_block, line_in_fence, ranges_view};
use crate::str_map::StrMap;
use crate::text::{
    alphanumeric, ascii_lower, chars_of, concat, decimal, decimal_string, is_alphanumeric,
    is_whitespace, is_ws, lines, lit, push_char, split_lines, string_of, sub_vec, to_ascii_lower,
    trim, trim_vec,
};
use crate::types::Heading;

verus! {

/// The NFC normal form of a string.
pub uninterp spec fn nfc_form(s: Seq<char>) -> Seq<char>;

/// Unicode Normalization Form C of a string (`UnicodeNormalization::nfc`
/// of the `unicode-normalization` crate); ASCII text is already in NFC.
#[verifier::external_body]
fn nfc_string(s: &str) -> (r: String)
    ensures
        r@ == nfc_form(s@),
        crate::text::all_ascii(s@) ==> r@ == s@,
{
    s.nfc().collect()
}

/// One step of slug building: the slug so far and whether it ends with a
/// hyphen that came from a separator.
pub open spec fn slug_step(st: (Seq<char>, bool), c: char) -> (Seq<char>, bool) {
    let (slug, last_hyphen) = st;
    if is_alphanumeric(c) {
        (slug.push(ascii_lower(c)), false)
    } else if c == '-' || c == '_' {
        if !last_hyphen && slug.len() > 0 {
            (slug.push(c), c == '-')
        } else {
            st
        }
    } else if is_ws(c) {
        if !last_hyphen && slug.len() > 0 {
            (slug.push('-'), true)
        } else {
            st
        }
    } else {
        st
    }
}

/// The slug state after reading all of `s`.
pub open spec fn slug_fold(s: Seq<char>) -> (Seq<char>, bool)
    decreases s.len(),
{
    if s.len() == 0 {
        (Seq::empty(), false)
    } else {
        slug_step(slug_fold(s.drop_last()), s.last())
    }
}

/// `t` without its trailing hyphens.
pub open spec fn strip_trailing_hyphens(t: Seq<char>) -> Seq<char>
    decreases t.len(),
{
    if t.len() > 0 && t.last() == '-' {
        strip_trailing_hyphens(t.drop_last())
    } else {
        t
    }
}

/// The slug of a heading text.
pub open spec fn spec_slug(text: Seq<char>) -> Seq<char> {
    strip_trailing_hyphens(slug_fold(nfc_form(text)).0)
}

/// A URL-friendly slug of a heading text: NFC-normalised; alphanumeric
/// characters kept (ASCII letters lowercased); whitespace becomes `-`;
/// `-` and `_` kept; a separator never follows a hyphen or starts the slug;
/// other characters dropped; trailing hyphens removed.
pub fn slugify(text: &str) -> (r: String)
    ensures
        r@ == spec_slug(text@),
        crate::text::all_ascii(text@) ==> r@ == strip_trailing_hyphens(slug_fold(text@).0),
{
    let normalized = chars_of(nfc_string(text).as_str());
    let mut slug: Vec<char> = Vec::new();
    let mut last_was_hyphen = false;
    let mut k: usize = 0;
    while k < normalized.len()
        invariant
            k <= normalized@.len(),
            normalized@ == nfc_form(text@),
            (slug@, last_was_hyphen) == slug_fold(normalized@.subrange(0, k as int)),
        decreases normalized@.len() - k,
    {
        let c = normalized[k];
        proof {
            assert(normalized@.subrange(0, k + 1).drop_last() == normalized@.subrange(0, k as int));
        }
        if alphanumeric(c) {
            slug.push(to_ascii_lower(c));
            last_was_hyphen = false;
        } else if c == '-' || c == '_' {
            if !last_was_hyphen && slug.len() > 0 {
                slug.push(c);
                last_was_hyphen = c == '-';
            }
        } else if is_whitespace(c) {
            if !last_was_hyphen && slug.len() > 0 {
                slug.push('-');
                last_was_hyphen = true;
            }
        }
        k = k + 1;
    }
    assert(normalized@.subrange(0, k as int) == normalized@);
    while slug.len() > 0 && slug[slug.len() - 1] == '-'
        invariant
            strip_trailing_hyphens(slug@) == spec_slug(text@),
        decreases slug@.len(),
    {
        let ghost before = slug@;
        slug.pop();
        assert(slug@ == before.drop_last());
    }
    let mut out = String::new();
    crate::text::push_str_chars(&mut out, slug.as_slice());
    out
}

/// Number of leading `#` characters of a line.
pub open spec fn hash_run(s: Seq<char>, i: int) -> int
    decreases s.len() - i,
{
    if 0 <= i < s.len() && s[i] == '#' {
        hash_run(s, i + 1)
    } else {
        i
    }
}

/// End of the run of whitespace starting at `i`.
pub open spec fn ws_end(s: Seq<char>, i: int) -> int
    decreases s.len() - i,
{
    if 0 <= i < s.len() && is_ws(s[i]) {
        ws_end(s, i + 1)
    } else {
        i
    }
}

/// All characters of `t` are whitespace.
pub open spec fn all_ws(t: Seq<char>) -> bool {
    forall|k: int| 0 <= k < t.len() ==> is_ws(#[trigger] t[k])
}

/// `t` is an optional block ID suffix (whitespace, `^`, ID characters)
/// followed by whitespace only.
pub open spec fn heading_tail(t: Seq<char>) -> bool {
    all_ws(t) || {
        let a = ws_end(t, 0);
        let b = crate::parser::block_id::digit_run(t, 0);
        &&& a >= 1
        &&& a < t.len()
        &&& t[a] == '^'
        &&& exists|e: int|
            a + 1 < e <= t.len() && (forall|k: int| a + 1 <= k < e ==> is_id_char(#[trigger] t[k]))
                && all_ws(t.subrange(e, t.len() as int))
    }
}

/// The smallest `n >= k` such that the text `r[w..w+n]` leaves a valid tail.
pub open spec fn text_len_from(r: Seq<char>, w: int, n: int) -> int
    decreases r.len() - w - n,
{
    if w + n >= r.len() {
        r.len() - w
    } else if heading_tail(r.subrange(w + n, r.len() as int)) {
        n
    } else {
        text_len_from(r, w, n + 1)
    }
}

/// The level and raw text of an ATX heading line: one to six `#`, then
/// whitespace, then the text; a trailing block ID and whitespace are not
/// part of the text.
pub open spec fn heading_of_line(line: Seq<char>) -> Option<(int, Seq<char>)> {
    let l = hash_run(line, 0);
    let r = line.subrange(l, line.len() as int);
    if l < 1 || l > 6 || r.len() == 0 || !is_ws(r[0]) {
        None
    } else {
        let w0 = ws_end(r, 0);
        let w = if w0 < r.len() {
            w0
        } else {
            r.len() - 1
        };
        if w < 1 {
            None
        } else {
            let n = text_len_from(r, w, 1);
            Some((l, trim(r.subrange(w, w + n))))
        }
    }
}

/// The slug made unique: the `k`-th use (from 1) of a base slug gets `-k-1`
/// appended from the second use on.
pub open spec fn unique_slug(base: Seq<char>, count: nat) -> Seq<char> {
    if count <= 1 {
        base
    } else {
        base + "-"@ + decimal((count - 1) as nat)
    }
}

/// The mathematical value of a heading.
pub open spec fn heading_view(h: Heading) -> (Seq<char>, int, int, Seq<char>) {
    (h.text@, h.level as int, h.line as int, h.slug@)
}

pub open spec fn headings_view(hs: Seq<Heading>) -> Seq<(Seq<char>, int, int, Seq<char>)> {
    hs.map_values(|h: Heading| heading_view(h))
}

/// How often each base slug was used among the headings `hs`.
pub open spec fn slug_uses(hs: Seq<(Seq<char>, int, int, Seq<char>)>, base: Seq<char>) -> nat
    decreases hs.len(),
{
    if hs.len() == 0 {
        0
    } else {
        slug_uses(hs.drop_last(), base) + if spec_slug(hs.last().0) == base {
            1nat
        } else {
            0nat
        }
    }
}

/// The headings of lines `k..` of the note `s`, after the headings `acc`.
pub open spec fn headings_from(
    s: Seq<char>,
    k: int,
    acc: Seq<(Seq<char>, int, int, Seq<char>)>,
) -> Seq<(Seq<char>, int, int, Seq<char>)>
    decreases lines(s).len() - k,
{
    let ls = lines(s);
    if k < 0 || k >= ls.len() {
        acc
    } else if line_in_fence(s, k + 1) {
        headings_from(s, k + 1, acc)
    } else {
        match heading_of_line(ls[k]) {
            Some((level, text)) => {
                let base = spec_slug(text);
                let h = (text, level, k + 1, unique_slug(base, slug_uses(acc, base) + 1));
                headings_from(s, k + 1, acc.push(h))
            },
            None => headings_from(s, k + 1, acc),
        }
    }
}

/// The headings of a note, outside fenced code blocks, with slugs unique
/// within the note.
pub open spec fn spec_headings(s: Seq<char>) -> Seq<(Seq<char>, int, int, Seq<char>)> {
    headings_from(s, 0, Seq::empty())
}

fn all_ws_exec(t: &Vec<char>, from: usize) -> (r: bool)
    requires
        from <= t@.len(),
    ensures
        r == all_ws(t@.subrange(from as int, t@.len() as int)),
{
    let mut k = from;
    while k < t.len()
        invariant
            from <= k <= t@.len(),
            forall|m: int| from <= m < k ==> is_ws(#[trigger] t@[m]),
        decreases t@.len() - k,
    {
        if !is_whitespace(t[k]) {
            assert(t@.subrange(from as int, t@.len() as int)[k - from] == t@[k as int]);
            return false;
        }
        k = k + 1;
    }
    assert forall|m: int| 0 <= m < t@.len() - from implies is_ws(
        #[trigger] t@.subrange(from as int, t@.len() as int)[m],
    ) by {
        assert(t@.subrange(from as int, t@.len() as int)[m] == t@[from + m]);
    }
    true
}

fn ws_end_exec(t: &Vec<char>, i: usize) -> (r: usize)
    requires
        i <= t@.len(),
    ensures
        r == ws_end(t@, i as int),
        i <= r <= t@.len(),
{
    let mut k = i;
    while k < t.len() && is_whitespace(t[k])
        invariant
            i <= k <= t@.len(),
            ws_end(t@, k as int) == ws_end(t@, i as int),
        decreases t@.len() - k,
    {
        k = k + 1;
    }
    k
}

fn heading_tail_exec(t: &Vec<char>) -> (r: bool)
    ensures
        r == heading_tail(t@),
{
    proof {
        assert(t@.subrange(0, t@.len() as int) == t@);
    }
    if all_ws_exec(t, 0) {
        return true;
    }
    let a = ws_end_exec(t, 0);
    if a < 1 || a >= t.len() || t[a] != '^' {
        return false;
    }
    let mut e = a + 1;
    while e < t.len() && is_id_char_exec(t[e])
        invariant
            a + 1 <= e <= t@.len(),
            forall|k: int| a + 1 <= k < e ==> is_id_char(#[trigger] t@[k]),
        decreases t@.len() - e,
    {
        e = e + 1;
    }
    if e == a + 1 {
        proof {
            assert forall|e2: int|
                a + 1 < e2 <= t@.len() && (forall|k: int| a + 1 <= k < e2 ==> is_id_char(#[trigger] t@[k]))
                    implies !all_ws(t@.subrange(e2, t@.len() as int)) by {
                assert(is_id_char(t@[a + 1]));
            }
        }
        return false;
    }
    let ok = all_ws_exec(t, e);
    proof {
        if !ok {
            assert forall|e2: int|
                a + 1 < e2 <= t@.len() && (forall|k: int| a + 1 <= k < e2 ==> is_id_char(#[trigger] t@[k]))
                    implies !all_ws(t@.subrange(e2, t@.len() as int)) by {
                if e2 < e {
                    assert(t@.subrange(e2, t@.len() as int)[0] == t@[e2]);
                    assert(!is_ws(t@[e2]));
                } else if e2 > e {
                    assert(is_id_char(t@[e as int]));
                } else {
                }
            }
        }
    }
    ok
}

fn is_id_char_exec(c: char) -> (r: bool)
    ensures
        r == is_id_char(c),
{
    ('a' <= c && c <= 'z') || ('A' <= c && c <= 'Z') || ('0' <= c && c <= '9') || c == '_' || c
        == '-'
}

/// The length of the heading text that starts at `w`.
fn text_len_exec(r: &Vec<char>, w: usize) -> (n: usize)
    requires
        1 <= w < r@.len(),
    ensures
        n == text_len_from(r@, w as int, 1),
        1 <= n,
        w + n <= r@.len(),
{
    let len = r.len();
    let mut n: usize = 1;
    while n < len - w && !heading_tail_exec(&sub_vec(r, w + n, r.len()))
        invariant
            1 <= w < r@.len(),
            len == r@.len(),
            1 <= n,
            w + n <= r@.len(),
            text_len_from(r@, w as int, n as int) == text_len_from(r@, w as int, 1),
        decreases r@.len() - w - n,
    {
        n = n + 1;
    }
    n
}

/// The level and text of a heading line, if it is one.
fn heading_of_line_exec(line: &Vec<char>) -> (r: Option<(usize, Vec<char>)>)
    ensures
        match heading_of_line(line@) {
            Some(x) => r matches Some(y) && y.0 == x.0 && y.1@ == x.1,
            None => r is None,
        },
{
    let mut l: usize = 0;
    while l < line.len() && line[l] == '#'
        invariant
            l <= line@.len(),
            hash_run(line@, l as int) == hash_run(line@, 0),
        decreases line@.len() - l,
    {
        l = l + 1;
    }
    let r = sub_vec(line, l, line.len());
    if l < 1 || l > 6 || r.len() == 0 || !is_whitespace(r[0]) {
        return None;
    }
    let w0 = ws_end_exec(&r, 0);
    let w = if w0 < r.len() {
        w0
    } else {
        r.len() - 1
    };
    if w < 1 {
        return None;
    }
    let n = text_len_exec(&r, w);
    let text = sub_vec(&r, w, w + n);
    Some((l, trim_vec(&text)))
}

/// Make a slug unique among the slugs already handed out, counting uses.
fn make_unique_slug(base: &Vec<char>, counts: &mut StrMap<usize>) -> (r: String)
    requires
        old(counts).wf(),
        forall|k: Seq<char>| old(counts).view().contains_key(k) ==> old(counts).view()[k] < usize::MAX,
    ensures
        final(counts).wf(),
        final(counts).view() == old(counts).view().insert(
            base@,
            (if old(counts).view().contains_key(base@) {
                old(counts).view()[base@] + 1
            } else {
                1
            }) as usize,
        ),
        r@ == unique_slug(
            base@,
            (if old(counts).view().contains_key(base@) {
                old(counts).view()[base@] + 1
            } else {
                1
            }) as nat,
        ),
{
    let b = string_of(base.as_slice());
    let c: usize = match counts.get(b.as_str()) {
        Some(c) => *c + 1,
        None => 1,
    };
    counts.insert(b.clone(), c);
    if c == 1 {
        b
    } else {
        let m = concat(b, "-");
        concat(m, decimal_string(c - 1).as_str())
    }
}

/// Parse all headings of a note, skipping lines in fenced code blocks.
pub fn parse_headings(content: &str) -> (r: Vec<Heading>)
    ensures
        headings_view(r@) == spec_headings(content@),
{
    let s = chars_of(content);
    let ranges = code_ranges_of(&s);
    let ls = split_lines(&s);
    let mut counts: StrMap<usize> = StrMap::new();
    let mut out: Vec<Heading> = Vec::new();
    let mut k: usize = 0;
    assert(headings_view(out@) =~= Seq::<(Seq<char>, int, int, Seq<char>)>::empty());
    while k < ls.len()
        invariant
            k <= ls@.len(),
            ls.deep_view() == lines(s@),
            s@ == content@,
            counts.wf(),
            out@.len() <= k,
            forall|b: Seq<char>| #[trigger] counts.view().contains_key(b) ==> counts.view()[b] == slug_uses(headings_view(out@), b) && counts.view()[b] <= out@.len(),
            forall|b: Seq<char>| !counts.view().contains_key(b) ==> #[trigger] slug_uses(headings_view(out@), b) == 0,
            ranges_view(ranges@).to_multiset() == crate::parser::code_block::code_ranges(
                s@,
            ).to_multiset(),
            headings_from(s@, k as int, headings_view(out@)) == spec_headings(content@),
        decreases ls@.len() - k,
    {
        proof {
            assert(ls.deep_view()[k as int] == ls@[k as int]@);
            crate::parser::block_id::lemma_fence_line(s@, ranges@, k + 1);
        }
        if !is_line_in_fenced_code_block(k + 1, ranges.as_slice()) {
            match heading_of_line_exec(&ls[k]) {
                Some((level, text)) => {
                    let base = chars_of(slugify(string_of(text.as_slice()).as_str()).as_str());
                    let ghost hv = headings_view(out@);
                    let slug = make_unique_slug(&base, &mut counts);
                    let h = Heading { text: string_of(text.as_slice()), level: level as u8, line: k + 1, slug };
                    out.push(h);
                    proof {
                        assert(headings_view(out@) =~= hv.push(heading_view(h)));
                        assert forall|b: Seq<char>| #[trigger] slug_uses(headings_view(out@), b) == slug_uses(hv, b) + if spec_slug(text@) == b { 1nat } else { 0nat } by {
                            assert(headings_view(out@).drop_last() == hv);
                        }
                    }
                },
                None => {},
            }
        }
        k = k + 1;
    }
    out
}

/// The first heading with slug `slug`.
pub fn find_heading_by_slug<'a>(headings: &'a [Heading], slug: &str) -> (r: Option<&'a Heading>)
    ensures
        match r {
            Some(h) => exists|k: int|
                0 <= k < headings@.len() && headings@[k] == *h && h.slug@ == slug@ && forall|m: int|
                    0 <= m < k ==> (#[trigger] headings@[m]).slug@ != slug@,
            None => forall|m: int| 0 <= m < headings@.len() ==> (#[trigger] headings@[m]).slug@ != slug@,
        },
{
    let want = chars_of(slug);
    let mut k: usize = 0;
    while k < headings.len()
        invariant
            k <= headings@.len(),
            want@ == slug@,
            forall|m: int| 0 <= m < k ==> (#[trigger] headings@[m]).slug@ != slug@,
        decreases headings@.len() - k,
    {
        if crate::text::same_chars(chars_of(headings[k].slug.as_str()).as_slice(), want.as_slice()) {
            return Some(&headings[k]);
        }
        k = k + 1;
    }
    None
}

/// The first heading whose text equals `text`, ignoring case (Unicode
/// lowercase mapping).
pub fn find_heading_by_text<'a>(headings: &'a [Heading], text: &str) -> (r: Option<&'a Heading>)
    ensures
        match r {
            Some(h) => exists|k: int|
                0 <= k < headings@.len() && headings@[k] == *h && crate::text::str_lowercase(h.text@)
                    == crate::text::str_lowercase(text@) && forall|m: int|
                    0 <= m < k ==> crate::text::str_lowercase((#[trigger] headings@[m]).text@)
                        != crate::text::str_lowercase(text@),
            None => forall|m: int|
                0 <= m < headings@.len() ==> crate::text::str_lowercase((#[trigger] headings@[m]).text@)
                    != crate::text::str_lowercase(text@),
        },
{
    let want = chars_of(crate::text::to_lowercase(text).as_str());
    let mut k: usize = 0;
    while k < headings.len()
        invariant
            k <= headings@.len(),
            want@ == crate::text::str_lowercase(text@),
            forall|m: int|
                0 <= m < k ==> crate::text::str_lowercase((#[trigger] headings@[m]).text@)
                    != crate::text::str_lowercase(text@),
        decreases headings@.len() - k,
    {
        let l = chars_of(crate::text::to_lowercase(headings[k].text.as_str()).as_str());
        if crate::text::same_chars(l.as_slice(), want.as_slice()) {
            return Some(&headings[k]);
        }
        k = k + 1;
    }
    None
}

/// The headings with a level in `min..=max`, in order.
pub fn filter_headings_by_level<'a>(headings: &'a [Heading], min: u8, max: u8) -> (r: Vec<&'a Heading>)
    ensures
        r@.map_values(|h: &Heading| *h) == headings@.filter(|h: Heading| min <= h.level <= max),
{
    let mut r: Vec<&'a Heading> = Vec::new();
    let mut k: usize = 0;
    while k < headings.len()
        invariant
            k <= headings@.len(),
            r@.map_values(|h: &Heading| *h) == headings@.subrange(0, k as int).filter(
                |h: Heading| min <= h.level <= max,
            ),
        decreases headings@.len() - k,
    {
        let ghost before = r@.map_values(|h: &Heading| *h);
        proof {
            assert(headings@.subrange(0, k + 1).drop_last() == headings@.subrange(0, k as int));
            reveal(Seq::filter);
        }
        if min <= headings[k].level && headings[k].level <= max {
            r.push(&headings[k]);
            assert(r@.map_values(|h: &Heading| *h) =~= before.push(headings@[k as int]));
        }
        k = k + 1;
    }
    assert(headings@.subrange(0, k as int) == headings@);
    r
}

// ---------------------------------------------------------------------------
// Heading tree
// ---------------------------------------------------------------------------

/// The index of the first heading from `j` on, before `hi`, whose level is
/// `lvl` or less (a heading at that level or above); `hi` when there is
/// none.
pub open spec fn section_end(hs: Seq<Heading>, lvl: u8, j: int, hi: int) -> int
    decreases hi - j,
{
    if j >= hi {
        hi
    } else if hs[j].level <= lvl {
        j
    } else {
        section_end(hs, lvl, j + 1, hi)
    }
}

pub proof fn lemma_section_end_bounds(hs: Seq<Heading>, lvl: u8, j: int, hi: int)
    requires
        j <= hi,
    ensures
        j <= section_end(hs, lvl, j, hi) <= hi,
    decreases hi - j,
{
    if j < hi && hs[j].level > lvl {
        lemma_section_end_bounds(hs, lvl, j + 1, hi);
    }
}

/// `section_end`, computed.
pub fn section_end_exec(hs: &[Heading], lvl: u8, j: usize, hi: usize) -> (r: usize)
    requires
        j <= hi <= hs@.len(),
    ensures
        r as int == section_end(hs@, lvl, j as int, hi as int),
{
    let mut k: usize = j;
    while k < hi
        invariant
            j <= k <= hi <= hs@.len(),
            section_end(hs@, lvl, j as int, hi as int) == section_end(hs@, lvl, k as int, hi as int),
        decreases hi - k,
    {
        if hs[k].level <= lvl {
            return k;
        }
        k = k + 1;
    }
    k
}

/// A heading with the headings nested under it.
#[derive(Debug)]
pub struct HeadingNode {
    pub heading: Heading,
    pub children: Vec<HeadingNode>,
}

/// A heading holds the same fields as another.
pub open spec fn same_heading(a: Heading, b: Heading) -> bool {
    a.text@ == b.text@ && a.level == b.level && a.line == b.line && a.slug@ == b.slug@
}

/// `r` is the tree of headings `lo..hi`: the first heading, with the tree
/// of the deeper headings that follow it (up to the next heading at its
/// level or above) as its children, then the tree of the rest.
pub open spec fn tree_of_is(r: Seq<HeadingNode>, hs: Seq<Heading>, lo: int, hi: int) -> bool
    decreases hi - lo,
{
    if lo >= hi {
        r.len() == 0
    } else {
        let k = section_end(hs, hs[lo].level, lo + 1, hi);
        proof {
            lemma_section_end_bounds(hs, hs[lo].level, lo + 1, hi);
        }
        &&& r.len() > 0
        &&& same_heading(r[0].heading, hs[lo])
        &&& tree_of_is(r[0].children@, hs, lo + 1, k)
        &&& tree_of_is(r.subrange(1, r.len() as int), hs, k, hi)
    }
}

fn tree_range(hs: &[Heading], lo: usize, hi: usize) -> (r: Vec<HeadingNode>)
    requires
        lo <= hi <= hs@.len(),
    ensures
        tree_of_is(r@, hs@, lo as int, hi as int),
    decreases hi - lo,
{
    if lo >= hi {
        return Vec::new();
    }
    let h = &hs[lo];
    let k = section_end_exec(hs, h.level, lo + 1, hi);
    proof {
        lemma_section_end_bounds(hs@, h.level, lo + 1, hi as int);
    }
    let children = tree_range(hs, lo + 1, k);
    let mut rest = tree_range(hs, k, hi);
    let heading = Heading { text: h.text.clone(), level: h.level, line: h.line, slug: h.slug.clone() };
    let mut out: Vec<HeadingNode> = Vec::new();
    out.push(HeadingNode { heading, children });
    let ghost rv = rest@;
    out.append(&mut rest);
    proof {
        assert(out@.subrange(1, out@.len() as int) =~= rv);
    }
    out
}

/// The headings as a tree: each heading holds the deeper headings that
/// follow it, up to the next heading at its level or above.
pub fn build_heading_tree(headings: &[Heading]) -> (r: Vec<HeadingNode>)
    ensures
        tree_of_is(r@, headings@, 0, headings@.len() as int),
{
    tree_range(headings, 0, headings.len())
}

} // verus!
