//! Wikilinks and embeds: `[[target]]`, `[[target|alias]]`,
//! `[[target#heading]]`, `[[target#^block]]` and `![[...]]`.

use vstd::prelude::*;
use crate::parser::code_block::{code_ranges, code_ranges_of, in_code, is_in_code_block, line_of, ranges_view};
use crate::parser::inline_property::{
    brackets2_at, lemma_in_code_iff, lemma_nb_end, line_start, line_start_of, nb_end, nb_end_exec,
};
use crate::text::{
    chars_of, count_char_prefix, ends_with_str, has_suffix, is_ascii_alnum, push_char,
    push_str_chars, str_lowercase, string_of_range, to_lowercase, trim, trim_range, string_of, utf8_len,
};
use crate::types::Link;

verus! {

/// A range of offsets `[lo, hi)`.
pub type Span = (int, int);

/// What follows the target (and block id) of a link: heading, alias, and the
/// offset just past the closing `]]`.
pub type Tail = (Option<Span>, Option<Span>, int);

/// A link occurrence as plain values:
/// `(start, embed, target, block, heading, alias, end)`.
pub type LinkM = (int, bool, Span, Option<Span>, Option<Span>, Option<Span>, int);

/// A character that may appear in a link target.
pub open spec fn is_target_char(c: char) -> bool {
    c != ']' && c != '|' && c != '#'
}

/// A character that may appear in a block reference.
pub open spec fn is_block_char(c: char) -> bool {
    is_ascii_alnum(c) || c == '_' || c == '-'
}

/// A character that may appear in a heading reference.
pub open spec fn is_heading_char(c: char) -> bool {
    c != ']' && c != '|'
}

/// End of the run of target characters from `i`.
pub open spec fn target_end(s: Seq<char>, i: int) -> int
    decreases s.len() - i,
{
    if 0 <= i < s.len() && is_target_char(s[i]) {
        target_end(s, i + 1)
    } else {
        i
    }
}

/// End of the run of block-reference characters from `i`.
pub open spec fn block_end(s: Seq<char>, i: int) -> int
    decreases s.len() - i,
{
    if 0 <= i < s.len() && is_block_char(s[i]) {
        block_end(s, i + 1)
    } else {
        i
    }
}

/// End of the run of heading characters from `i`.
pub open spec fn heading_end(s: Seq<char>, i: int) -> int
    decreases s.len() - i,
{
    if 0 <= i < s.len() && is_heading_char(s[i]) {
        heading_end(s, i + 1)
    } else {
        i
    }
}

/// An optional `|alias` (not empty) followed by `]]`, from `y`: the alias and
/// the offset past `]]`.
pub open spec fn alias_tail(s: Seq<char>, y: int) -> Option<(Option<Span>, int)> {
    if 0 <= y < s.len() && s[y] == '|' {
        let e = nb_end(s, y + 1);
        if e > y + 1 && brackets2_at(s, e) {
            Some((Some((y + 1, e)), e + 2))
        } else {
            None
        }
    } else if brackets2_at(s, y) {
        Some((None, y + 2))
    } else {
        None
    }
}

/// An optional `#heading` (not empty), then the alias tail, from `x`.
pub open spec fn heading_tail(s: Seq<char>, x: int) -> Option<Tail> {
    if 0 <= x < s.len() && s[x] == '#' {
        let e = heading_end(s, x + 1);
        if e > x + 1 {
            match alias_tail(s, e) {
                Some((a, end)) => Some((Some((x + 1, e)), a, end)),
                None => None,
            }
        } else {
            None
        }
    } else {
        match alias_tail(s, x) {
            Some((a, end)) => Some((None, a, end)),
            None => None,
        }
    }
}

/// The block-reference reading of what follows a target ending at `te`:
/// `#^id`, then the heading tail.
pub open spec fn block_tail(s: Seq<char>, te: int) -> Option<(Span, Tail)> {
    if 0 <= te && te + 1 < s.len() && s[te] == '#' && s[te + 1] == '^' {
        let be = block_end(s, te + 2);
        if be > te + 2 {
            match heading_tail(s, be) {
                Some(t) => Some(((te + 2, be), t)),
                None => None,
            }
        } else {
            None
        }
    } else {
        None
    }
}

/// A link body `[[...]]` starting at `p`: target, block, heading, alias and
/// the offset past `]]`. The block reading is preferred; when it fails the
/// text after `#` is read as a heading.
pub open spec fn link_body(s: Seq<char>, p: int) -> Option<(Span, Option<Span>, Tail)> {
    if 0 <= p && p + 1 < s.len() && s[p] == '[' && s[p + 1] == '[' {
        let te = target_end(s, p + 2);
        if te == p + 2 {
            None
        } else {
            match block_tail(s, te) {
                Some((b, t)) => Some(((p + 2, te), Some(b), t)),
                None => match heading_tail(s, te) {
                    Some(t) => Some(((p + 2, te), None, t)),
                    None => None,
                },
            }
        }
    } else {
        None
    }
}

/// A link or embed starting at `i`.
pub open spec fn link_at(s: Seq<char>, i: int) -> Option<LinkM> {
    if 0 <= i < s.len() && s[i] == '!' {
        match link_body(s, i + 1) {
            Some((tg, b, t)) => Some((i, true, tg, b, t.0, t.1, t.2)),
            None => None,
        }
    } else {
        match link_body(s, i) {
            Some((tg, b, t)) => Some((i, false, tg, b, t.0, t.1, t.2)),
            None => None,
        }
    }
}

/// Link occurrences from `i`, leftmost first, without overlap.
pub open spec fn links_from(s: Seq<char>, i: int) -> Seq<LinkM>
    decreases s.len() - i,
{
    if i < 0 || i >= s.len() {
        Seq::empty()
    } else {
        match link_at(s, i) {
            Some(m) => {
                proof {
                    lemma_link_at(s, i);
                }
                seq![m] + links_from(s, m.6)
            },
            None => links_from(s, i + 1),
        }
    }
}

/// The occurrences of `ms` outside code, of the wanted kind (`Some(true)`:
/// embeds only, `Some(false)`: links only, `None`: both).
pub open spec fn keep_links(s: Seq<char>, ms: Seq<LinkM>, kind: Option<bool>) -> Seq<LinkM>
    decreases ms.len(),
{
    if ms.len() == 0 {
        Seq::empty()
    } else {
        let rest = keep_links(s, ms.drop_last(), kind);
        let m = ms.last();
        if !in_code(s, m.0) && (kind matches Some(e) ==> m.1 == e) {
            rest.push(m)
        } else {
            rest
        }
    }
}

/// The link occurrences of a text outside code, of the wanted kind.
pub open spec fn link_occ(s: Seq<char>, kind: Option<bool>) -> Seq<LinkM> {
    keep_links(s, links_from(s, 0), kind)
}

pub open spec fn span_text(s: Seq<char>, o: Option<Span>) -> Option<Seq<char>> {
    match o {
        Some((a, b)) => Some(s.subrange(a, b)),
        None => None,
    }
}

pub open spec fn opt_string_view(o: Option<String>) -> Option<Seq<char>> {
    match o {
        Some(t) => Some(t@),
        None => None,
    }
}

/// The link `l` is the one that the occurrence `m` of `s` describes.
pub open spec fn link_describes(l: Link, s: Seq<char>, m: LinkM) -> bool {
    &&& l.target@ == trim(s.subrange(m.2.0, m.2.1))
    &&& opt_string_view(l.block_id) == span_text(s, m.3)
    &&& opt_string_view(l.heading) == span_text(s, m.4)
    &&& opt_string_view(l.alias) == span_text(s, m.5)
    &&& l.embed == m.1
    &&& l.line == line_of(s, m.0)
    &&& l.start_col == utf8_len(s.subrange(line_start(s, m.0), m.0))
    &&& l.end_col == utf8_len(s.subrange(line_start(s, m.0), m.6))
}

/// `r` lists the links of `s` of the wanted kind, in order.
pub open spec fn links_of(r: Seq<Link>, s: Seq<char>, kind: Option<bool>) -> bool {
    &&& r.len() == link_occ(s, kind).len()
    &&& forall|k: int| 0 <= k < r.len() ==> link_describes(#[trigger] r[k], s, link_occ(s, kind)[k])
}

// ---------------------------------------------------------------------------
// Lemmas
// ---------------------------------------------------------------------------

pub proof fn lemma_target_end(s: Seq<char>, i: int)
    requires
        0 <= i,
    ensures
        i <= target_end(s, i),
        target_end(s, i) <= s.len() || target_end(s, i) == i,
    decreases s.len() - i,
{
    if 0 <= i < s.len() && is_target_char(s[i]) {
        lemma_target_end(s, i + 1);
    }
}

pub proof fn lemma_block_end(s: Seq<char>, i: int)
    requires
        0 <= i,
    ensures
        i <= block_end(s, i),
        block_end(s, i) <= s.len() || block_end(s, i) == i,
    decreases s.len() - i,
{
    if 0 <= i < s.len() && is_block_char(s[i]) {
        lemma_block_end(s, i + 1);
    }
}

pub proof fn lemma_heading_end(s: Seq<char>, i: int)
    requires
        0 <= i,
    ensures
        i <= heading_end(s, i),
        heading_end(s, i) <= s.len() || heading_end(s, i) == i,
    decreases s.len() - i,
{
    if 0 <= i < s.len() && is_heading_char(s[i]) {
        lemma_heading_end(s, i + 1);
    }
}

pub proof fn lemma_alias_tail(s: Seq<char>, y: int)
    requires
        0 <= y,
    ensures
        alias_tail(s, y) matches Some((a, end)) ==> y + 2 <= end <= s.len() && (a matches Some(
            (lo, hi),
        ) ==> y < lo <= hi <= end),
{
    if 0 <= y < s.len() && s[y] == '|' {
        lemma_nb_end(s, y + 1);
    }
}

pub proof fn lemma_heading_tail(s: Seq<char>, x: int)
    requires
        0 <= x,
    ensures
        heading_tail(s, x) matches Some((h, a, end)) ==> x + 2 <= end <= s.len() && (h matches Some(
            (lo, hi),
        ) ==> x < lo <= hi <= end) && (a matches Some((lo, hi)) ==> x < lo <= hi <= end),
{
    if 0 <= x < s.len() && s[x] == '#' {
        lemma_heading_end(s, x + 1);
        lemma_alias_tail(s, heading_end(s, x + 1));
    } else {
        lemma_alias_tail(s, x);
    }
}

pub proof fn lemma_link_body(s: Seq<char>, p: int)
    requires
        0 <= p,
    ensures
        link_body(s, p) matches Some((tg, b, t)) ==> p + 2 < tg.1 && tg.0 == p + 2 && tg.1 + 2
            <= t.2 <= s.len() && (b matches Some((lo, hi)) ==> tg.1 < lo <= hi <= t.2) && (
        t.0 matches Some((lo, hi)) ==> tg.1 < lo <= hi <= t.2) && (t.1 matches Some((lo, hi))
            ==> tg.1 < lo <= hi <= t.2),
{
    if 0 <= p && p + 1 < s.len() && s[p] == '[' && s[p + 1] == '[' {
        lemma_target_end(s, p + 2);
        let te = target_end(s, p + 2);
        if te + 1 < s.len() && s[te] == '#' && s[te + 1] == '^' {
            lemma_block_end(s, te + 2);
            lemma_heading_tail(s, block_end(s, te + 2));
        }
        lemma_heading_tail(s, te);
    }
}

pub proof fn lemma_link_at(s: Seq<char>, i: int)
    requires
        0 <= i,
    ensures
        link_at(s, i) matches Some(m) ==> m.0 == i && i < m.2.0 < m.2.1 && m.2.1 + 2 <= m.6 <= s.len()
            && (m.3 matches Some((lo, hi)) ==> m.2.1 < lo <= hi <= m.6) && (m.4 matches Some(
            (lo, hi),
        ) ==> m.2.1 < lo <= hi <= m.6) && (m.5 matches Some((lo, hi)) ==> m.2.1 < lo <= hi
            <= m.6),
{
    if 0 <= i < s.len() && s[i] == '!' {
        lemma_link_body(s, i + 1);
    } else {
        lemma_link_body(s, i);
    }
}

/// Every occurrence found from `i` is a link at its own start.
pub proof fn lemma_links_from_valid(s: Seq<char>, i: int)
    requires
        0 <= i,
    ensures
        forall|a: int|
            0 <= a < links_from(s, i).len() ==> link_at(s, (#[trigger] links_from(s, i)[a]).0)
                == Some(links_from(s, i)[a]) && i <= links_from(s, i)[a].0,
    decreases s.len() - i,
{
    if i < s.len() {
        match link_at(s, i) {
            Some(m) => {
                lemma_link_at(s, i);
                lemma_links_from_valid(s, m.6);
                let t = links_from(s, m.6);
                assert forall|a: int| 0 <= a < links_from(s, i).len() implies link_at(
                    s,
                    (#[trigger] links_from(s, i)[a]).0,
                ) == Some(links_from(s, i)[a]) && i <= links_from(s, i)[a].0 by {
                    if a > 0 {
                        assert(links_from(s, i)[a] == t[a - 1]);
                    }
                }
            },
            None => {
                lemma_links_from_valid(s, i + 1);
            },
        }
    }
}

/// Every kept occurrence is one of `ms`.
pub proof fn lemma_keep_links_sub(s: Seq<char>, ms: Seq<LinkM>, kind: Option<bool>)
    ensures
        forall|a: int|
            0 <= a < keep_links(s, ms, kind).len() ==> ms.contains(
                #[trigger] keep_links(s, ms, kind)[a],
            ),
    decreases ms.len(),
{
    if ms.len() > 0 {
        let d = ms.drop_last();
        lemma_keep_links_sub(s, d, kind);
        let k0 = keep_links(s, d, kind);
        assert forall|a: int| 0 <= a < keep_links(s, ms, kind).len() implies ms.contains(
            #[trigger] keep_links(s, ms, kind)[a],
        ) by {
            if a < k0.len() {
                assert(keep_links(s, ms, kind)[a] == k0[a]);
                let j = choose|j: int| 0 <= j < d.len() && d[j] == k0[a];
                assert(ms[j] == d[j]);
            } else {
                assert(ms[ms.len() - 1] == ms.last());
            }
        }
    }
}

/// Every link occurrence of a text is a link at its start.
pub proof fn lemma_link_occ_valid(s: Seq<char>, kind: Option<bool>)
    ensures
        forall|a: int|
            0 <= a < link_occ(s, kind).len() ==> link_at(s, (#[trigger] link_occ(s, kind)[a]).0)
                == Some(link_occ(s, kind)[a]),
{
    lemma_links_from_valid(s, 0);
    lemma_keep_links_sub(s, links_from(s, 0), kind);
    let ms = links_from(s, 0);
    assert forall|a: int| 0 <= a < link_occ(s, kind).len() implies link_at(
        s,
        (#[trigger] link_occ(s, kind)[a]).0,
    ) == Some(link_occ(s, kind)[a]) by {
        assert(ms.contains(link_occ(s, kind)[a]));
        let j = choose|j: int| 0 <= j < ms.len() && ms[j] == link_occ(s, kind)[a];
        assert(link_at(s, ms[j].0) == Some(ms[j]));
    }
}

// ---------------------------------------------------------------------------
// Executable parsing
// ---------------------------------------------------------------------------

/// A link occurrence with machine offsets.
#[derive(Clone, Copy)]
struct LinkOcc {
    start: usize,
    embed: bool,
    target: (usize, usize),
    block: Option<(usize, usize)>,
    heading: Option<(usize, usize)>,
    alias: Option<(usize, usize)>,
    end: usize,
}

spec fn span_view(o: Option<(usize, usize)>) -> Option<Span> {
    match o {
        Some((a, b)) => Some((a as int, b as int)),
        None => None,
    }
}

spec fn occ_view(o: LinkOcc) -> LinkM {
    (
        o.start as int,
        o.embed,
        (o.target.0 as int, o.target.1 as int),
        span_view(o.block),
        span_view(o.heading),
        span_view(o.alias),
        o.end as int,
    )
}

spec fn occs_view(v: Seq<LinkOcc>) -> Seq<LinkM> {
    v.map_values(|o: LinkOcc| occ_view(o))
}

fn target_end_exec(s: &Vec<char>, i: usize) -> (r: usize)
    requires
        i <= s@.len(),
    ensures
        r == target_end(s@, i as int),
        i <= r <= s@.len(),
{
    let mut k = i;
    while k < s.len() && s[k] != ']' && s[k] != '|' && s[k] != '#'
        invariant
            i <= k <= s@.len(),
            target_end(s@, i as int) == target_end(s@, k as int),
        decreases s@.len() - k,
    {
        k = k + 1;
    }
    k
}

fn block_end_exec(s: &Vec<char>, i: usize) -> (r: usize)
    requires
        i <= s@.len(),
    ensures
        r == block_end(s@, i as int),
        i <= r <= s@.len(),
{
    let mut k = i;
    while k < s.len() && (('a' <= s[k] && s[k] <= 'z') || ('A' <= s[k] && s[k] <= 'Z') || ('0'
        <= s[k] && s[k] <= '9') || s[k] == '_' || s[k] == '-')
        invariant
            i <= k <= s@.len(),
            block_end(s@, i as int) == block_end(s@, k as int),
        decreases s@.len() - k,
    {
        k = k + 1;
    }
    k
}

fn heading_end_exec(s: &Vec<char>, i: usize) -> (r: usize)
    requires
        i <= s@.len(),
    ensures
        r == heading_end(s@, i as int),
        i <= r <= s@.len(),
{
    let mut k = i;
    while k < s.len() && s[k] != ']' && s[k] != '|'
        invariant
            i <= k <= s@.len(),
            heading_end(s@, i as int) == heading_end(s@, k as int),
        decreases s@.len() - k,
    {
        k = k + 1;
    }
    k
}

fn closes_at(s: &Vec<char>, p: usize) -> (r: bool)
    ensures
        r == brackets2_at(s@, p as int),
{
    p < s.len() && p + 1 < s.len() && s[p] == ']' && s[p + 1] == ']'
}

fn alias_tail_exec(s: &Vec<char>, y: usize) -> (r: Option<(Option<(usize, usize)>, usize)>)
    requires
        y <= s@.len(),
    ensures
        match r {
            Some((a, end)) => alias_tail(s@, y as int) == Some((span_view(a), end as int)),
            None => alias_tail(s@, y as int) is None,
        },
{
    if y < s.len() && s[y] == '|' {
        let e = nb_end_exec(s, y + 1);
        if e > y + 1 && closes_at(s, e) {
            Some((Some((y + 1, e)), e + 2))
        } else {
            None
        }
    } else if closes_at(s, y) {
        Some((None, y + 2))
    } else {
        None
    }
}

fn heading_tail_exec(s: &Vec<char>, x: usize) -> (r: Option<
    (Option<(usize, usize)>, Option<(usize, usize)>, usize),
>)
    requires
        x <= s@.len(),
    ensures
        match r {
            Some((h, a, end)) => heading_tail(s@, x as int) == Some(
                (span_view(h), span_view(a), end as int),
            ),
            None => heading_tail(s@, x as int) is None,
        },
{
    if x < s.len() && s[x] == '#' {
        let e = heading_end_exec(s, x + 1);
        if e > x + 1 {
            match alias_tail_exec(s, e) {
                Some((a, end)) => Some((Some((x + 1, e)), a, end)),
                None => None,
            }
        } else {
            None
        }
    } else {
        match alias_tail_exec(s, x) {
            Some((a, end)) => Some((None, a, end)),
            None => None,
        }
    }
}

fn link_body_exec(s: &Vec<char>, p: usize) -> (r: Option<
    ((usize, usize), Option<(usize, usize)>, (Option<(usize, usize)>, Option<(usize, usize)>, usize)),
>)
    requires
        p <= s@.len(),
    ensures
        match r {
            Some((tg, b, t)) => link_body(s@, p as int) == Some(
                (
                    (tg.0 as int, tg.1 as int),
                    span_view(b),
                    (span_view(t.0), span_view(t.1), t.2 as int),
                ),
            ),
            None => link_body(s@, p as int) is None,
        },
{
    if !(p < s.len() && p + 1 < s.len() && s[p] == '[' && s[p + 1] == '[') {
        return None;
    }
    let te = target_end_exec(s, p + 2);
    if te == p + 2 {
        return None;
    }
    let mut block: Option<((usize, usize), (Option<(usize, usize)>, Option<(usize, usize)>, usize))> =
        None;
    if te < s.len() && te + 1 < s.len() && s[te] == '#' && s[te + 1] == '^' {
        let be = block_end_exec(s, te + 2);
        if be > te + 2 {
            match heading_tail_exec(s, be) {
                Some(t) => {
                    block = Some(((te + 2, be), t));
                },
                None => {},
            }
        }
    }
    proof {
        match block {
            Some((b, t)) => {
                assert(block_tail(s@, te as int) == Some(
                    ((b.0 as int, b.1 as int), (span_view(t.0), span_view(t.1), t.2 as int)),
                ));
            },
            None => {
                assert(block_tail(s@, te as int) is None);
            },
        }
    }
    match block {
        Some((b, t)) => Some(((p + 2, te), Some(b), t)),
        None => match heading_tail_exec(s, te) {
            Some(t) => Some(((p + 2, te), None, t)),
            None => None,
        },
    }
}

fn link_at_exec(s: &Vec<char>, i: usize) -> (r: Option<LinkOcc>)
    requires
        i < s@.len(),
    ensures
        match r {
            Some(o) => link_at(s@, i as int) == Some(occ_view(o)),
            None => link_at(s@, i as int) is None,
        },
{
    let n = s.len();
    let embed = s[i] == '!';
    let p = if embed {
        i + 1
    } else {
        i
    };
    match link_body_exec(s, p) {
        Some((tg, b, t)) => Some(
            LinkOcc {
                start: i,
                embed,
                target: tg,
                block: b,
                heading: t.0,
                alias: t.1,
                end: t.2,
            },
        ),
        None => None,
    }
}

/// Link occurrences of a text, leftmost first.
fn link_occurrences(s: &Vec<char>) -> (r: Vec<LinkOcc>)
    ensures
        occs_view(r@) == links_from(s@, 0),
{
    let mut r: Vec<LinkOcc> = Vec::new();
    let mut i: usize = 0;
    while i < s.len()
        invariant
            i <= s@.len(),
            occs_view(r@) + links_from(s@, i as int) == links_from(s@, 0),
        decreases s@.len() - i,
    {
        let ghost before = occs_view(r@);
        match link_at_exec(s, i) {
            Some(o) => {
                proof {
                    lemma_link_at(s@, i as int);
                }
                r.push(o);
                proof {
                    let h = occ_view(o);
                    assert(occs_view(r@) =~= before.push(h));
                    assert(links_from(s@, i as int) == seq![h] + links_from(s@, o.end as int));
                    assert(before.push(h) + links_from(s@, o.end as int) =~= before + (seq![h]
                        + links_from(s@, o.end as int)));
                }
                i = o.end;
            },
            None => {
                i = i + 1;
            },
        }
    }
    proof {
        assert(links_from(s@, i as int) == Seq::<LinkM>::empty());
        assert(occs_view(r@) + Seq::<LinkM>::empty() == occs_view(r@));
    }
    r
}

/// Link occurrences of the wanted kind outside code.
fn link_occurrences_outside_code(s: &Vec<char>, kind: Option<bool>) -> (r: Vec<LinkOcc>)
    ensures
        occs_view(r@) == link_occ(s@, kind),
{
    let code = code_ranges_of(s);
    let ms = link_occurrences(s);
    let ghost mall = links_from(s@, 0);
    let mut r: Vec<LinkOcc> = Vec::new();
    let mut k: usize = 0;
    while k < ms.len()
        invariant
            k <= ms@.len(),
            mall == links_from(s@, 0),
            occs_view(ms@) == mall,
            ranges_view(code@).to_multiset() == code_ranges(s@).to_multiset(),
            occs_view(r@) == keep_links(s@, mall.subrange(0, k as int), kind),
        decreases ms@.len() - k,
    {
        let o = ms[k];
        proof {
            assert(ms@[k as int] == o);
            assert(occs_view(ms@)[k as int] == occ_view(o));
            assert(mall.subrange(0, k + 1).drop_last() =~= mall.subrange(0, k as int));
            assert(mall.subrange(0, k + 1).last() == occ_view(o));
            lemma_in_code_iff(s@, code@, o.start as int);
        }
        let wanted = match kind {
            Some(e) => o.embed == e,
            None => true,
        };
        if !is_in_code_block(o.start, code.as_slice()) && wanted {
            let ghost before = occs_view(r@);
            r.push(o);
            proof {
                assert(occs_view(r@) =~= before.push(occ_view(o)));
            }
        }
        k = k + 1;
    }
    proof {
        assert(mall.subrange(0, k as int) == mall);
    }
    r
}

fn span_string(s: &Vec<char>, o: Option<(usize, usize)>) -> (r: Option<String>)
    requires
        o matches Some((a, b)) ==> a <= b <= s@.len(),
    ensures
        opt_string_view(r) == span_text(s@, span_view(o)),
{
    match o {
        Some((a, b)) => Some(string_of_range(s, a, b)),
        None => None,
    }
}

/// The links of a text of the wanted kind, with the column of each in
/// characters.
pub(crate) fn links_and_cols(s: &Vec<char>, kind: Option<bool>) -> (r: (Vec<Link>, Vec<usize>))
    requires
        utf8_len(s@) <= usize::MAX,
    ensures
        links_of(r.0@, s@, kind),
        r.1@.len() == r.0@.len(),
        forall|a: int|
            0 <= a < r.1@.len() ==> #[trigger] r.1@[a] == link_occ(s@, kind)[a].0 - line_start(
                s@,
                link_occ(s@, kind)[a].0,
            ),
{
    let occ = link_occurrences_outside_code(s, kind);
    proof {
        lemma_link_occ_valid(s@, kind);
    }
    let mut r: Vec<Link> = Vec::new();
    let mut cols: Vec<usize> = Vec::new();
    let mut k: usize = 0;
    while k < occ.len()
        invariant
            k <= occ@.len(),
            utf8_len(s@) <= usize::MAX,
            cols@.len() == k,
            forall|a: int|
                0 <= a < k ==> #[trigger] cols@[a] == link_occ(s@, kind)[a].0 - line_start(
                    s@,
                    link_occ(s@, kind)[a].0,
                ),
            occs_view(occ@) == link_occ(s@, kind),
            forall|a: int|
                0 <= a < link_occ(s@, kind).len() ==> link_at(
                    s@,
                    (#[trigger] link_occ(s@, kind)[a]).0,
                ) == Some(link_occ(s@, kind)[a]),
            r@.len() == k,
            forall|a: int| 0 <= a < k ==> link_describes(#[trigger] r@[a], s@, link_occ(s@, kind)[a]),
        decreases occ@.len() - k,
    {
        let o = occ[k];
        proof {
            assert(occs_view(occ@)[k as int] == occ_view(o));
            assert(link_occ(s@, kind)[k as int] == occ_view(o));
            lemma_link_at(s@, o.start as int);
        }
        let target_chars = trim_range(s, o.target.0, o.target.1);
        let nl = count_char_prefix(s, '\n', o.start);
        let ls = line_start_of(s, o.start);
        let l = Link {
            target: string_of(target_chars.as_slice()),
            alias: span_string(s, o.alias),
            heading: span_string(s, o.heading),
            block_id: span_string(s, o.block),
            embed: o.embed,
            line: nl + 1,
            start_col: crate::text::bytes_between(s, ls, o.start),
            end_col: crate::text::bytes_between(s, ls, o.end),
        };
        let ghost before = r@;
        r.push(l);
        cols.push(o.start - ls);
        proof {
            assert forall|a: int| 0 <= a < k + 1 implies link_describes(
                #[trigger] r@[a],
                s@,
                link_occ(s@, kind)[a],
            ) by {
                if a < k {
                    assert(r@[a] == before[a]);
                }
            }
        }
        k = k + 1;
    }
    (r, cols)
}

/// Parse all wikilinks (not embeds) from content.
pub fn parse_links(content: &str) -> (r: Vec<Link>)
    ensures
        links_of(r@, content@, Some(false)),
{
    let s = chars_of(content);
    let _ = crate::text::byte_len(content);
    links_and_cols(&s, Some(false)).0
}

/// Parse all embeds from content.
pub fn parse_embeds(content: &str) -> (r: Vec<Link>)
    ensures
        links_of(r@, content@, Some(true)),
{
    let s = chars_of(content);
    let _ = crate::text::byte_len(content);
    links_and_cols(&s, Some(true)).0
}

/// Parse all wikilinks and embeds from content.
pub fn parse_all_links(content: &str) -> (r: Vec<Link>)
    ensures
        links_of(r@, content@, None),
{
    let s = chars_of(content);
    let _ = crate::text::byte_len(content);
    links_and_cols(&s, None).0
}

/// A target whose extension (ignoring case) is that of an embeddable media
/// file.
pub open spec fn media_embed_target(target: Seq<char>) -> bool {
    let l = str_lowercase(target);
    has_suffix(l, ".png"@) || has_suffix(l, ".jpg"@) || has_suffix(l, ".jpeg"@) || has_suffix(
        l,
        ".gif"@,
    ) || has_suffix(l, ".webp"@) || has_suffix(l, ".svg"@) || has_suffix(l, ".bmp"@) || has_suffix(
        l,
        ".mp3"@,
    ) || has_suffix(l, ".wav"@) || has_suffix(l, ".ogg"@) || has_suffix(l, ".mp4"@) || has_suffix(
        l,
        ".webm"@,
    ) || has_suffix(l, ".pdf"@)
}

/// Whether an embed target is a media file (image, audio, video, PDF).
pub fn is_media_embed(target: &str) -> (r: bool)
    ensures
        r == media_embed_target(target@),
{
    let l = chars_of(to_lowercase(target).as_str());
    let s = l.as_slice();
    ends_with_str(s, ".png") || ends_with_str(s, ".jpg") || ends_with_str(s, ".jpeg")
        || ends_with_str(s, ".gif") || ends_with_str(s, ".webp") || ends_with_str(s, ".svg")
        || ends_with_str(s, ".bmp") || ends_with_str(s, ".mp3") || ends_with_str(s, ".wav")
        || ends_with_str(s, ".ogg") || ends_with_str(s, ".mp4") || ends_with_str(s, ".webm")
        || ends_with_str(s, ".pdf")
}

pub open spec fn opt_part(prefix: Seq<char>, o: Option<String>) -> Seq<char> {
    match o {
        Some(t) => prefix + t@,
        None => Seq::empty(),
    }
}

/// The text of a wikilink: `!` for an embed, `[[`, the target, `#heading`,
/// `#^block`, `|alias`, `]]`.
pub open spec fn wikilink_text(l: Link) -> Seq<char> {
    (if l.embed {
        seq!['!']
    } else {
        Seq::empty()
    }) + seq!['[', '['] + l.target@ + opt_part(seq!['#'], l.heading) + opt_part(
        seq!['#', '^'],
        l.block_id,
    ) + opt_part(seq!['|'], l.alias) + seq![']', ']']
}

fn push_opt(r: &mut String, prefix: &Vec<char>, o: &Option<String>)
    ensures
        final(r)@ == old(r)@ + opt_part(prefix@, *o),
{
    match o {
        Some(t) => {
            push_str_chars(r, prefix.as_slice());
            let tc = chars_of(t.as_str());
            push_str_chars(r, tc.as_slice());
        },
        None => {
            assert(old(r)@ + Seq::<char>::empty() =~= old(r)@);
        },
    }
}

/// Format a wikilink as a string.
pub fn format_wikilink(link: &Link) -> (r: String)
    ensures
        r@ == wikilink_text(*link),
{
    let mut r = String::new();
    if link.embed {
        push_char(&mut r, '!');
    }
    push_char(&mut r, '[');
    push_char(&mut r, '[');
    let tc = chars_of(link.target.as_str());
    push_str_chars(&mut r, tc.as_slice());
    let hash: Vec<char> = vec!['#'];
    push_opt(&mut r, &hash, &link.heading);
    let caret: Vec<char> = vec!['#', '^'];
    push_opt(&mut r, &caret, &link.block_id);
    let bar: Vec<char> = vec!['|'];
    push_opt(&mut r, &bar, &link.alias);
    push_char(&mut r, ']');
    push_char(&mut r, ']');
    proof {
        let e: Seq<char> = if link.embed {
            seq!['!']
        } else {
            Seq::empty()
        };
        assert(r@ =~= wikilink_text(*link));
    }
    r
}

} // verus!
