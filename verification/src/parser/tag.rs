//! Tags: `#tag` and `#tag/subtag`.

use vstd::prelude::*;
use crate::parser::code_block::{code_ranges, code_ranges_of, in_code, is_in_code_block, line_of, ranges_view};
use crate::parser::inline_property::{lemma_in_code_iff, line_start, line_start_of};
use crate::str_map::StrMap;
use crate::text::{
    alphanumeric, chars_of, count_char_prefix, find_from, find_seq_from, is_alphanumeric,
    is_ascii_alpha, is_word, is_word_char, pat2, push_char, push_str_chars, string_of_range, utf8_len,
};
use crate::types::{name_without_hash, Tag};

verus! {

/// A character that may start a tag name.
pub open spec fn is_tag_start(c: char) -> bool {
    is_ascii_alpha(c) || c == '_'
}

/// A character that may continue a tag name.
pub open spec fn is_tag_char(c: char) -> bool {
    is_word(c) || c == '/' || c == '-'
}

/// End of the run of tag characters from `i`.
pub open spec fn tag_end(s: Seq<char>, i: int) -> int
    decreases s.len() - i,
{
    if 0 <= i < s.len() && is_tag_char(s[i]) {
        tag_end(s, i + 1)
    } else {
        i
    }
}

/// A tag match starting at `p`: the offset of its `#` and the end of its
/// name. The `#` opens the text, or follows a character that is neither a
/// word character nor `&`; the name starts with a letter or `_`.
pub open spec fn tag_at(s: Seq<char>, p: int) -> Option<(int, int)> {
    if p == 0 && 1 < s.len() && s[0] == '#' && is_tag_start(s[1]) {
        Some((0, tag_end(s, 2)))
    } else if 0 <= p && p + 2 < s.len() && !is_word(s[p]) && s[p] != '&' && s[p + 1] == '#'
        && is_tag_start(s[p + 2]) {
        Some((p + 1, tag_end(s, p + 3)))
    } else {
        None
    }
}

/// Tag matches from `p`, leftmost first, without overlap.
pub open spec fn tags_from(s: Seq<char>, p: int) -> Seq<(int, int)>
    decreases s.len() - p,
{
    if p < 0 || p >= s.len() {
        Seq::empty()
    } else {
        match tag_at(s, p) {
            Some((h, e)) => {
                proof {
                    lemma_tag_at(s, p);
                }
                seq![(h, e)] + tags_from(s, e)
            },
            None => tags_from(s, p + 1),
        }
    }
}

/// The last offset `j <= i` where `a` is followed by `b`.
pub open spec fn last_pair(s: Seq<char>, a: char, b: char, i: int) -> Option<int>
    decreases i + 1,
{
    if i < 0 {
        None
    } else if i + 1 < s.len() && s[i] == a && s[i + 1] == b {
        Some(i)
    } else {
        last_pair(s, a, b, i - 1)
    }
}

/// The offset `pos` lies between a `[[` and a `]]`: the last `[[` before it
/// comes after the last `]]` before it, and a `]]` follows.
pub open spec fn in_wikilink(s: Seq<char>, pos: int) -> bool {
    let open = last_pair(s, '[', '[', pos - 2);
    let close = last_pair(s, ']', ']', pos - 2);
    let closes_after = find_from(s, seq![']', ']'], pos) is Some;
    match (open, close) {
        (Some(o), Some(c)) => o > c && closes_after,
        (Some(_), None) => closes_after,
        _ => false,
    }
}

/// The name is followed by a character that would continue a word.
pub open spec fn runs_on(s: Seq<char>, e: int) -> bool {
    0 <= e < s.len() && (is_alphanumeric(s[e]) || s[e] == '_' || s[e] == '/')
}

/// A tag match that counts: not running on, not in code, not in a wikilink.
pub open spec fn tag_kept(s: Seq<char>, m: (int, int)) -> bool {
    !runs_on(s, m.1) && !in_code(s, m.0) && !in_wikilink(s, m.0)
}

/// The matches of `ms` that count.
pub open spec fn keep_tags(s: Seq<char>, ms: Seq<(int, int)>) -> Seq<(int, int)>
    decreases ms.len(),
{
    if ms.len() == 0 {
        Seq::empty()
    } else {
        let rest = keep_tags(s, ms.drop_last());
        if tag_kept(s, ms.last()) {
            rest.push(ms.last())
        } else {
            rest
        }
    }
}

/// The tag occurrences of a text: the offset of `#` and the end of the name.
pub open spec fn tag_occ(s: Seq<char>) -> Seq<(int, int)> {
    keep_tags(s, tags_from(s, 0))
}

/// The tag `t` is the one that the occurrence `m` of `s` describes.
pub open spec fn tag_describes(t: Tag, s: Seq<char>, m: (int, int)) -> bool {
    &&& t.name@ == s.subrange(m.0, m.1)
    &&& t.line == line_of(s, m.0)
    &&& t.start_col == utf8_len(s.subrange(line_start(s, m.0), m.0))
    &&& t.end_col == utf8_len(s.subrange(line_start(s, m.0), m.1))
}

/// `r` lists the tags of `s`, in order.
pub open spec fn tags_of(r: Seq<Tag>, s: Seq<char>) -> bool {
    &&& r.len() == tag_occ(s).len()
    &&& forall|k: int| 0 <= k < r.len() ==> tag_describes(#[trigger] r[k], s, tag_occ(s)[k])
}

// ---------------------------------------------------------------------------
// Lemmas
// ---------------------------------------------------------------------------

pub proof fn lemma_tag_end(s: Seq<char>, i: int)
    requires
        0 <= i,
    ensures
        i <= tag_end(s, i),
        tag_end(s, i) <= s.len() || tag_end(s, i) == i,
    decreases s.len() - i,
{
    if 0 <= i < s.len() && is_tag_char(s[i]) {
        lemma_tag_end(s, i + 1);
    }
}

pub proof fn lemma_tag_at(s: Seq<char>, p: int)
    requires
        0 <= p,
    ensures
        tag_at(s, p) matches Some((h, e)) ==> p <= h && h + 2 <= e <= s.len() && s[h] == '#',
{
    lemma_tag_end(s, 2);
    lemma_tag_end(s, p + 3);
}

proof fn lemma_tag_end_run(s: Seq<char>, i: int, j: int)
    requires
        0 <= i <= j <= s.len(),
        forall|k: int| i <= k < j ==> is_tag_char(#[trigger] s[k]),
        j == s.len() || !is_tag_char(s[j]),
    ensures
        tag_end(s, i) == j,
    decreases j - i,
{
    if i < j {
        lemma_tag_end_run(s, i + 1, j);
    }
}

proof fn lemma_tags_from_skip(s: Seq<char>, p: int, q: int)
    requires
        0 <= p <= q <= s.len(),
        forall|i: int| p <= i < q ==> #[trigger] tag_at(s, i) is None,
    ensures
        tags_from(s, p) == tags_from(s, q),
    decreases q - p,
{
    if p < q {
        assert(tag_at(s, p) is None);
        lemma_tags_from_skip(s, p + 1, q);
    }
}

proof fn lemma_keep_tags_cons(s: Seq<char>, x: (int, int), rest: Seq<(int, int)>)
    ensures
        keep_tags(s, seq![x] + rest) == (if tag_kept(s, x) {
            seq![x]
        } else {
            Seq::<(int, int)>::empty()
        }) + keep_tags(s, rest),
    decreases rest.len(),
{
    if rest.len() == 0 {
        assert(seq![x] + rest =~= seq![x]);
        assert(seq![x].drop_last() =~= Seq::<(int, int)>::empty());
        assert(keep_tags(s, Seq::<(int, int)>::empty()) == Seq::<(int, int)>::empty());
        if tag_kept(s, x) {
            assert(Seq::<(int, int)>::empty().push(x) =~= seq![x]);
        }
        assert(keep_tags(s, seq![x]) =~= (if tag_kept(s, x) {
            seq![x]
        } else {
            Seq::<(int, int)>::empty()
        }) + Seq::<(int, int)>::empty());
    } else {
        lemma_keep_tags_cons(s, x, rest.drop_last());
        assert((seq![x] + rest).drop_last() =~= seq![x] + rest.drop_last());
        assert((seq![x] + rest).last() == rest.last());
        let pre: Seq<(int, int)> = if tag_kept(s, x) {
            seq![x]
        } else {
            Seq::<(int, int)>::empty()
        };
        if tag_kept(s, rest.last()) {
            assert((pre + keep_tags(s, rest.drop_last())).push(rest.last()) =~= pre + keep_tags(s, rest.drop_last()).push(
                rest.last(),
            ));
        }
    }
}

/// The match `m` of `s` has the shape of a tag: a `#` that opens the text
/// or follows a character that is neither a word character nor `&`, then a
/// letter or `_`, then tag characters up to the first character that is
/// not one.
pub open spec fn tag_shaped(s: Seq<char>, m: (int, int)) -> bool {
    &&& 0 <= m.0 && m.0 + 2 <= m.1 <= s.len()
    &&& s[m.0] == '#'
    &&& is_tag_start(s[m.0 + 1])
    &&& (forall|k: int| m.0 + 1 <= k < m.1 ==> is_tag_char(#[trigger] s[k]))
    &&& (m.1 == s.len() || !is_tag_char(s[m.1]))
    &&& (m.0 == 0 || (!is_word(s[m.0 - 1]) && s[m.0 - 1] != '&'))
}

proof fn lemma_tag_end_props(s: Seq<char>, i: int)
    requires
        0 <= i,
    ensures
        forall|k: int| i <= k < tag_end(s, i) ==> is_tag_char(#[trigger] s[k]),
        tag_end(s, i) >= s.len() || !is_tag_char(s[tag_end(s, i)]),
        tag_end(s, i) == i || tag_end(s, i) <= s.len(),
    decreases s.len() - i,
{
    if 0 <= i < s.len() && is_tag_char(s[i]) {
        lemma_tag_end_props(s, i + 1);
    }
}

proof fn lemma_tag_at_shaped(s: Seq<char>, p: int)
    requires
        0 <= p,
        tag_at(s, p) is Some,
    ensures
        tag_shaped(s, tag_at(s, p)->0),
{
    lemma_tag_at(s, p);
    assert(is_word('_'));
    if p == 0 && 1 < s.len() && s[0] == '#' && is_tag_start(s[1]) {
        lemma_tag_end_props(s, 2);
    } else {
        lemma_tag_end_props(s, p + 3);
    }
}

proof fn lemma_tags_from_shaped(s: Seq<char>, p: int)
    requires
        0 <= p,
    ensures
        forall|a: int| 0 <= a < tags_from(s, p).len() ==> tag_shaped(s, #[trigger] tags_from(s, p)[a]),
        forall|a: int| 0 <= a < tags_from(s, p).len() ==> p <= (#[trigger] tags_from(s, p)[a]).0,
        forall|a: int, b: int| 0 <= a < b < tags_from(s, p).len() ==> (#[trigger] tags_from(s, p)[a]).1 <= (#[trigger] tags_from(s, p)[b]).0,
    decreases s.len() - p,
{
    if p < s.len() {
        match tag_at(s, p) {
            Some((h, e)) => {
                lemma_tag_at(s, p);
                lemma_tag_at_shaped(s, p);
                lemma_tags_from_shaped(s, e);
                let t = tags_from(s, e);
                assert(tags_from(s, p) == seq![(h, e)] + t);
                assert(tags_from(s, p)[0] == (h, e));
                assert(tag_shaped(s, (h, e)));
                assert forall|a: int| 0 <= a < tags_from(s, p).len() implies tag_shaped(s, #[trigger] tags_from(s, p)[a]) by {
                    if a > 0 {
                        assert(tags_from(s, p)[a] == t[a - 1]);
                    }
                }
                assert forall|a: int| 0 <= a < tags_from(s, p).len() implies p <= (#[trigger] tags_from(s, p)[a]).0 by {
                    if a > 0 {
                        assert(tags_from(s, p)[a] == t[a - 1]);
                    }
                }
                assert forall|a: int, b: int| 0 <= a < b < tags_from(s, p).len() implies (#[trigger] tags_from(s, p)[a]).1
                    <= (#[trigger] tags_from(s, p)[b]).0 by {
                    assert(tags_from(s, p)[b] == t[b - 1]);
                    if a > 0 {
                        assert(tags_from(s, p)[a] == t[a - 1]);
                    }
                }
            },
            None => {
                lemma_tags_from_shaped(s, p + 1);
                assert(tags_from(s, p) == tags_from(s, p + 1));
            },
        }
    }
}

proof fn lemma_keep_tags_kept(s: Seq<char>, ms: Seq<(int, int)>)
    ensures
        forall|a: int|
            0 <= a < keep_tags(s, ms).len() ==> tag_kept(s, #[trigger] keep_tags(s, ms)[a]) && exists|b: int|
                0 <= b < ms.len() && ms[b] == keep_tags(s, ms)[a],
        forall|a: int, c: int|
            0 <= a < c < keep_tags(s, ms).len() ==> exists|b: int, d: int|
                0 <= b < d < ms.len() && ms[b] == #[trigger] keep_tags(s, ms)[a] && ms[d] == #[trigger] keep_tags(s, ms)[c],
    decreases ms.len(),
{
    if ms.len() > 0 {
        let init = ms.drop_last();
        lemma_keep_tags_kept(s, init);
        let r = keep_tags(s, init);
        let k = keep_tags(s, ms);
        assert forall|a: int| 0 <= a < k.len() implies tag_kept(s, #[trigger] k[a]) && exists|b: int| 0 <= b < ms.len() && ms[b] == k[a] by {
            if a < r.len() {
                assert(k[a] == r[a]);
                let b = choose|b: int| 0 <= b < init.len() && init[b] == r[a];
                assert(ms[b] == init[b]);
            } else {
                assert(k[a] == ms.last());
                assert(ms[ms.len() - 1] == ms.last());
            }
        }
        assert forall|a: int, c: int| 0 <= a < c < k.len() implies exists|b: int, d: int|
            0 <= b < d < ms.len() && ms[b] == #[trigger] k[a] && ms[d] == #[trigger] k[c] by {
            if c < r.len() {
                assert(k[a] == r[a] && k[c] == r[c]);
                let (b, d) = choose|b: int, d: int| 0 <= b < d < init.len() && init[b] == #[trigger] r[a] && init[d] == #[trigger] r[c];
                assert(ms[b] == init[b] && ms[d] == init[d]);
            } else {
                assert(k[c] == ms.last());
                assert(k[a] == r[a]);
                let b = choose|b: int| 0 <= b < init.len() && init[b] == r[a];
                assert(ms[b] == init[b]);
                assert(ms[ms.len() - 1] == ms.last());
            }
        }
    }
}

/// Every tag found has the shape of a tag (see `tag_shaped`), lies outside
/// code and wikilinks, does not run on into a word, and the tags come in
/// order of position without overlap.
pub proof fn law_tags_are_shaped(s: Seq<char>)
    ensures
        forall|a: int| 0 <= a < tag_occ(s).len() ==> tag_shaped(s, #[trigger] tag_occ(s)[a]) && tag_kept(s, tag_occ(s)[a]),
        forall|a: int, c: int| 0 <= a < c < tag_occ(s).len() ==> (#[trigger] tag_occ(s)[a]).1 <= (#[trigger] tag_occ(s)[c]).0,
{
    lemma_tags_from_shaped(s, 0);
    lemma_keep_tags_kept(s, tags_from(s, 0));
    let ms = tags_from(s, 0);
    let k = tag_occ(s);
    assert forall|a: int| 0 <= a < k.len() implies tag_shaped(s, #[trigger] k[a]) && tag_kept(s, k[a]) by {
        let b = choose|b: int| 0 <= b < ms.len() && ms[b] == k[a];
        assert(tag_shaped(s, ms[b]));
    }
    assert forall|a: int, c: int| 0 <= a < c < k.len() implies (#[trigger] k[a]).1 <= (#[trigger] k[c]).0 by {
        let (b, d) = choose|b: int, d: int| 0 <= b < d < ms.len() && ms[b] == #[trigger] k[a] && ms[d] == #[trigger] k[c];
        assert(ms[b].1 <= ms[d].0);
    }
}

/// A `#` followed by a letter or `_` opens a tag when the character before
/// it is neither a word character nor `&` (a space, `(`, `,`, ...), not only
/// after whitespace: in a text with no `#` before that character, the first
/// tag is that one, and its name runs to the end of the tag characters
/// (outside code and wikilinks, and when the name does not run on).
pub proof fn law_tag_after_punctuation(s: Seq<char>, pre: Seq<char>, c: char, name: Seq<char>, post: Seq<char>)
    requires
        s == pre + seq![c, '#'] + name + post,
        forall|i: int| 0 <= i < pre.len() ==> pre[i] != '#',
        !is_word(c),
        c != '&',
        c != '#',
        name.len() > 0,
        is_tag_start(name[0]),
        forall|i: int| 0 <= i < name.len() ==> is_tag_char(#[trigger] name[i]),
        post.len() == 0 || (!is_tag_char(post[0]) && !is_alphanumeric(post[0])),
        !in_code(s, pre.len() + 1int),
        !in_wikilink(s, pre.len() + 1int),
    ensures
        tag_occ(s).len() > 0,
        tag_occ(s)[0] == (pre.len() + 1int, pre.len() + 2 + name.len() as int),
{
    let n = pre.len() as int;
    let e = n + 2 + name.len();
    assert forall|k: int| 0 <= k < n implies s[k] == pre[k] by {}
    assert(s[n] == c);
    assert(s[n + 1] == '#');
    assert forall|k: int| 0 <= k < name.len() implies s[n + 2 + k] == name[k] by {}
    assert forall|k: int| 0 <= k < post.len() implies s[e + k] == post[k] by {}
    assert(s.len() == e + post.len());
    assert forall|i: int| 0 <= i < n implies #[trigger] tag_at(s, i) is None by {
        if i + 1 < n {
            assert(s[i + 1] == pre[i + 1]);
        }
        if i == 0 {
            assert(s[0] == pre[0]);
        }
    }
    lemma_tags_from_skip(s, 0, n);
    assert forall|k: int| n + 3 <= k < e implies is_tag_char(#[trigger] s[k]) by {
        assert(s[k] == name[k - n - 2]);
    }
    if post.len() > 0 {
        assert(s[e] == post[0]);
    }
    lemma_tag_end_run(s, n + 3, e);
    assert(s[n + 2] == name[0]);
    assert(tag_at(s, n) == Some((n + 1, e)));
    lemma_tag_at(s, n);
    let rest = tags_from(s, e);
    assert(tags_from(s, n) == seq![(n + 1, e)] + rest);
    assert(is_word('_'));
    assert(!runs_on(s, e));
    assert(tag_kept(s, (n + 1, e)));
    lemma_keep_tags_cons(s, (n + 1, e), rest);
}

/// Every match found from `p` has `#` at its start and lies in the text.
pub proof fn lemma_tags_from_valid(s: Seq<char>, p: int)
    requires
        0 <= p,
    ensures
        forall|a: int|
            0 <= a < tags_from(s, p).len() ==> 0 <= (#[trigger] tags_from(s, p)[a]).0 && tags_from(
                s,
                p,
            )[a].0 + 2 <= tags_from(s, p)[a].1 <= s.len() && s[tags_from(s, p)[a].0] == '#',
    decreases s.len() - p,
{
    if p < s.len() {
        match tag_at(s, p) {
            Some((h, e)) => {
                lemma_tag_at(s, p);
                lemma_tags_from_valid(s, e);
                let t = tags_from(s, e);
                assert(tags_from(s, p) == seq![(h, e)] + t);
                assert forall|a: int| 0 <= a < tags_from(s, p).len() implies 0 <= (
                #[trigger] tags_from(s, p)[a]).0 && tags_from(s, p)[a].0 + 2 <= tags_from(
                    s,
                    p,
                )[a].1 <= s.len() && s[tags_from(s, p)[a].0] == '#' by {
                    if a > 0 {
                        assert(tags_from(s, p)[a] == t[a - 1]);
                    } else {
                        assert(tags_from(s, p)[a] == (h, e));
                    }
                }
            },
            None => {
                lemma_tags_from_valid(s, p + 1);
                assert(tags_from(s, p) == tags_from(s, p + 1));
            },
        }
    }
}

/// Every kept match is one of `ms`.
pub proof fn lemma_keep_tags_sub(s: Seq<char>, ms: Seq<(int, int)>)
    ensures
        forall|a: int| 0 <= a < keep_tags(s, ms).len() ==> ms.contains(#[trigger] keep_tags(s, ms)[a]),
    decreases ms.len(),
{
    if ms.len() > 0 {
        let d = ms.drop_last();
        lemma_keep_tags_sub(s, d);
        let k0 = keep_tags(s, d);
        assert forall|a: int| 0 <= a < keep_tags(s, ms).len() implies ms.contains(
            #[trigger] keep_tags(s, ms)[a],
        ) by {
            if a < k0.len() {
                assert(keep_tags(s, ms)[a] == k0[a]);
                let j = choose|j: int| 0 <= j < d.len() && d[j] == k0[a];
                assert(ms[j] == d[j]);
            } else {
                assert(ms[ms.len() - 1] == ms.last());
            }
        }
    }
}

pub proof fn lemma_tag_occ_valid(s: Seq<char>)
    ensures
        forall|a: int|
            0 <= a < tag_occ(s).len() ==> 0 <= (#[trigger] tag_occ(s)[a]).0 && tag_occ(s)[a].0 + 2
                <= tag_occ(s)[a].1 <= s.len(),
{
    lemma_tags_from_valid(s, 0);
    lemma_keep_tags_sub(s, tags_from(s, 0));
    let ms = tags_from(s, 0);
    assert forall|a: int| 0 <= a < tag_occ(s).len() implies 0 <= (#[trigger] tag_occ(s)[a]).0
        && tag_occ(s)[a].0 + 2 <= tag_occ(s)[a].1 <= s.len() by {
        assert(ms.contains(tag_occ(s)[a]));
    }
}

// ---------------------------------------------------------------------------
// Executable parsing
// ---------------------------------------------------------------------------

fn tag_end_exec(s: &Vec<char>, i: usize) -> (r: usize)
    requires
        i <= s@.len(),
    ensures
        r == tag_end(s@, i as int),
        i <= r <= s@.len(),
{
    let mut k = i;
    while k < s.len() && (is_word_char(s[k]) || s[k] == '/' || s[k] == '-')
        invariant
            i <= k <= s@.len(),
            tag_end(s@, i as int) == tag_end(s@, k as int),
        decreases s@.len() - k,
    {
        k = k + 1;
    }
    k
}

fn tag_start_char(c: char) -> (r: bool)
    ensures
        r == is_tag_start(c),
{
    ('a' <= c && c <= 'z') || ('A' <= c && c <= 'Z') || c == '_'
}

fn tag_at_exec(s: &Vec<char>, p: usize) -> (r: Option<(usize, usize)>)
    requires
        p < s@.len(),
    ensures
        match r {
            Some((h, e)) => tag_at(s@, p as int) == Some((h as int, e as int)),
            None => tag_at(s@, p as int) is None,
        },
{
    let n = s.len();
    if p == 0 && 1 < n && s[0] == '#' && tag_start_char(s[1]) {
        return Some((0, tag_end_exec(s, 2)));
    }
    if n >= 3 && p < n - 2 && !is_word_char(s[p]) && s[p] != '&' && s[p + 1] == '#' && tag_start_char(
        s[p + 2],
    ) {
        Some((p + 1, tag_end_exec(s, p + 3)))
    } else {
        None
    }
}

fn tag_matches(s: &Vec<char>) -> (r: Vec<(usize, usize)>)
    ensures
        pairs_of(r@) == tags_from(s@, 0),
{
    let mut r: Vec<(usize, usize)> = Vec::new();
    let mut p: usize = 0;
    while p < s.len()
        invariant
            p <= s@.len(),
            pairs_of(r@) + tags_from(s@, p as int) == tags_from(s@, 0),
        decreases s@.len() - p,
    {
        let ghost before = pairs_of(r@);
        match tag_at_exec(s, p) {
            Some((h, e)) => {
                proof {
                    lemma_tag_at(s@, p as int);
                }
                r.push((h, e));
                proof {
                    let m = (h as int, e as int);
                    assert(pairs_of(r@) =~= before.push(m));
                    assert(tags_from(s@, p as int) == seq![m] + tags_from(s@, e as int));
                    assert(before.push(m) + tags_from(s@, e as int) =~= before + (seq![m] + tags_from(
                        s@,
                        e as int,
                    )));
                }
                p = e;
            },
            None => {
                p = p + 1;
            },
        }
    }
    proof {
        assert(tags_from(s@, p as int) == Seq::<(int, int)>::empty());
        assert(pairs_of(r@) + Seq::<(int, int)>::empty() == pairs_of(r@));
    }
    r
}

pub open spec fn pairs_of(v: Seq<(usize, usize)>) -> Seq<(int, int)> {
    v.map_values(|m: (usize, usize)| (m.0 as int, m.1 as int))
}

fn last_pair_exec(s: &Vec<char>, a: char, b: char, i: usize) -> (r: Option<usize>)
    requires
        i <= s@.len(),
    ensures
        match r {
            Some(j) => last_pair(s@, a, b, i as int - 2) == Some(j as int),
            None => last_pair(s@, a, b, i as int - 2) is None,
        },
{
    let mut k = i;
    while k >= 2
        invariant
            k <= i <= s@.len(),
            last_pair(s@, a, b, i as int - 2) == last_pair(s@, a, b, k as int - 2),
        decreases k,
    {
        if s[k - 2] == a && s[k - 1] == b {
            return Some(k - 2);
        }
        k = k - 1;
    }
    None
}

fn in_wikilink_exec(s: &Vec<char>, pos: usize) -> (r: bool)
    requires
        pos <= s@.len(),
    ensures
        r == in_wikilink(s@, pos as int),
{
    let open = last_pair_exec(s, '[', '[', pos);
    let close = last_pair_exec(s, ']', ']', pos);
    let close_pat = pat2(']', ']');
    let closes = find_seq_from(s.as_slice(), close_pat.as_slice(), pos).is_some();
    match (open, close) {
        (Some(o), Some(c)) => o > c && closes,
        (Some(_), None) => closes,
        _ => false,
    }
}

fn tag_occurrences(s: &Vec<char>) -> (r: Vec<(usize, usize)>)
    ensures
        pairs_of(r@) == tag_occ(s@),
{
    let n = s.len();
    let code = code_ranges_of(s);
    let ms = tag_matches(s);
    let ghost mall = tags_from(s@, 0);
    proof {
        lemma_tags_from_valid(s@, 0);
    }
    let mut r: Vec<(usize, usize)> = Vec::new();
    let mut k: usize = 0;
    while k < ms.len()
        invariant
            k <= ms@.len(),
            n == s@.len(),
            mall == tags_from(s@, 0),
            pairs_of(ms@) == mall,
            forall|a: int|
                0 <= a < mall.len() ==> 0 <= (#[trigger] mall[a]).0 && mall[a].0 + 2 <= mall[a].1
                    <= s@.len(),
            ranges_view(code@).to_multiset() == code_ranges(s@).to_multiset(),
            pairs_of(r@) == keep_tags(s@, mall.subrange(0, k as int)),
        decreases ms@.len() - k,
    {
        let (h, e) = ms[k];
        proof {
            assert(pairs_of(ms@)[k as int] == (h as int, e as int));
            assert(mall[k as int] == (h as int, e as int));
            assert(mall.subrange(0, k + 1).drop_last() =~= mall.subrange(0, k as int));
            assert(mall.subrange(0, k + 1).last() == (h as int, e as int));
            lemma_in_code_iff(s@, code@, h as int);
        }
        let runs = e < n && (alphanumeric(s[e]) || s[e] == '_' || s[e] == '/');
        if !runs && !is_in_code_block(h, code.as_slice()) && !in_wikilink_exec(s, h) {
            let ghost before = pairs_of(r@);
            r.push((h, e));
            proof {
                assert(pairs_of(r@) =~= before.push((h as int, e as int)));
            }
        }
        k = k + 1;
    }
    proof {
        assert(mall.subrange(0, k as int) == mall);
    }
    r
}

/// Parse all tags from content.
pub fn parse_tags(content: &str) -> (r: Vec<Tag>)
    ensures
        tags_of(r@, content@),
{
    let s = chars_of(content);
    let nbytes = crate::text::byte_len(content);
    let occ = tag_occurrences(&s);
    proof {
        lemma_tag_occ_valid(s@);
    }
    let mut r: Vec<Tag> = Vec::new();
    let mut k: usize = 0;
    while k < occ.len()
        invariant
            k <= occ@.len(),
            s@ == content@,
            nbytes == utf8_len(s@),
            pairs_of(occ@) == tag_occ(s@),
            forall|a: int|
                0 <= a < tag_occ(s@).len() ==> 0 <= (#[trigger] tag_occ(s@)[a]).0 && tag_occ(s@)[a].0
                    + 2 <= tag_occ(s@)[a].1 <= s@.len(),
            r@.len() == k,
            forall|a: int| 0 <= a < k ==> tag_describes(#[trigger] r@[a], s@, tag_occ(s@)[a]),
        decreases occ@.len() - k,
    {
        let (h, e) = occ[k];
        proof {
            assert(pairs_of(occ@)[k as int] == (h as int, e as int));
        }
        let nl = count_char_prefix(s.as_slice(), '\n', h);
        let ls = line_start_of(&s, h);
        let sc = crate::text::bytes_between(&s, ls, h);
        let ec = crate::text::bytes_between(&s, ls, e);
        let t = Tag { name: string_of_range(&s, h, e), line: nl + 1, start_col: sc, end_col: ec };
        let ghost before = r@;
        r.push(t);
        proof {
            assert forall|a: int| 0 <= a < k + 1 implies tag_describes(
                #[trigger] r@[a],
                s@,
                tag_occ(s@)[a],
            ) by {
                if a < k {
                    assert(r@[a] == before[a]);
                }
            }
        }
        k = k + 1;
    }
    r
}

// ---------------------------------------------------------------------------
// Unique tags and groups
// ---------------------------------------------------------------------------

/// The tags of `ts` whose name does not occur earlier, in order.
pub open spec fn first_by_name(ts: Seq<Tag>) -> Seq<Tag>
    decreases ts.len(),
{
    if ts.len() == 0 {
        Seq::empty()
    } else {
        let rest = first_by_name(ts.drop_last());
        if exists|j: int| 0 <= j < ts.len() - 1 && (#[trigger] ts[j]).name@ == ts.last().name@ {
            rest
        } else {
            rest.push(ts.last())
        }
    }
}

pub open spec fn tag_derefs<'a>(v: Seq<&'a Tag>) -> Seq<Tag> {
    v.map_values(|x: &'a Tag| *x)
}

/// Every tag of `first_by_name(ts)` has its name among those of `ts`, and
/// every name of `ts` is among theirs.
pub proof fn lemma_first_by_name_names(ts: Seq<Tag>)
    ensures
        forall|j: int|
            0 <= j < ts.len() ==> exists|k: int|
                0 <= k < first_by_name(ts).len() && (#[trigger] first_by_name(ts)[k]).name@
                    == (#[trigger] ts[j]).name@,
    decreases ts.len(),
{
    if ts.len() > 0 {
        let d = ts.drop_last();
        lemma_first_by_name_names(d);
        let f = first_by_name(ts);
        let f0 = first_by_name(d);
        assert forall|j: int| 0 <= j < ts.len() implies exists|k: int|
            0 <= k < f.len() && (#[trigger] f[k]).name@ == (#[trigger] ts[j]).name@ by {
            if j < ts.len() - 1 {
                assert(ts[j] == d[j]);
                let k = choose|k: int| 0 <= k < f0.len() && (#[trigger] f0[k]).name@ == d[j].name@;
                assert(f[k] == f0[k]);
            } else if exists|i: int| 0 <= i < ts.len() - 1 && (#[trigger] ts[i]).name@
                == ts.last().name@ {
                let i = choose|i: int| 0 <= i < ts.len() - 1 && (#[trigger] ts[i]).name@
                    == ts.last().name@;
                assert(ts[i] == d[i]);
                let k = choose|k: int| 0 <= k < f0.len() && (#[trigger] f0[k]).name@ == d[i].name@;
                assert(f[k] == f0[k]);
            } else {
                assert(f[f.len() - 1] == ts.last());
            }
        }
    }
}

/// Get unique tags from a list, preserving the order of first occurrence.
pub fn unique_tags<'a>(tags: &'a [Tag]) -> (r: Vec<&'a Tag>)
    ensures
        tag_derefs(r@) == first_by_name(tags@),
{
    let mut r: Vec<&'a Tag> = Vec::new();
    let mut i: usize = 0;
    while i < tags.len()
        invariant
            i <= tags@.len(),
            tag_derefs(r@) == first_by_name(tags@.subrange(0, i as int)),
        decreases tags@.len() - i,
    {
        let t = &tags[i];
        let ghost pre = tags@.subrange(0, i as int);
        proof {
            assert(tags@.subrange(0, i + 1).drop_last() =~= pre);
            assert(tags@.subrange(0, i + 1).last() == *t);
            lemma_first_by_name_names(pre);
        }
        let mut seen = false;
        let mut k: usize = 0;
        while k < r.len()
            invariant
                k <= r@.len(),
                i < tags@.len(),
                *t == tags@[i as int],
                pre == tags@.subrange(0, i as int),
                tag_derefs(r@) == first_by_name(pre),
                seen <==> exists|m: int| 0 <= m < k && (#[trigger] r@[m]).name@ == t.name@,
            decreases r@.len() - k,
        {
            if r[k].name == t.name {
                seen = true;
            }
            k = k + 1;
        }
        proof {
            let f = first_by_name(pre);
            assert forall|m: int| 0 <= m < r@.len() implies (#[trigger] r@[m]).name@ == f[m].name@ by {
                assert(tag_derefs(r@)[m] == *r@[m]);
            }
            if seen {
                let m = choose|m: int| 0 <= m < k && (#[trigger] r@[m]).name@ == t.name@;
                assert(f[m].name@ == t.name@);
                assert(f.contains(f[m]));
                lemma_first_by_name_in(pre, m);
                let j = choose|j: int| 0 <= j < pre.len() && pre[j] == f[m];
                assert(tags@.subrange(0, i + 1)[j] == pre[j]);
            } else {
                assert forall|j: int| 0 <= j < pre.len() implies (#[trigger] pre[j]).name@ != t.name@ by {
                    let m = choose|m: int| 0 <= m < f.len() && (#[trigger] f[m]).name@ == pre[j].name@;
                    assert(r@[m].name@ == f[m].name@);
                }
                assert forall|j: int| 0 <= j < tags@.subrange(0, i + 1).len() - 1 implies (
                #[trigger] tags@.subrange(0, i + 1)[j]).name@ != t.name@ by {
                    assert(tags@.subrange(0, i + 1)[j] == pre[j]);
                }
            }
        }
        if !seen {
            let ghost g0 = r@;
            r.push(t);
            proof {
                assert(tag_derefs(r@) =~= tag_derefs(g0).push(*t));
            }
        }
        i = i + 1;
    }
    proof {
        assert(tags@.subrange(0, i as int) =~= tags@);
    }
    r
}

/// Every tag of `first_by_name(ts)` is a tag of `ts`.
pub proof fn lemma_first_by_name_in(ts: Seq<Tag>, m: int)
    requires
        0 <= m < first_by_name(ts).len(),
    ensures
        exists|j: int| 0 <= j < ts.len() && ts[j] == first_by_name(ts)[m],
    decreases ts.len(),
{
    let d = ts.drop_last();
    let f0 = first_by_name(d);
    if m < f0.len() {
        lemma_first_by_name_in(d, m);
        let j = choose|j: int| 0 <= j < d.len() && d[j] == f0[m];
        assert(ts[j] == d[j]);
    } else {
        assert(ts[ts.len() - 1] == ts.last());
    }
}

/// The first segment of a tag name without `#`: the text before the first
/// `/`.
pub open spec fn first_segment(t: Seq<char>) -> Seq<char> {
    match crate::text::find_char_from(t, '/', 0) {
        Some(i) => t.subrange(0, i),
        None => t,
    }
}

/// The root tag of a tag: `#` and the first segment of its name.
pub open spec fn root_tag(name: Seq<char>) -> Seq<char> {
    seq!['#'] + first_segment(name_without_hash(name))
}

/// The tags of `ts` whose root tag is `k`, in order.
pub open spec fn root_group(ts: Seq<Tag>, k: Seq<char>) -> Seq<Tag>
    decreases ts.len(),
{
    if ts.len() == 0 {
        Seq::empty()
    } else {
        root_group(ts.drop_last(), k) + if root_tag(ts.last().name@) == k {
            seq![ts.last()]
        } else {
            Seq::<Tag>::empty()
        }
    }
}

/// `m` groups `ts` by root tag: each root tag maps to the tags under it, in
/// order, and no other key is present.
pub open spec fn groups_by_root<'a>(m: Map<Seq<char>, Vec<&'a Tag>>, ts: Seq<Tag>) -> bool {
    forall|k: Seq<char>|
        (#[trigger] m.contains_key(k) <==> root_group(ts, k).len() > 0) && (m.contains_key(k)
            ==> tag_derefs(m[k]@) == root_group(ts, k))
}

fn root_of(name: &str) -> (r: String)
    ensures
        r@ == root_tag(name@),
{
    let t = Tag { name: crate::text::lit(name), line: 0, start_col: 0, end_col: 0 };
    let bare = chars_of(t.without_hash());
    let cut = match crate::text::find_char(bare.as_slice(), '/', 0) {
        Some(i) => {
            proof {
                crate::text::lemma_find_char_found(bare@, '/', 0);
            }
            i
        },
        None => bare.len(),
    };
    let mut r = String::new();
    push_char(&mut r, '#');
    let seg = crate::text::sub_vec(&bare, 0, cut);
    push_str_chars(&mut r, seg.as_slice());
    proof {
        if cut == bare.len() {
            assert(bare@.subrange(0, cut as int) =~= bare@);
        }
    }
    r
}

/// Group tags by their root (first segment).
pub fn group_tags_by_root<'a>(tags: &'a [Tag]) -> (r: StrMap<Vec<&'a Tag>>)
    ensures
        r.wf(),
        groups_by_root(r.view(), tags@),
{
    let mut map: StrMap<Vec<&'a Tag>> = StrMap::new();
    let mut j: usize = 0;
    while j < tags.len()
        invariant
            j <= tags@.len(),
            map.wf(),
            groups_by_root(map.view(), tags@.subrange(0, j as int)),
        decreases tags@.len() - j,
    {
        let t = &tags[j];
        let ghost pre = tags@.subrange(0, j as int);
        proof {
            assert(tags@.subrange(0, j + 1).drop_last() == pre);
        }
        let root = root_of(t.name.as_str());
        let mut group = match map.remove(root.as_str()) {
            Some(g) => g,
            None => Vec::new(),
        };
        proof {
            assert(tag_derefs(group@) == root_group(pre, root@));
        }
        let ghost g0 = group@;
        group.push(t);
        assert(tag_derefs(group@) =~= tag_derefs(g0).push(*t));
        map.insert(root, group);
        proof {
            let post = tags@.subrange(0, j + 1);
            assert(post.last() == *t);
            assert forall|k: Seq<char>|
                (#[trigger] map.view().contains_key(k) <==> root_group(post, k).len() > 0) && (
                map.view().contains_key(k) ==> tag_derefs(map.view()[k]@) == root_group(post, k)) by {
                if k != root_tag(t.name@) {
                    assert(root_group(post, k) == root_group(pre, k) + Seq::<Tag>::empty());
                    assert(root_group(post, k) =~= root_group(pre, k));
                } else {
                    assert(root_group(post, k) == root_group(pre, k) + seq![*t]);
                }
            }
        }
        j = j + 1;
    }
    assert(tags@.subrange(0, j as int) == tags@);
    map
}

} // verus!
