//! Inline property parsing (`[key::value]`).

use vstd::prelude::*;
use crate::str_map::StrMap;
use crate::parser::code_block::{
    double_at, doubles_from, fenced_from, keep_doubles, keep_singles, next_open, single_at,
    singles_from,
    code_ranges, code_ranges_of, in_code, is_in_code_block, line_of, range_view, ranges_view,
    CodeBlockRange,
};
use crate::text::{
    count_char_prefix, is_word, is_word_char, lit, matches_at, pat2, push_char, push_str_chars,
    string_of, string_of_range, trim, trim_range, chars_of, occurs_at, utf8_len, char_bytes,
};
use crate::types::InlineProperty;

verus! {

/// An inline property as plain values: `(key, value, line, start_col, end_col)`.
pub type PropV = (Seq<char>, Seq<char>, int, int, int);

pub open spec fn prop_view(p: InlineProperty) -> PropV {
    (p.key@, p.value@, p.line as int, p.start_col as int, p.end_col as int)
}

pub open spec fn props_view(ps: Seq<InlineProperty>) -> Seq<PropV> {
    ps.map_values(|p: InlineProperty| prop_view(p))
}

/// Offset where the line holding `i` starts.
pub open spec fn line_start(s: Seq<char>, i: int) -> int
    decreases i,
{
    if i <= 0 || i > s.len() {
        0
    } else if s[i - 1] == '\n' {
        i
    } else {
        line_start(s, i - 1)
    }
}

/// A character allowed in a property key: a word character or `-`.
pub open spec fn is_key_char(c: char) -> bool {
    is_word(c) || c == '-'
}

/// End of the run of key characters from `i`.
pub open spec fn key_end(s: Seq<char>, i: int) -> int
    decreases s.len() - i,
{
    if 0 <= i < s.len() && is_key_char(s[i]) {
        key_end(s, i + 1)
    } else {
        i
    }
}

/// End of the run of characters other than `]` from `i`.
pub open spec fn nb_end(s: Seq<char>, i: int) -> int
    decreases s.len() - i,
{
    if 0 <= i < s.len() && s[i] != ']' {
        nb_end(s, i + 1)
    } else {
        i
    }
}

/// `]]` at `p`.
pub open spec fn brackets2_at(s: Seq<char>, p: int) -> bool {
    0 <= p && p + 1 < s.len() && s[p] == ']' && s[p + 1] == ']'
}

/// The closing `]` of a value whose current run ends at `p`: the value may
/// continue past `]]`; when the text ends inside the value, the last `]]`
/// seen (`prev`) closes it.
pub open spec fn prop_close(s: Seq<char>, p: int, prev: int) -> Option<int>
    decreases s.len() - p,
{
    if p < 0 || p > s.len() {
        None
    } else if brackets2_at(s, p) {
        proof {
            lemma_nb_end(s, p + 2);
        }
        prop_close(s, nb_end(s, p + 2), p)
    } else if p < s.len() && s[p] == ']' {
        Some(p)
    } else if prev >= 0 {
        Some(prev)
    } else {
        None
    }
}

/// A property starting at `i`: the end of its key and its closing `]`.
pub open spec fn prop_at(s: Seq<char>, i: int) -> Option<(int, int)> {
    if 0 <= i < s.len() && s[i] == '[' && key_end(s, i + 1) > i + 1 && occurs_at(
        s,
        seq![':', ':'],
        key_end(s, i + 1),
    ) {
        match prop_close(s, nb_end(s, key_end(s, i + 1) + 2), -1) {
            Some(c) => Some((key_end(s, i + 1), c)),
            None => None,
        }
    } else {
        None
    }
}

/// Property occurrences `(start, key_end, close)`, leftmost first, without
/// overlap, from `i`.
pub open spec fn props_from(s: Seq<char>, i: int) -> Seq<(int, int, int)>
    decreases s.len() - i,
{
    if i < 0 || i >= s.len() {
        Seq::empty()
    } else {
        match prop_at(s, i) {
            Some((ke, c)) => {
                proof {
                    lemma_prop_at(s, i);
                }
                seq![(i, ke, c)] + props_from(s, c + 1)
            },
            None => props_from(s, i + 1),
        }
    }
}

/// The property described by an occurrence.
pub open spec fn prop_of(s: Seq<char>, st: int, ke: int, c: int) -> PropV {
    (
        s.subrange(st + 1, ke),
        trim(s.subrange(ke + 2, c)),
        line_of(s, st),
        utf8_len(s.subrange(line_start(s, st), st)),
        utf8_len(s.subrange(line_start(s, st), c + 1)),
    )
}

/// The occurrences of `ms` that lie outside code.
pub open spec fn keep_occ(s: Seq<char>, ms: Seq<(int, int, int)>) -> Seq<(int, int, int)>
    decreases ms.len(),
{
    if ms.len() == 0 {
        Seq::empty()
    } else {
        let rest = keep_occ(s, ms.drop_last());
        if in_code(s, ms.last().0) {
            rest
        } else {
            rest.push(ms.last())
        }
    }
}

/// The property occurrences of a text that lie outside code.
pub open spec fn prop_occ(s: Seq<char>) -> Seq<(int, int, int)> {
    keep_occ(s, props_from(s, 0))
}

/// All inline properties of a text, in order.
pub open spec fn spec_inline_properties(s: Seq<char>) -> Seq<PropV> {
    prop_occ(s).map_values(|t: (int, int, int)| prop_of(s, t.0, t.1, t.2))
}

// ---------------------------------------------------------------------------
// Lemmas
// ---------------------------------------------------------------------------

pub proof fn lemma_nb_end(s: Seq<char>, i: int)
    requires
        0 <= i,
    ensures
        i <= nb_end(s, i),
        nb_end(s, i) <= s.len() || nb_end(s, i) == i,
        forall|k: int| i <= k < nb_end(s, i) ==> s[k] != ']',
    decreases s.len() - i,
{
    if 0 <= i < s.len() && s[i] != ']' {
        lemma_nb_end(s, i + 1);
    }
}

pub proof fn lemma_key_end(s: Seq<char>, i: int)
    requires
        0 <= i,
    ensures
        i <= key_end(s, i),
        key_end(s, i) <= s.len() || key_end(s, i) == i,
        forall|k: int| i <= k < key_end(s, i) ==> is_key_char(s[k]),
    decreases s.len() - i,
{
    if 0 <= i < s.len() && is_key_char(s[i]) {
        lemma_key_end(s, i + 1);
    }
}

pub proof fn lemma_prop_close(s: Seq<char>, p: int, prev: int)
    requires
        0 <= p,
        prev < p,
        prev >= 0 ==> prev + 1 < s.len() && s[prev] == ']',
    ensures
        prop_close(s, p, prev) matches Some(c) ==> (c == prev || p <= c) && 0 <= c < s.len() && s[c]
            == ']',
    decreases s.len() - p,
{
    if p <= s.len() && brackets2_at(s, p) {
        lemma_nb_end(s, p + 2);
        lemma_prop_close(s, nb_end(s, p + 2), p);
    }
}

pub proof fn lemma_prop_at(s: Seq<char>, i: int)
    requires
        0 <= i,
    ensures
        prop_at(s, i) matches Some((ke, c)) ==> i + 1 < ke && ke + 2 <= c < s.len() && s[c]
            == ']' && s[i] == '[',
{
    if 0 <= i < s.len() && s[i] == '[' {
        lemma_key_end(s, i + 1);
        let ke = key_end(s, i + 1);
        if ke > i + 1 && occurs_at(s, seq![':', ':'], ke) {
            lemma_nb_end(s, ke + 2);
            lemma_prop_close(s, nb_end(s, ke + 2), -1);
        }
    }
}

/// A code range found by `code_ranges_of` holds an offset exactly when one of
/// the text's code ranges does.
pub proof fn lemma_in_code_iff(s: Seq<char>, r: Seq<CodeBlockRange>, i: int)
    requires
        ranges_view(r).to_multiset() == code_ranges(s).to_multiset(),
    ensures
        (exists|k: int| 0 <= k < r.len() && (#[trigger] r[k]).start <= i < r[k].end) <==> in_code(
            s,
            i,
        ),
{
    broadcast use vstd::seq_lib::to_multiset_contains;

    let v = ranges_view(r);
    let c = code_ranges(s);
    if exists|k: int| 0 <= k < r.len() && (#[trigger] r[k]).start <= i < r[k].end {
        let k = choose|k: int| 0 <= k < r.len() && (#[trigger] r[k]).start <= i < r[k].end;
        assert(v[k] == range_view(r[k]));
        assert(v.contains(v[k]));
        assert(v.to_multiset().contains(v[k]));
        assert(c.contains(v[k]));
        let m = choose|m: int| 0 <= m < c.len() && c[m] == v[k];
        assert(c[m].0 <= i < c[m].1);
    }
    if in_code(s, i) {
        let m = choose|m: int| 0 <= m < c.len() && (#[trigger] c[m]).0 <= i < c[m].1;
        assert(c.contains(c[m]));
        assert(v.to_multiset().contains(c[m]));
        assert(v.contains(c[m]));
        let k = choose|k: int| 0 <= k < v.len() && v[k] == c[m];
        assert(v[k] == range_view(r[k]));
        assert(r[k].start <= i < r[k].end);
    }
}

/// Occurrences found from `i` start at or after `i` and follow each other
/// without overlap.
pub proof fn lemma_props_from_ordered(s: Seq<char>, i: int)
    requires
        0 <= i,
    ensures
        forall|a: int| 0 <= a < props_from(s, i).len() ==> i <= (#[trigger] props_from(s, i)[a]).0,
        forall|a: int, b: int|
            0 <= a < b < props_from(s, i).len() ==> (#[trigger] props_from(s, i)[a]).2 < (
            #[trigger] props_from(s, i)[b]).0,
        forall|a: int|
            0 <= a < props_from(s, i).len() ==> (#[trigger] props_from(s, i)[a]).0 < props_from(
                s,
                i,
            )[a].2,
    decreases s.len() - i,
{
    if i < s.len() {
        match prop_at(s, i) {
            Some((ke, c)) => {
                lemma_prop_at(s, i);
                lemma_props_from_ordered(s, c + 1);
                let t = props_from(s, c + 1);
                let h = seq![(i, ke, c)];
                assert(props_from(s, i) == h + t);
                assert forall|a: int| 0 <= a < props_from(s, i).len() implies i <= (
                #[trigger] props_from(s, i)[a]).0 && props_from(s, i)[a].0 < props_from(
                    s,
                    i,
                )[a].2 by {
                    if a > 0 {
                        assert(props_from(s, i)[a] == t[a - 1]);
                    } else {
                        assert(props_from(s, i)[a] == h[0]);
                    }
                }
                assert forall|a: int, b: int|
                    0 <= a < b < props_from(s, i).len() implies (#[trigger] props_from(s, i)[a]).2
                    < (#[trigger] props_from(s, i)[b]).0 by {
                    assert(props_from(s, i)[b] == t[b - 1]);
                    assert(c + 1 <= t[b - 1].0);
                    if a > 0 {
                        assert(props_from(s, i)[a] == t[a - 1]);
                    } else {
                        assert(props_from(s, i)[a] == h[0]);
                    }
                }
            },
            None => {
                lemma_props_from_ordered(s, i + 1);
                assert(props_from(s, i) == props_from(s, i + 1));
            },
        }
    }
}

/// Every occurrence kept is one of `ms`, and the kept ones keep the order.
pub proof fn lemma_keep_occ_sub(s: Seq<char>, ms: Seq<(int, int, int)>)
    ensures
        forall|a: int|
            0 <= a < keep_occ(s, ms).len() ==> ms.contains(#[trigger] keep_occ(s, ms)[a]),
        (forall|a: int, b: int| 0 <= a < b < ms.len() ==> (#[trigger] ms[a]).2 < (#[trigger] ms[b]).0)
            ==> (forall|a: int, b: int|
            0 <= a < b < keep_occ(s, ms).len() ==> (#[trigger] keep_occ(s, ms)[a]).2 < (
            #[trigger] keep_occ(s, ms)[b]).0),
    decreases ms.len(),
{
    if ms.len() > 0 {
        let d = ms.drop_last();
        lemma_keep_occ_sub(s, d);
        let k0 = keep_occ(s, d);
        assert forall|a: int| 0 <= a < keep_occ(s, ms).len() implies ms.contains(
            #[trigger] keep_occ(s, ms)[a],
        ) by {
            if a < k0.len() {
                assert(keep_occ(s, ms)[a] == k0[a]);
                let j = choose|j: int| 0 <= j < d.len() && d[j] == k0[a];
                assert(ms[j] == d[j]);
            } else {
                assert(keep_occ(s, ms)[a] == ms.last());
                assert(ms[ms.len() - 1] == ms.last());
            }
        }
        if forall|a: int, b: int| 0 <= a < b < ms.len() ==> (#[trigger] ms[a]).2 < (
        #[trigger] ms[b]).0 {
            assert forall|a: int, b: int| 0 <= a < b < d.len() implies (#[trigger] d[a]).2 < (
            #[trigger] d[b]).0 by {
                assert(d[a] == ms[a] && d[b] == ms[b]);
            }
            assert forall|a: int, b: int|
                0 <= a < b < keep_occ(s, ms).len() implies (#[trigger] keep_occ(s, ms)[a]).2 < (
            #[trigger] keep_occ(s, ms)[b]).0 by {
                if b < k0.len() {
                    assert(keep_occ(s, ms)[a] == k0[a]);
                    assert(keep_occ(s, ms)[b] == k0[b]);
                } else {
                    assert(keep_occ(s, ms)[a] == k0[a]);
                    assert(keep_occ(s, ms)[b] == ms.last());
                    let j = choose|j: int| 0 <= j < d.len() && d[j] == k0[a];
                    assert(ms[j] == d[j]);
                    assert(ms[ms.len() - 1] == ms.last());
                }
            }
        }
    }
}

/// The property occurrences of a text follow each other without overlap.
pub proof fn lemma_prop_occ_ordered(s: Seq<char>)
    ensures
        forall|a: int, b: int|
            0 <= a < b < prop_occ(s).len() ==> (#[trigger] prop_occ(s)[a]).2 < (
            #[trigger] prop_occ(s)[b]).0,
{
    lemma_props_from_ordered(s, 0);
    lemma_keep_occ_sub(s, props_from(s, 0));
}

// ---------------------------------------------------------------------------
// Executable parsing
// ---------------------------------------------------------------------------

/// Offset where the line holding `i` starts.
pub fn line_start_of(s: &Vec<char>, i: usize) -> (r: usize)
    requires
        i <= s@.len(),
    ensures
        r == line_start(s@, i as int),
        r <= i,
{
    let mut k = i;
    while k > 0 && s[k - 1] != '\n'
        invariant
            k <= i <= s@.len(),
            line_start(s@, i as int) == line_start(s@, k as int),
        decreases k,
    {
        k = k - 1;
    }
    k
}

fn key_end_exec(s: &Vec<char>, i: usize) -> (r: usize)
    requires
        i <= s@.len(),
    ensures
        r == key_end(s@, i as int),
        i <= r <= s@.len(),
{
    let mut k = i;
    while k < s.len() && (is_word_char(s[k]) || s[k] == '-')
        invariant
            i <= k <= s@.len(),
            key_end(s@, i as int) == key_end(s@, k as int),
        decreases s@.len() - k,
    {
        k = k + 1;
    }
    k
}

pub(crate) fn nb_end_exec(s: &Vec<char>, i: usize) -> (r: usize)
    requires
        i <= s@.len(),
    ensures
        r == nb_end(s@, i as int),
        i <= r <= s@.len(),
{
    let mut k = i;
    while k < s.len() && s[k] != ']'
        invariant
            i <= k <= s@.len(),
            nb_end(s@, i as int) == nb_end(s@, k as int),
        decreases s@.len() - k,
    {
        k = k + 1;
    }
    k
}

fn prop_close_exec(s: &Vec<char>, p0: usize) -> (r: Option<usize>)
    requires
        p0 <= s@.len(),
    ensures
        r matches Some(c) ==> prop_close(s@, p0 as int, -1) == Some(c as int),
        r is None ==> prop_close(s@, p0 as int, -1) is None,
{
    let mut p = p0;
    let mut prev: Option<usize> = None;
    loop
        invariant
            p <= s@.len(),
            prop_close(s@, p0 as int, -1) == prop_close(
                s@,
                p as int,
                match prev {
                    Some(q) => q as int,
                    None => -1,
                },
            ),
            prev matches Some(q) ==> q < p,
        decreases s@.len() - p,
    {
        if p < s.len() && p + 1 < s.len() && s[p] == ']' && s[p + 1] == ']' {
            let np = nb_end_exec(s, p + 2);
            prev = Some(p);
            p = np;
        } else if p < s.len() && s[p] == ']' {
            return Some(p);
        } else {
            return prev;
        }
    }
}

fn prop_at_exec(s: &Vec<char>, i: usize) -> (r: Option<(usize, usize)>)
    requires
        i < s@.len(),
    ensures
        r matches Some((ke, c)) ==> prop_at(s@, i as int) == Some((ke as int, c as int)),
        r is None ==> prop_at(s@, i as int) is None,
{
    proof {
        lemma_prop_at(s@, i as int);
    }
    let n = s.len();
    if s[i] != '[' {
        return None;
    }
    let ke = key_end_exec(s, i + 1);
    if ke > i + 1 && matches_at(s, ke, &pat2(':', ':')) {
        let v = nb_end_exec(s, ke + 2);
        match prop_close_exec(s, v) {
            Some(c) => Some((ke, c)),
            None => None,
        }
    } else {
        None
    }
}

/// Property occurrences of a text, leftmost first.
fn prop_occurrences(s: &Vec<char>) -> (r: Vec<(usize, usize, usize)>)
    ensures
        triples_view(r@) == props_from(s@, 0),
        forall|k: int|
            0 <= k < r@.len() ==> (#[trigger] r@[k]).0 + 1 < r@[k].1 && r@[k].1 + 2 <= r@[k].2
                < s@.len(),
{
    let mut r: Vec<(usize, usize, usize)> = Vec::new();
    let mut i: usize = 0;
    while i < s.len()
        invariant
            i <= s@.len(),
            triples_view(r@) + props_from(s@, i as int) == props_from(s@, 0),
            forall|k: int|
                0 <= k < r@.len() ==> (#[trigger] r@[k]).0 + 1 < r@[k].1 && r@[k].1 + 2 <= r@[
                    k
                ].2 < s@.len(),
        decreases s@.len() - i,
    {
        let ghost before = triples_view(r@);
        match prop_at_exec(s, i) {
            Some((ke, c)) => {
                proof {
                    lemma_prop_at(s@, i as int);
                }
                r.push((i, ke, c));
                proof {
                    let h = (i as int, ke as int, c as int);
                    assert(triples_view(r@) =~= before.push(h));
                    assert(props_from(s@, i as int) == seq![h] + props_from(s@, c + 1));
                    assert(before.push(h) + props_from(s@, c + 1) =~= before + (seq![h]
                        + props_from(s@, c + 1)));
                }
                i = c + 1;
            },
            None => {
                i = i + 1;
            },
        }
    }
    proof {
        assert(props_from(s@, i as int) == Seq::<(int, int, int)>::empty());
        assert(triples_view(r@) + Seq::<(int, int, int)>::empty() == triples_view(r@));
    }
    r
}

pub open spec fn triples_view(v: Seq<(usize, usize, usize)>) -> Seq<(int, int, int)> {
    v.map_values(|t: (usize, usize, usize)| (t.0 as int, t.1 as int, t.2 as int))
}

/// Property occurrences of a text that lie outside code.
pub fn prop_occurrences_outside_code(s: &Vec<char>) -> (r: Vec<(usize, usize, usize)>)
    ensures
        triples_view(r@) == prop_occ(s@),
        forall|k: int|
            0 <= k < r@.len() ==> (#[trigger] r@[k]).0 + 1 < r@[k].1 && r@[k].1 + 2 <= r@[k].2
                < s@.len(),
{
    let n = s.len();
    let code = code_ranges_of(s);
    let ms = prop_occurrences(s);
    let ghost mall = props_from(s@, 0);
    let mut r: Vec<(usize, usize, usize)> = Vec::new();
    let mut k: usize = 0;
    while k < ms.len()
        invariant
            k <= ms@.len(),
            n == s@.len(),
            mall == props_from(s@, 0),
            triples_view(ms@) == mall,
            ranges_view(code@).to_multiset() == code_ranges(s@).to_multiset(),
            triples_view(r@) == keep_occ(s@, mall.subrange(0, k as int)),
            forall|m: int|
                0 <= m < ms@.len() ==> (#[trigger] ms@[m]).0 + 1 < ms@[m].1 && ms@[m].1 + 2
                    <= ms@[m].2 < s@.len(),
            forall|m: int|
                0 <= m < r@.len() ==> (#[trigger] r@[m]).0 + 1 < r@[m].1 && r@[m].1 + 2
                    <= r@[m].2 < s@.len(),
        decreases ms@.len() - k,
    {
        let t = ms[k];
        proof {
            assert(ms@[k as int] == t);
            assert(triples_view(ms@)[k as int] == (t.0 as int, t.1 as int, t.2 as int));
            assert(mall.subrange(0, k + 1).drop_last() =~= mall.subrange(0, k as int));
            assert(mall.subrange(0, k + 1).last() == (t.0 as int, t.1 as int, t.2 as int));
            lemma_in_code_iff(s@, code@, t.0 as int);
        }
        if !is_in_code_block(t.0, code.as_slice()) {
            let ghost before = triples_view(r@);
            r.push(t);
            proof {
                assert(triples_view(r@) =~= before.push((t.0 as int, t.1 as int, t.2 as int)));
            }
        }
        k = k + 1;
    }
    proof {
        assert(mall.subrange(0, k as int) == mall);
    }
    r
}

/// The property described by an occurrence.
pub fn prop_from_occurrence(s: &Vec<char>, st: usize, ke: usize, c: usize) -> (r: InlineProperty)
    requires
        st + 1 < ke,
        ke + 2 <= c < s@.len(),
        utf8_len(s@) <= usize::MAX,
    ensures
        prop_view(r) == prop_of(s@, st as int, ke as int, c as int),
{
    let n = s.len();
    let key = string_of_range(s, st + 1, ke);
    let value_chars = trim_range(s, ke + 2, c);
    let value = string_of(value_chars.as_slice());
    let nl = count_char_prefix(s, '\n', st);
    let ls = line_start_of(s, st);
    let start_col = crate::text::bytes_between(s, ls, st);
    let end_col = crate::text::bytes_between(s, ls, c + 1);
    InlineProperty { key, value, line: nl + 1, start_col, end_col }
}

/// Parse all inline properties of a text given as characters.
pub fn inline_properties_of(s: &Vec<char>) -> (r: Vec<InlineProperty>)
    requires
        utf8_len(s@) <= usize::MAX,
    ensures
        props_view(r@) == spec_inline_properties(s@),
{
    let occ = prop_occurrences_outside_code(s);
    let mut r: Vec<InlineProperty> = Vec::new();
    let mut k: usize = 0;
    while k < occ.len()
        invariant
            k <= occ@.len(),
            utf8_len(s@) <= usize::MAX,
            triples_view(occ@) == prop_occ(s@),
            forall|m: int|
                0 <= m < occ@.len() ==> (#[trigger] occ@[m]).0 + 1 < occ@[m].1 && occ@[m].1 + 2
                    <= occ@[m].2 < s@.len(),
            props_view(r@) == spec_inline_properties(s@).subrange(0, k as int),
        decreases occ@.len() - k,
    {
        let t = occ[k];
        let p = prop_from_occurrence(s, t.0, t.1, t.2);
        let ghost before = props_view(r@);
        r.push(p);
        proof {
            assert(occ@[k as int] == t);
            assert(triples_view(occ@)[k as int] == (t.0 as int, t.1 as int, t.2 as int));
            assert(prop_occ(s@)[k as int] == (t.0 as int, t.1 as int, t.2 as int));
            assert(spec_inline_properties(s@)[k as int] == prop_of(
                s@,
                t.0 as int,
                t.1 as int,
                t.2 as int,
            ));
            assert(props_view(r@) == before.push(prop_view(p)));
            assert(props_view(r@) =~= spec_inline_properties(s@).subrange(0, k + 1));
        }
        k = k + 1;
    }
    proof {
        assert(spec_inline_properties(s@).subrange(0, k as int) =~= spec_inline_properties(s@));
    }
    r
}

/// Parse all inline properties from content.
pub fn parse_inline_properties(content: &str) -> (r: Vec<InlineProperty>)
    ensures
        props_view(r@) == spec_inline_properties(content@),
{
    let s = chars_of(content);
    let _ = crate::text::byte_len(content);
    inline_properties_of(&s)
}

/// Format an inline property as a string: `[key::value]`.
pub fn format_inline_property(key: &str, value: &str) -> (r: String)
    ensures
        r@ == seq!['['] + key@ + seq![':', ':'] + value@ + seq![']'],
{
    let mut r = String::new();
    push_char(&mut r, '[');
    let k = chars_of(key);
    push_str_chars(&mut r, k.as_slice());
    push_char(&mut r, ':');
    push_char(&mut r, ':');
    let v = chars_of(value);
    push_str_chars(&mut r, v.as_slice());
    push_char(&mut r, ']');
    assert(r@ =~= seq!['['] + key@ + seq![':', ':'] + value@ + seq![']']);
    r
}

/// The properties of `ps` with key `k`, in order.
pub open spec fn key_group(ps: Seq<InlineProperty>, k: Seq<char>) -> Seq<InlineProperty>
    decreases ps.len(),
{
    if ps.len() == 0 {
        Seq::empty()
    } else {
        key_group(ps.drop_last(), k) + if ps.last().key@ == k {
            seq![ps.last()]
        } else {
            Seq::<InlineProperty>::empty()
        }
    }
}

/// The properties that a sequence of references points to.
pub open spec fn derefs<'a>(v: Seq<&'a InlineProperty>) -> Seq<InlineProperty> {
    v.map_values(|x: &'a InlineProperty| *x)
}

/// `m` groups `ps` by key: each key of a property maps to the properties
/// with that key, in order, and no other key is present.
pub open spec fn groups_by_key<'a>(m: Map<Seq<char>, Vec<&'a InlineProperty>>, ps: Seq<InlineProperty>) -> bool {
    forall|k: Seq<char>|
        (#[trigger] m.contains_key(k) <==> key_group(ps, k).len() > 0) && (m.contains_key(k) ==> derefs(
            m[k]@,
        ) == key_group(ps, k))
}

/// Group inline properties by key.
pub fn collect_inline_properties<'a>(props: &'a [InlineProperty]) -> (r: StrMap<Vec<&'a InlineProperty>>)
    ensures
        r.wf(),
        groups_by_key(r.view(), props@),
{
    let mut map: StrMap<Vec<&'a InlineProperty>> = StrMap::new();
    let mut j: usize = 0;
    while j < props.len()
        invariant
            j <= props@.len(),
            map.wf(),
            groups_by_key(map.view(), props@.subrange(0, j as int)),
        decreases props@.len() - j,
    {
        let p = &props[j];
        let ghost pre = props@.subrange(0, j as int);
        let ghost m0 = map.view();
        proof {
            assert(props@.subrange(0, j + 1).drop_last() == pre);
        }
        let mut group = match map.remove(p.key.as_str()) {
            Some(g) => g,
            None => Vec::new(),
        };
        proof {
            assert(derefs(group@) == key_group(pre, p.key@));
        }
        let ghost g0 = group@;
        group.push(p);
        assert(derefs(group@) =~= derefs(g0).push(*p));
        map.insert(p.key.clone(), group);
        proof {
            let post = props@.subrange(0, j + 1);
            assert forall|k: Seq<char>|
                (#[trigger] map.view().contains_key(k) <==> key_group(post, k).len() > 0) && (map.view().contains_key(k)
                    ==> derefs(map.view()[k]@) == key_group(post, k)) by {
                if k != p.key@ {
                    assert(key_group(post, k) == key_group(pre, k) + Seq::<InlineProperty>::empty());
                    assert(key_group(post, k) =~= key_group(pre, k));
                } else {
                    assert(key_group(post, k) == key_group(pre, k) + seq![*p]);
                }
            }
        }
        j = j + 1;
    }
    assert(props@.subrange(0, j as int) == props@);
    map
}

// ---------------------------------------------------------------------------
// Formatting then parsing a property gives it back
// ---------------------------------------------------------------------------

proof fn lemma_key_run(s: Seq<char>, i: int, e: int)
    requires
        0 <= i <= e < s.len(),
        forall|j: int| i <= j < e ==> is_key_char(#[trigger] s[j]),
        !is_key_char(s[e]),
    ensures
        key_end(s, i) == e,
    decreases e - i,
{
    if i < e {
        lemma_key_run(s, i + 1, e);
    }
}

proof fn lemma_nb_run(s: Seq<char>, i: int, e: int)
    requires
        0 <= i <= e < s.len(),
        forall|j: int| i <= j < e ==> #[trigger] s[j] != ']',
        s[e] == ']',
    ensures
        nb_end(s, i) == e,
    decreases e - i,
{
    if i < e {
        lemma_nb_run(s, i + 1, e);
    }
}

proof fn lemma_no_doubles(s: Seq<char>, i: int)
    requires
        forall|j: int| 0 <= j < s.len() ==> #[trigger] s[j] != '`',
    ensures
        doubles_from(s, i) == Seq::<(int, int)>::empty(),
        singles_from(s, i) == Seq::<(int, int)>::empty(),
    decreases s.len() - i,
{
    if 0 <= i < s.len() {
        assert(double_at(s, i) is None);
        assert(single_at(s, i) is None);
        lemma_no_doubles(s, i + 1);
    }
}

proof fn lemma_no_fence(s: Seq<char>, i: int)
    requires
        0 <= i,
        forall|j: int| 0 <= j < s.len() ==> #[trigger] s[j] != '\n',
        s.len() > 0 && s[0] != '`' && s[0] != '~',
    ensures
        next_open(s, i) is None,
    decreases s.len() - i,
{
    if i < s.len() {
        if i > 0 {
            assert(s[i - 1] != '\n');
        }
        lemma_no_fence(s, i + 1);
    }
}

/// Parsing the text that `format_inline_property` makes of a key and a value
/// gives back that property, on line 1 and spanning the whole text (its
/// columns counted in UTF-8 bytes), when
/// the key is made of key characters and the value is trimmed and holds no
/// `]`, backtick or line feed.
pub proof fn law_inline_property_round_trip(k: Seq<char>, v: Seq<char>)
    requires
        k.len() > 0,
        forall|i: int| 0 <= i < k.len() ==> is_key_char(#[trigger] k[i]),
        forall|i: int| 0 <= i < v.len() ==> #[trigger] v[i] != ']' && v[i] != '`' && v[i] != '\n',
        trim(v) == v,
    ensures
        spec_inline_properties(seq!['['] + k + seq![':', ':'] + v + seq![']']) == seq![
            (k, v, 1int, 0int, utf8_len(k) + utf8_len(v) + 4),
        ],
{
    let s = seq!['['] + k + seq![':', ':'] + v + seq![']'];
    let ke: int = k.len() as int + 1;
    let c: int = k.len() as int + v.len() as int + 3;
    assert(s.len() == c + 1);
    assert forall|j: int| 1 <= j < ke implies is_key_char(#[trigger] s[j]) by {
        assert(s[j] == k[j - 1]);
    }
    assert(s[ke] == ':');
    lemma_key_run(s, 1, ke);
    assert(s.subrange(ke, ke + 2) =~= seq![':', ':']);
    assert forall|j: int| ke + 2 <= j < c implies #[trigger] s[j] != ']' by {
        assert(s[j] == v[j - ke - 2]);
    }
    lemma_nb_run(s, ke + 2, c);
    assert(!brackets2_at(s, c));
    assert(prop_close(s, c, -1) == Some(c));
    assert(prop_at(s, 0) == Some((ke, c)));
    assert(props_from(s, c + 1) == Seq::<(int, int, int)>::empty());
    assert(props_from(s, 0) =~= seq![(0int, ke, c)]);
    // No code in the text.
    assert forall|j: int| 0 <= j < s.len() implies #[trigger] s[j] != '`' && s[j] != '\n' by {
        if 1 <= j < ke {
            assert(s[j] == k[j - 1]);
            assert(is_key_char(k[j - 1]));
        } else if ke + 2 <= j < c {
            assert(s[j] == v[j - ke - 2]);
        }
    }
    lemma_no_doubles(s, 0);
    lemma_no_fence(s, 0);
    assert(fenced_from(s, 0) == Seq::<crate::parser::code_block::RangeV>::empty());
    assert(code_ranges(s) =~= Seq::<crate::parser::code_block::RangeV>::empty());
    assert(!in_code(s, 0));
    let ms = seq![(0int, ke, c)];
    assert(ms.drop_last() =~= Seq::<(int, int, int)>::empty());
    assert(keep_occ(s, ms.drop_last()) == Seq::<(int, int, int)>::empty());
    assert(ms.last() == (0int, ke, c));
    assert(!in_code(s, ms.last().0));
    assert(keep_occ(s, ms) =~= Seq::<(int, int, int)>::empty().push(ms.last()));
    assert(keep_occ(s, ms) =~= ms);
    assert(prop_occ(s) =~= ms);
    assert(s.subrange(1, ke) =~= k);
    assert(s.subrange(ke + 2, c) =~= v);
    assert(s.subrange(0, 0) =~= Seq::<char>::empty());
    assert(line_of(s, 0) == 1);
    assert(line_start(s, 0) == 0);
    assert(s.subrange(0, 0) =~= Seq::<char>::empty());
    assert(s.subrange(0, c + 1) =~= s);
    crate::text::lemma_utf8_len_concat(seq!['['] + k + seq![':', ':'] + v, seq![']']);
    crate::text::lemma_utf8_len_concat(seq!['['] + k + seq![':', ':'], v);
    crate::text::lemma_utf8_len_concat(seq!['['] + k, seq![':', ':']);
    crate::text::lemma_utf8_len_concat(seq!['['], k);
    crate::text::lemma_utf8_len_single(']');
    crate::text::lemma_utf8_len_single('[');
    crate::text::lemma_utf8_len_single(':');
    crate::text::lemma_utf8_len_concat(seq![':'], seq![':']);
    assert(seq![':'] + seq![':'] =~= seq![':', ':']);
    assert(spec_inline_properties(s) =~= seq![(k, v, 1int, 0int, utf8_len(k) + utf8_len(v) + 4)]);
}

} // verus!
