//! Code block detection for skipping parsing inside code.

use vstd::prelude::*;
use crate::text::{
    count_char, count_char_prefix, find_char, find_char_from, lemma_find_char_found,
    lemma_find_char_none, trim, trim_range,
};

verus! {

/// A range of text that is inside a code block or inline code; its offsets
/// are in UTF-8 bytes as `find_code_block_ranges` gives them, in characters
/// as `code_ranges_of` gives them.
#[derive(Debug, Clone, Copy, PartialEq, Eq)]
pub struct CodeBlockRange {
    /// Start offset (inclusive).
    pub start: usize,
    /// End offset (exclusive).
    pub end: usize,
    /// Line number where the code block starts (1-indexed).
    pub start_line: usize,
    /// Line number where the code block ends (1-indexed).
    pub end_line: usize,
    /// Whether this is a fenced code block (vs inline code).
    pub is_fenced: bool,
}

/// A code range as plain values: `(start, end, start_line, end_line, is_fenced)`.
pub type RangeV = (int, int, int, int, bool);

pub open spec fn range_view(r: CodeBlockRange) -> RangeV {
    (r.start as int, r.end as int, r.start_line as int, r.end_line as int, r.is_fenced)
}

pub open spec fn ranges_view(rs: Seq<CodeBlockRange>) -> Seq<RangeV> {
    rs.map_values(|r: CodeBlockRange| range_view(r))
}

/// Offset pairs as plain integers.
pub open spec fn pairs_view(v: Seq<(usize, usize)>) -> Seq<(int, int)> {
    v.map_values(|p: (usize, usize)| (p.0 as int, p.1 as int))
}

/// The 1-indexed line holding offset `i`.
pub open spec fn line_of(s: Seq<char>, i: int) -> int {
    (count_char(s.subrange(0, i), '\n') + 1) as int
}

/// Length of the run of `c` starting at `j`.
pub open spec fn run_len(s: Seq<char>, j: int, c: char) -> int
    decreases s.len() - j,
{
    if 0 <= j < s.len() && s[j] == c {
        1 + run_len(s, j + 1, c)
    } else {
        0
    }
}

/// Offset `j` starts a line.
pub open spec fn is_line_start(s: Seq<char>, j: int) -> bool {
    j == 0 || (0 < j <= s.len() && s[j - 1] == '\n')
}

/// An opening fence (three or more backticks or tildes) starts at `j`.
pub open spec fn opens_fence(s: Seq<char>, j: int) -> bool {
    0 <= j < s.len() && is_line_start(s, j) && (s[j] == '`' || s[j] == '~') && run_len(s, j, s[j])
        >= 3
}

/// The first opening fence at or after `pos`.
pub open spec fn next_open(s: Seq<char>, pos: int) -> Option<int>
    decreases s.len() - pos,
{
    if pos < 0 || pos >= s.len() {
        None
    } else if opens_fence(s, pos) {
        Some(pos)
    } else {
        next_open(s, pos + 1)
    }
}

/// Offset just past the line holding `j` (past its `\n`).
pub open spec fn line_end_after(s: Seq<char>, j: int) -> int {
    match find_char_from(s, '\n', j) {
        Some(k) => k + 1,
        None => s.len() as int,
    }
}

/// Every character of `t` is `c`.
pub open spec fn all_eq(t: Seq<char>, c: char) -> bool {
    forall|k: int| 0 <= k < t.len() ==> t[k] == c
}

/// If the line starting at `l` closes a fence of `n` copies of `c`, the
/// offset where that line ends (its `\n`, or the end of the text).
pub open spec fn closing_at(s: Seq<char>, l: int, c: char, n: int) -> Option<int> {
    if 0 <= l < s.len() && run_len(s, l, c) >= n {
        let e = match find_char_from(s, '\n', l) {
            Some(k) => k,
            None => s.len() as int,
        };
        let t = trim(s.subrange(l, e));
        if all_eq(t, c) && t.len() >= n {
            Some(e)
        } else {
            None
        }
    } else {
        None
    }
}

/// Searching from `sp`, the end of the first closing fence line: only lines
/// that follow a line feed at or after `sp` are candidates.
pub open spec fn find_close(s: Seq<char>, sp: int, c: char, n: int) -> Option<int>
    decreases s.len() - sp,
{
    if sp < 0 || sp >= s.len() {
        None
    } else {
        match find_char_from(s, '\n', sp) {
            None => None,
            Some(nl) => {
                proof {
                    lemma_find_char_found(s, '\n', sp);
                }
                let l = nl + 1;
                if l < s.len() && closing_at(s, l, c, n) is Some {
                    closing_at(s, l, c, n)
                } else {
                    find_close(s, l, c, n)
                }
            },
        }
    }
}

/// Fenced code blocks found scanning from `pos`.
pub open spec fn fenced_from(s: Seq<char>, pos: int) -> Seq<RangeV>
    decreases s.len() - pos,
{
    if pos < 0 || pos >= s.len() {
        Seq::empty()
    } else {
        match next_open(s, pos) {
            None => Seq::empty(),
            Some(j) => {
                proof {
                    lemma_next_open(s, pos);
                    lemma_line_end_after(s, j);
                }
                let c = s[j];
                let n = run_len(s, j, c);
                let le = line_end_after(s, j);
                match find_close(s, le, c, n) {
                    Some(e) => {
                        proof {
                            lemma_find_close(s, le, c, n);
                        }
                        seq![(j, e, line_of(s, j), line_of(s, e), true)] + fenced_from(s, e)
                    },
                    None => fenced_from(s, le),
                }
            },
        }
    }
}

/// End of the longest run of units (a non-backtick, or a backtick followed
/// by a non-backtick) from `i`.
pub open spec fn units_end(s: Seq<char>, i: int) -> int
    decreases s.len() - i,
{
    if 0 <= i < s.len() && s[i] != '`' {
        units_end(s, i + 1)
    } else if 0 <= i && i + 1 < s.len() && s[i] == '`' && s[i + 1] != '`' {
        units_end(s, i + 2)
    } else {
        i
    }
}

pub open spec fn ticks2_at(s: Seq<char>, i: int) -> bool {
    0 <= i && i + 1 < s.len() && s[i] == '`' && s[i + 1] == '`'
}

/// A double-backtick inline code span starting at `i`, and its end.
pub open spec fn double_at(s: Seq<char>, i: int) -> Option<int> {
    if ticks2_at(s, i) && ticks2_at(s, units_end(s, i + 2)) {
        Some(units_end(s, i + 2) + 2)
    } else {
        None
    }
}

/// Double-backtick spans, leftmost first, without overlap, from `i`.
pub open spec fn doubles_from(s: Seq<char>, i: int) -> Seq<(int, int)>
    decreases s.len() - i,
{
    if i < 0 || i >= s.len() {
        Seq::empty()
    } else {
        match double_at(s, i) {
            Some(e) => {
                proof {
                    lemma_units_end(s, i + 2);
                }
                seq![(i, e)] + doubles_from(s, e)
            },
            None => doubles_from(s, i + 1),
        }
    }
}

/// End of the run of characters other than backtick and line feed from `i`.
pub open spec fn run_end(s: Seq<char>, i: int) -> int
    decreases s.len() - i,
{
    if 0 <= i < s.len() && s[i] != '`' && s[i] != '\n' {
        run_end(s, i + 1)
    } else {
        i
    }
}

/// A single-backtick inline code span starting at `i`, and its end.
pub open spec fn single_at(s: Seq<char>, i: int) -> Option<int> {
    if 0 <= i < s.len() && s[i] == '`' && run_end(s, i + 1) > i + 1 && run_end(s, i + 1) < s.len()
        && s[run_end(s, i + 1)] == '`' {
        Some(run_end(s, i + 1) + 1)
    } else {
        None
    }
}

/// Single-backtick spans, leftmost first, without overlap, from `i`.
pub open spec fn singles_from(s: Seq<char>, i: int) -> Seq<(int, int)>
    decreases s.len() - i,
{
    if i < 0 || i >= s.len() {
        Seq::empty()
    } else {
        match single_at(s, i) {
            Some(e) => {
                proof {
                    lemma_run_end(s, i + 1);
                }
                seq![(i, e)] + singles_from(s, e)
            },
            None => singles_from(s, i + 1),
        }
    }
}

/// The span `(a, b)` lies inside some fenced range of `rs`.
pub open spec fn inside_fenced(rs: Seq<RangeV>, a: int, b: int) -> bool {
    exists|k: int| 0 <= k < rs.len() && rs[k].4 && a >= rs[k].0 && b <= rs[k].1
}

/// The span `(a, b)` overlaps a range of `rs` in the way that drops it.
pub open spec fn overlaps_any(rs: Seq<RangeV>, a: int, b: int) -> bool {
    exists|k: int|
        0 <= k < rs.len() && ((a >= rs[k].0 && a < rs[k].1) || (b > rs[k].0 && b <= rs[k].1))
}

/// Inline spans kept after the fenced ranges `fs`.
pub open spec fn keep_doubles(s: Seq<char>, fs: Seq<RangeV>, ds: Seq<(int, int)>) -> Seq<RangeV>
    decreases ds.len(),
{
    if ds.len() == 0 {
        Seq::empty()
    } else {
        let (a, b) = ds.last();
        let rest = keep_doubles(s, fs, ds.drop_last());
        if inside_fenced(fs, a, b) {
            rest
        } else {
            rest.push((a, b, line_of(s, a), line_of(s, b), false))
        }
    }
}

/// Single-backtick spans kept after the ranges `rs` found before them.
pub open spec fn keep_singles(s: Seq<char>, rs: Seq<RangeV>, ss: Seq<(int, int)>) -> Seq<RangeV>
    decreases ss.len(),
{
    if ss.len() == 0 {
        Seq::empty()
    } else {
        let (a, b) = ss.last();
        let rest = keep_singles(s, rs, ss.drop_last());
        if overlaps_any(rs, a, b) {
            rest
        } else {
            rest.push((a, b, line_of(s, a), line_of(s, b), false))
        }
    }
}

/// All code ranges of a text, before ordering: the fenced blocks, the
/// double-backtick spans outside them, then the single-backtick spans that
/// overlap neither.
pub open spec fn code_ranges(s: Seq<char>) -> Seq<RangeV> {
    let fs = fenced_from(s, 0);
    let ds = keep_doubles(s, fs, doubles_from(s, 0));
    fs + ds + keep_singles(s, fs + ds, singles_from(s, 0))
}

/// Offset `i` lies inside a code range of the text.
pub open spec fn in_code(s: Seq<char>, i: int) -> bool {
    exists|k: int|
        0 <= k < code_ranges(s).len() && (#[trigger] code_ranges(s)[k]).0 <= i < code_ranges(
            s,
        )[k].1
}

/// Line `l` lies inside a fenced block of the text.
pub open spec fn line_in_fence(s: Seq<char>, l: int) -> bool {
    exists|k: int|
        0 <= k < code_ranges(s).len() && (#[trigger] code_ranges(s)[k]).4 && code_ranges(s)[k].2 <= l
            <= code_ranges(s)[k].3
}

// ---------------------------------------------------------------------------
// Lemmas
// ---------------------------------------------------------------------------

/// A count of `c` is below the length when some element differs from `c`.
pub proof fn lemma_count_char_lt(t: Seq<char>, c: char, i: int)
    requires
        0 <= i < t.len(),
        t[i] != c,
    ensures
        count_char(t, c) < t.len(),
    decreases t.len(),
{
    lemma_count_char_le(t.drop_last(), c);
    if i < t.len() - 1 {
        lemma_count_char_lt(t.drop_last(), c, i);
    }
}

pub proof fn lemma_count_char_le(t: Seq<char>, c: char)
    ensures
        count_char(t, c) <= t.len(),
    decreases t.len(),
{
    if t.len() > 0 {
        lemma_count_char_le(t.drop_last(), c);
    }
}

pub proof fn lemma_run_len(s: Seq<char>, j: int, c: char)
    ensures
        0 <= run_len(s, j, c),
        0 <= j ==> j + run_len(s, j, c) <= s.len() || run_len(s, j, c) == 0,
        forall|k: int| j <= k < j + run_len(s, j, c) ==> s[k] == c,
        0 <= j && j + run_len(s, j, c) < s.len() ==> s[j + run_len(s, j, c)] != c,
    decreases s.len() - j,
{
    if 0 <= j < s.len() && s[j] == c {
        lemma_run_len(s, j + 1, c);
    }
}

pub proof fn lemma_next_open(s: Seq<char>, pos: int)
    requires
        0 <= pos,
    ensures
        next_open(s, pos) matches Some(j) ==> pos <= j < s.len() && opens_fence(s, j),
        next_open(s, pos) matches Some(j) ==> forall|k: int| pos <= k < j ==> !opens_fence(s, k),
        next_open(s, pos) is None ==> forall|k: int| pos <= k < s.len() ==> !opens_fence(s, k),
    decreases s.len() - pos,
{
    if 0 <= pos < s.len() && !opens_fence(s, pos) {
        lemma_next_open(s, pos + 1);
    }
}

pub proof fn lemma_line_end_after(s: Seq<char>, j: int)
    requires
        0 <= j < s.len(),
    ensures
        j < line_end_after(s, j) <= s.len(),
{
    if find_char_from(s, '\n', j) is Some {
        lemma_find_char_found(s, '\n', j);
    }
}

pub proof fn lemma_find_close(s: Seq<char>, sp: int, c: char, n: int)
    ensures
        find_close(s, sp, c, n) matches Some(e) ==> sp < e <= s.len(),
    decreases s.len() - sp,
{
    if 0 <= sp < s.len() {
        if let Some(nl) = find_char_from(s, '\n', sp) {
            lemma_find_char_found(s, '\n', sp);
            let l = nl + 1;
            if l < s.len() && closing_at(s, l, c, n) is Some {
                if let Some(k) = find_char_from(s, '\n', l) {
                    lemma_find_char_found(s, '\n', l);
                }
            } else {
                lemma_find_close(s, l, c, n);
            }
        }
    }
}

pub proof fn lemma_units_end(s: Seq<char>, i: int)
    requires
        0 <= i,
    ensures
        i <= units_end(s, i),
        units_end(s, i) <= s.len() || units_end(s, i) == i,
    decreases s.len() - i,
{
    if 0 <= i < s.len() && s[i] != '`' {
        lemma_units_end(s, i + 1);
    } else if 0 <= i && i + 1 < s.len() && s[i] == '`' && s[i + 1] != '`' {
        lemma_units_end(s, i + 2);
    }
}

pub proof fn lemma_run_end(s: Seq<char>, i: int)
    requires
        0 <= i,
    ensures
        i <= run_end(s, i),
        run_end(s, i) <= s.len() || run_end(s, i) == i,
    decreases s.len() - i,
{
    if 0 <= i < s.len() && s[i] != '`' && s[i] != '\n' {
        lemma_run_end(s, i + 1);
    }
}

// ---------------------------------------------------------------------------
// Executable scanning
// ---------------------------------------------------------------------------

/// Length of the run of `c` starting at `j`.
fn run_len_exec(s: &Vec<char>, j: usize, c: char) -> (r: usize)
    requires
        j <= s@.len(),
    ensures
        r == run_len(s@, j as int, c),
        j + r <= s@.len(),
{
    let mut k = j;
    while k < s.len() && s[k] == c
        invariant
            j <= k <= s@.len(),
            run_len(s@, j as int, c) == (k - j) + run_len(s@, k as int, c),
        decreases s@.len() - k,
    {
        k = k + 1;
    }
    k - j
}

fn is_line_start_exec(s: &Vec<char>, j: usize) -> (r: bool)
    requires
        j <= s@.len(),
    ensures
        r == is_line_start(s@, j as int),
{
    j == 0 || s[j - 1] == '\n'
}

fn opens_fence_exec(s: &Vec<char>, j: usize) -> (r: bool)
    ensures
        r == opens_fence(s@, j as int),
{
    j < s.len() && is_line_start_exec(s, j) && (s[j] == '`' || s[j] == '~') && run_len_exec(
        s,
        j,
        s[j],
    ) >= 3
}

fn line_end_after_exec(s: &Vec<char>, j: usize) -> (r: usize)
    requires
        j < s@.len(),
    ensures
        r == line_end_after(s@, j as int),
        j < r <= s@.len(),
{
    proof {
        lemma_line_end_after(s@, j as int);
    }
    let n = s.len();
    match find_char(s, '\n', j) {
        Some(k) => {
            proof {
                lemma_find_char_found(s@, '\n', j as int);
            }
            k + 1
        },
        None => s.len(),
    }
}

fn all_eq_exec(t: &Vec<char>, c: char) -> (r: bool)
    ensures
        r == all_eq(t@, c),
{
    let mut k: usize = 0;
    while k < t.len()
        invariant
            k <= t@.len(),
            forall|m: int| 0 <= m < k ==> t@[m] == c,
        decreases t@.len() - k,
    {
        if t[k] != c {
            return false;
        }
        k = k + 1;
    }
    true
}

fn closing_at_exec(s: &Vec<char>, l: usize, c: char, n: usize) -> (r: Option<usize>)
    ensures
        r matches Some(e) ==> closing_at(s@, l as int, c, n as int) == Some(e as int),
        r is None ==> closing_at(s@, l as int, c, n as int) is None,
{
    if l < s.len() && run_len_exec(s, l, c) >= n {
        let e = match find_char(s, '\n', l) {
            Some(k) => {
                proof {
                    lemma_find_char_found(s@, '\n', l as int);
                }
                k
            },
            None => s.len(),
        };
        let t = trim_range(s, l, e);
        if all_eq_exec(&t, c) && t.len() >= n {
            Some(e)
        } else {
            None
        }
    } else {
        None
    }
}

fn find_close_exec(s: &Vec<char>, sp: usize, c: char, n: usize) -> (r: Option<usize>)
    ensures
        r matches Some(e) ==> find_close(s@, sp as int, c, n as int) == Some(e as int),
        r is None ==> find_close(s@, sp as int, c, n as int) is None,
{
    let mut p = sp;
    while p < s.len()
        invariant
            sp <= p,
            find_close(s@, sp as int, c, n as int) == find_close(s@, p as int, c, n as int),
        decreases s@.len() - p,
    {
        match find_char(s, '\n', p) {
            None => {
                return None;
            },
            Some(nl) => {
                proof {
                    lemma_find_char_found(s@, '\n', p as int);
                }
                let l = nl + 1;
                if l < s.len() {
                    match closing_at_exec(s, l, c, n) {
                        Some(e) => {
                            return Some(e);
                        },
                        None => {},
                    }
                }
                p = l;
            },
        }
    }
    None
}

fn push_range(rs: &mut Vec<CodeBlockRange>, s: &Vec<char>, a: usize, b: usize, fenced: bool)
    requires
        a < b <= s@.len(),
        s@[a as int] != '\n',
    ensures
        final(rs)@.len() == old(rs)@.len() + 1,
        final(rs)@.drop_last() == old(rs)@,
        ranges_view(final(rs)@) == ranges_view(old(rs)@).push(
            (a as int, b as int, line_of(s@, a as int), line_of(s@, b as int), fenced),
        ),
{
    let la = count_char_prefix(s, '\n', a);
    let lb = count_char_prefix(s, '\n', b);
    proof {
        lemma_count_char_lt(s@.subrange(0, b as int), '\n', a as int);
    }
    assert(la <= a && lb < b);
    let ghost old_v = ranges_view(rs@);
    rs.push(
        CodeBlockRange { start: a, end: b, start_line: la + 1, end_line: lb + 1, is_fenced: fenced },
    );
    assert(rs@.drop_last() =~= old(rs)@);
    assert(ranges_view(rs@) =~= old_v.push(
        (a as int, b as int, line_of(s@, a as int), line_of(s@, b as int), fenced),
    ));
}

/// The fenced code blocks of a text, in order.
fn fenced_ranges(s: &Vec<char>) -> (r: Vec<CodeBlockRange>)
    ensures
        ranges_view(r@) == fenced_from(s@, 0),
{
    let mut r: Vec<CodeBlockRange> = Vec::new();
    let mut pos: usize = 0;
    while pos < s.len()
        invariant
            pos <= s@.len(),
            ranges_view(r@) + fenced_from(s@, pos as int) == fenced_from(s@, 0),
        decreases s@.len() - pos,
    {
        let ghost before = ranges_view(r@);
        let mut j = pos;
        while j < s.len() && !opens_fence_exec(s, j)
            invariant
                pos <= j <= s@.len(),
                next_open(s@, pos as int) == next_open(s@, j as int),
            decreases s@.len() - j,
        {
            j = j + 1;
        }
        if j >= s.len() {
            proof {
                assert(next_open(s@, j as int) is None);
                assert(fenced_from(s@, pos as int) == Seq::<RangeV>::empty());
                assert(before + Seq::<RangeV>::empty() == before);
                assert(fenced_from(s@, s@.len() as int) == Seq::<RangeV>::empty());
            }
            pos = s.len();
        } else {
            let c = s[j];
            let n = run_len_exec(s, j, c);
            let le = line_end_after_exec(s, j);
            match find_close_exec(s, le, c, n) {
                Some(e) => {
                    proof {
                        lemma_find_close(s@, le as int, c, n as int);
                    }
                    push_range(&mut r, s, j, e, true);
                    proof {
                        let h = (
                            j as int,
                            e as int,
                            line_of(s@, j as int),
                            line_of(s@, e as int),
                            true,
                        );
                        assert(fenced_from(s@, pos as int) == seq![h] + fenced_from(s@, e as int));
                        assert(before.push(h) + fenced_from(s@, e as int) =~= before + (seq![h]
                            + fenced_from(s@, e as int)));
                    }
                    pos = e;
                },
                None => {
                    assert(fenced_from(s@, pos as int) == fenced_from(s@, le as int));
                    pos = le;
                },
            }
        }
    }
    proof {
        assert(fenced_from(s@, pos as int) == Seq::<RangeV>::empty());
        assert(ranges_view(r@) + Seq::<RangeV>::empty() == ranges_view(r@));
    }
    r
}

fn units_end_exec(s: &Vec<char>, i: usize) -> (r: usize)
    requires
        i <= s@.len(),
    ensures
        r == units_end(s@, i as int),
        i <= r <= s@.len(),
{
    let mut k = i;
    loop
        invariant
            i <= k <= s@.len(),
            units_end(s@, i as int) == units_end(s@, k as int),
        decreases s@.len() - k,
    {
        if k < s.len() && s[k] != '`' {
            k = k + 1;
        } else if k < s.len() && k + 1 < s.len() && s[k] == '`' && s[k + 1] != '`' {
            k = k + 2;
        } else {
            return k;
        }
    }
}

fn ticks2_exec(s: &Vec<char>, i: usize) -> (r: bool)
    ensures
        r == ticks2_at(s@, i as int),
{
    i < s.len() && i + 1 < s.len() && s[i] == '`' && s[i + 1] == '`'
}

/// Double-backtick spans, leftmost first.
fn double_spans(s: &Vec<char>) -> (r: Vec<(usize, usize)>)
    ensures
        pairs_view(r@) == doubles_from(s@, 0),
        forall|k: int|
            0 <= k < r@.len() ==> (#[trigger] r@[k]).0 < r@[k].1 <= s@.len() && s@[r@[k].0 as int]
                == '`',
{
    let mut r: Vec<(usize, usize)> = Vec::new();
    let mut i: usize = 0;
    while i < s.len()
        invariant
            i <= s@.len(),
            pairs_view(r@) + doubles_from(
                s@,
                i as int,
            ) == doubles_from(s@, 0),
            forall|k: int|
                0 <= k < r@.len() ==> (#[trigger] r@[k]).0 < r@[k].1 <= s@.len() && s@[r@[
                    k
                ].0 as int] == '`',
        decreases s@.len() - i,
    {
        let ghost before = pairs_view(r@);
        if ticks2_exec(s, i) {
            let q = units_end_exec(s, i + 2);
            if ticks2_exec(s, q) {
                let e = q + 2;
                r.push((i, e));
                proof {
                    assert(pairs_view(r@)
                        =~= before.push((i as int, e as int)));
                    assert(doubles_from(s@, i as int) == seq![(i as int, e as int)] + doubles_from(
                        s@,
                        e as int,
                    ));
                    assert(before.push((i as int, e as int)) + doubles_from(s@, e as int)
                        =~= before + (seq![(i as int, e as int)] + doubles_from(s@, e as int)));
                }
                i = e;
                continue;
            }
        }
        i = i + 1;
    }
    proof {
        assert(doubles_from(s@, i as int) == Seq::<(int, int)>::empty());
        let m = pairs_view(r@);
        assert(m + Seq::<(int, int)>::empty() == m);
    }
    r
}

fn run_end_exec(s: &Vec<char>, i: usize) -> (r: usize)
    requires
        i <= s@.len(),
    ensures
        r == run_end(s@, i as int),
        i <= r <= s@.len(),
{
    let mut k = i;
    while k < s.len() && s[k] != '`' && s[k] != '\n'
        invariant
            i <= k <= s@.len(),
            run_end(s@, i as int) == run_end(s@, k as int),
        decreases s@.len() - k,
    {
        k = k + 1;
    }
    k
}

/// Single-backtick spans, leftmost first.
fn single_spans(s: &Vec<char>) -> (r: Vec<(usize, usize)>)
    ensures
        pairs_view(r@) == singles_from(s@, 0),
        forall|k: int|
            0 <= k < r@.len() ==> (#[trigger] r@[k]).0 < r@[k].1 <= s@.len() && s@[r@[k].0 as int]
                == '`',
{
    let mut r: Vec<(usize, usize)> = Vec::new();
    let mut i: usize = 0;
    while i < s.len()
        invariant
            i <= s@.len(),
            pairs_view(r@) + singles_from(
                s@,
                i as int,
            ) == singles_from(s@, 0),
            forall|k: int|
                0 <= k < r@.len() ==> (#[trigger] r@[k]).0 < r@[k].1 <= s@.len() && s@[r@[
                    k
                ].0 as int] == '`',
        decreases s@.len() - i,
    {
        let ghost before = pairs_view(r@);
        if s[i] == '`' {
            let q = run_end_exec(s, i + 1);
            if q > i + 1 && q < s.len() && s[q] == '`' {
                let e = q + 1;
                r.push((i, e));
                proof {
                    assert(pairs_view(r@)
                        =~= before.push((i as int, e as int)));
                    assert(singles_from(s@, i as int) == seq![(i as int, e as int)] + singles_from(
                        s@,
                        e as int,
                    ));
                    assert(before.push((i as int, e as int)) + singles_from(s@, e as int)
                        =~= before + (seq![(i as int, e as int)] + singles_from(s@, e as int)));
                }
                i = e;
                continue;
            }
        }
        i = i + 1;
    }
    proof {
        assert(singles_from(s@, i as int) == Seq::<(int, int)>::empty());
        let m = pairs_view(r@);
        assert(m + Seq::<(int, int)>::empty() == m);
    }
    r
}

fn inside_fenced_exec(rs: &Vec<CodeBlockRange>, n: usize, a: usize, b: usize) -> (r: bool)
    requires
        n <= rs@.len(),
    ensures
        r == inside_fenced(ranges_view(rs@.subrange(0, n as int)), a as int, b as int),
{
    let ghost v = ranges_view(rs@.subrange(0, n as int));
    let mut k: usize = 0;
    while k < n
        invariant
            k <= n <= rs@.len(),
            v == ranges_view(rs@.subrange(0, n as int)),
            forall|m: int| 0 <= m < k ==> !(v[m].4 && a >= v[m].0 && b <= v[m].1),
        decreases n - k,
    {
        if rs[k].is_fenced && a >= rs[k].start && b <= rs[k].end {
            assert(v[k as int] == range_view(rs@[k as int]));
            return true;
        }
        k = k + 1;
    }
    false
}

fn overlaps_any_exec(rs: &Vec<CodeBlockRange>, n: usize, a: usize, b: usize) -> (r: bool)
    requires
        n <= rs@.len(),
    ensures
        r == overlaps_any(ranges_view(rs@.subrange(0, n as int)), a as int, b as int),
{
    let ghost v = ranges_view(rs@.subrange(0, n as int));
    let mut k: usize = 0;
    while k < n
        invariant
            k <= n <= rs@.len(),
            v == ranges_view(rs@.subrange(0, n as int)),
            forall|m: int|
                0 <= m < k ==> !((a >= v[m].0 && a < v[m].1) || (b > v[m].0 && b <= v[m].1)),
        decreases n - k,
    {
        if (a >= rs[k].start && a < rs[k].end) || (b > rs[k].start && b <= rs[k].end) {
            assert(v[k as int] == range_view(rs@[k as int]));
            return true;
        }
        k = k + 1;
    }
    false
}

/// Swapping two elements keeps the multiset of a sequence.
pub proof fn lemma_swap_multiset<A>(s: Seq<A>, i: int, j: int)
    requires
        0 <= i < s.len(),
        0 <= j < s.len(),
    ensures
        s.update(i, s[j]).update(j, s[i]).to_multiset() == s.to_multiset(),
{
    broadcast use vstd::seq_lib::to_multiset_update, vstd::seq_lib::to_multiset_contains;
    broadcast use vstd::multiset::group_multiset_axioms;

    let t = s.update(i, s[j]);
    assert(t.to_multiset() == s.to_multiset().insert(s[j]).remove(s[i]));
    assert(t[j] == (if i == j { s[j] } else { s[j] }));
    assert(t.update(j, s[i]).to_multiset() == t.to_multiset().insert(s[i]).remove(t[j]));
    assert(s.to_multiset().contains(s[i]));
    assert(s.to_multiset().insert(s[j]).remove(s[i]).insert(s[i]).remove(s[j]) =~= s.to_multiset());
}

/// Stable insertion sort by start offset.
fn sort_by_start(rs: &mut Vec<CodeBlockRange>)
    ensures
        ranges_view(final(rs)@).to_multiset() == ranges_view(old(rs)@).to_multiset(),
        forall|i: int, j: int|
            0 <= i < j < final(rs)@.len() ==> final(rs)@[i].start <= final(rs)@[j].start,
{
    let n = rs.len();
    let mut i: usize = 1;
    if n == 0 {
        return;
    }
    while i < n
        invariant
            1 <= i <= n,
            n == rs@.len(),
            ranges_view(rs@).to_multiset() == ranges_view(old(rs)@).to_multiset(),
            forall|a: int, b: int| 0 <= a < b < i ==> rs@[a].start <= rs@[b].start,
        decreases n - i,
    {
        let mut j = i;
        while j > 0 && rs[j - 1].start > rs[j].start
            invariant
                0 <= j <= i < n,
                n == rs@.len(),
                ranges_view(rs@).to_multiset() == ranges_view(old(rs)@).to_multiset(),
                forall|a: int, b: int|
                    0 <= a < b <= i && a != j && b != j ==> rs@[a].start <= rs@[b].start,
                forall|b: int| j < b <= i ==> rs@[j as int].start < rs@[b].start,
            decreases j,
        {
            let x = rs[j - 1];
            let y = rs[j];
            let ghost before = rs@;
            rs.set(j - 1, y);
            rs.set(j, x);
            proof {
                let bv = ranges_view(before);
                assert(ranges_view(rs@) =~= bv.update(j - 1, bv[j as int]).update(
                    j as int,
                    bv[j - 1],
                ));
                lemma_swap_multiset(bv, j - 1, j as int);
            }
            j = j - 1;
        }
        i = i + 1;
    }
}

/// A character offset of a text as a byte offset (offsets past the end
/// count as the end).
pub open spec fn byte_offset(s: Seq<char>, i: int) -> int {
    crate::text::utf8_len(s.subrange(0, if i <= s.len() { i } else { s.len() as int }))
}

/// A code range with its offsets in bytes.
pub open spec fn byte_range(s: Seq<char>, r: RangeV) -> RangeV {
    (byte_offset(s, r.0), byte_offset(s, r.1), r.2, r.3, r.4)
}

fn byte_offset_of(s: &Vec<char>, i: usize) -> (r: usize)
    requires
        crate::text::utf8_len(s@) <= usize::MAX,
    ensures
        r == byte_offset(s@, i as int),
{
    let k = if i <= s.len() { i } else { s.len() };
    crate::text::bytes_between(s, 0, k)
}

/// Find all code block and inline code ranges in content, their offsets
/// counted in UTF-8 bytes, ordered by start.
///
/// These ranges should be excluded when parsing for links, tags, etc.
pub fn find_code_block_ranges(content: &str) -> (r: Vec<CodeBlockRange>)
    ensures
        exists|cr: Seq<RangeV>|
            #![trigger cr.to_multiset()]
            cr.to_multiset() == code_ranges(content@).to_multiset() && (forall|i: int, j: int|
                0 <= i < j < cr.len() ==> cr[i].0 <= cr[j].0) && ranges_view(r@) == cr.map_values(
                |x: RangeV| byte_range(content@, x),
            ),
{
    let s = crate::text::chars_of(content);
    let _ = crate::text::byte_len(content);
    let cs = code_ranges_of(&s);
    let mut r: Vec<CodeBlockRange> = Vec::new();
    let mut k: usize = 0;
    while k < cs.len()
        invariant
            k <= cs@.len(),
            s@ == content@,
            crate::text::utf8_len(s@) <= usize::MAX,
            ranges_view(r@) == ranges_view(cs@).subrange(0, k as int).map_values(
                |x: RangeV| byte_range(content@, x),
            ),
        decreases cs@.len() - k,
    {
        let c = cs[k];
        let b = CodeBlockRange {
            start: byte_offset_of(&s, c.start),
            end: byte_offset_of(&s, c.end),
            start_line: c.start_line,
            end_line: c.end_line,
            is_fenced: c.is_fenced,
        };
        let ghost before = r@;
        r.push(b);
        assert(range_view(b) == byte_range(content@, range_view(c)));
        assert(ranges_view(cs@)[k as int] == range_view(c));
        assert(r@ == before.push(b));
        assert(ranges_view(r@) =~= ranges_view(before).push(range_view(b)));
        assert(ranges_view(r@) =~= ranges_view(cs@).subrange(0, k + 1).map_values(
            |x: RangeV| byte_range(content@, x),
        ));
        k = k + 1;
    }
    assert(ranges_view(cs@).subrange(0, cs@.len() as int) =~= ranges_view(cs@));
    assert(forall|i: int, j: int|
        0 <= i < j < ranges_view(cs@).len() ==> ranges_view(cs@)[i].0 <= ranges_view(cs@)[j].0);
    r
}

/// Code ranges of a text given as characters.
pub fn code_ranges_of(s: &Vec<char>) -> (r: Vec<CodeBlockRange>)
    ensures
        ranges_view(r@).to_multiset() == code_ranges(s@).to_multiset(),
        forall|i: int, j: int| 0 <= i < j < r@.len() ==> r@[i].start <= r@[j].start,
{
    let mut r = unsorted_ranges(s);
    sort_by_start(&mut r);
    r
}

/// The code ranges in the order they are found.
fn unsorted_ranges(s: &Vec<char>) -> (r: Vec<CodeBlockRange>)
    ensures
        ranges_view(r@) == code_ranges(s@),
{
    let mut r = fenced_ranges(s);
    let ghost fs = ranges_view(r@);
    let nf = r.len();
    let ds = double_spans(s);
    let ghost dall = doubles_from(s@, 0);
    let mut k: usize = 0;
    proof {
        assert(r@.subrange(0, nf as int) == r@);
        assert(dall.subrange(0, 0) == Seq::<(int, int)>::empty());
        assert(fs + Seq::<RangeV>::empty() == fs);
    }
    while k < ds.len()
        invariant
            k <= ds@.len(),
            ds@.len() == dall.len(),
            nf <= r@.len(),
            fs == fenced_from(s@, 0),
            dall == doubles_from(s@, 0),
            fs == ranges_view(r@.subrange(0, nf as int)),
            ranges_view(r@) == fs + keep_doubles(s@, fs, dall.subrange(0, k as int)),
            pairs_view(ds@) == dall,
            forall|m: int|
                0 <= m < ds@.len() ==> (#[trigger] ds@[m]).0 < ds@[m].1 <= s@.len() && s@[ds@[
                    m
                ].0 as int] == '`',
        decreases ds@.len() - k,
    {
        let (a, b) = ds[k];
        proof {
            assert(ds@[k as int] == (a, b));
            assert(pairs_view(ds@)[k as int] == (a as int, b as int));
            assert(dall[k as int] == (a as int, b as int));
            assert(dall.subrange(0, k + 1).drop_last() == dall.subrange(0, k as int));
            assert(dall.subrange(0, k + 1).last() == (a as int, b as int));
        }
        let ghost prev = r@;
        if !inside_fenced_exec(&r, nf, a, b) {
            push_range(&mut r, s, a, b, false);
            proof {
                assert(r@.subrange(0, nf as int) =~= r@.drop_last().subrange(0, nf as int));
            }
        }
        k = k + 1;
    }
    proof {
        assert(dall.subrange(0, k as int) == dall);
    }
    let ghost fd = ranges_view(r@);
    let nfd = r.len();
    let ss = single_spans(s);
    let ghost sall = singles_from(s@, 0);
    let mut k: usize = 0;
    proof {
        assert(r@.subrange(0, nfd as int) == r@);
        assert(sall.subrange(0, 0) == Seq::<(int, int)>::empty());
        assert(fd + Seq::<RangeV>::empty() == fd);
    }
    while k < ss.len()
        invariant
            k <= ss@.len(),
            ss@.len() == sall.len(),
            nfd <= r@.len(),
            fd == fenced_from(s@, 0) + keep_doubles(s@, fenced_from(s@, 0), doubles_from(s@, 0)),
            sall == singles_from(s@, 0),
            fd == ranges_view(r@.subrange(0, nfd as int)),
            ranges_view(r@) == fd + keep_singles(s@, fd, sall.subrange(0, k as int)),
            pairs_view(ss@) == sall,
            forall|m: int|
                0 <= m < ss@.len() ==> (#[trigger] ss@[m]).0 < ss@[m].1 <= s@.len() && s@[ss@[
                    m
                ].0 as int] == '`',
        decreases ss@.len() - k,
    {
        let (a, b) = ss[k];
        proof {
            assert(ss@[k as int] == (a, b));
            assert(pairs_view(ss@)[k as int] == (a as int, b as int));
            assert(sall[k as int] == (a as int, b as int));
            assert(sall.subrange(0, k + 1).drop_last() == sall.subrange(0, k as int));
            assert(sall.subrange(0, k + 1).last() == (a as int, b as int));
        }
        let ghost prev = r@;
        if !overlaps_any_exec(&r, nfd, a, b) {
            push_range(&mut r, s, a, b, false);
            proof {
                assert(r@.subrange(0, nfd as int) =~= r@.drop_last().subrange(0, nfd as int));
            }
        }
        k = k + 1;
    }
    proof {
        assert(sall.subrange(0, k as int) == sall);
    }
    r
}

/// Check if an offset is inside any code block.
pub fn is_in_code_block(offset: usize, ranges: &[CodeBlockRange]) -> (r: bool)
    ensures
        r == exists|k: int|
            0 <= k < ranges@.len() && (#[trigger] ranges@[k]).start <= offset < ranges@[k].end,
{
    let mut k: usize = 0;
    while k < ranges.len()
        invariant
            k <= ranges@.len(),
            forall|m: int| 0 <= m < k ==> !((#[trigger] ranges@[m]).start <= offset < ranges@[m].end),
        decreases ranges@.len() - k,
    {
        if offset >= ranges[k].start && offset < ranges[k].end {
            return true;
        }
        k = k + 1;
    }
    false
}

/// Check if a line number is inside any fenced code block.
pub fn is_line_in_fenced_code_block(line: usize, ranges: &[CodeBlockRange]) -> (r: bool)
    ensures
        r == exists|k: int|
            0 <= k < ranges@.len() && (#[trigger] ranges@[k]).is_fenced && ranges@[k].start_line <= line
                <= ranges@[k].end_line,
{
    let mut k: usize = 0;
    while k < ranges.len()
        invariant
            k <= ranges@.len(),
            forall|m: int|
                0 <= m < k ==> !((#[trigger] ranges@[m]).is_fenced && ranges@[m].start_line <= line
                    <= ranges@[m].end_line),
        decreases ranges@.len() - k,
    {
        if ranges[k].is_fenced && line >= ranges[k].start_line && line <= ranges[k].end_line {
            return true;
        }
        k = k + 1;
    }
    false
}

} // verus!
