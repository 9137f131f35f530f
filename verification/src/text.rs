//! Character-level helpers shared by the parsers.
//!
//! Notes are processed as sequences of `char`s. Line and column numbers
//! produced by the parsers count characters.

use vstd::prelude::*;

verus! {

// ---------------------------------------------------------------------------
// Specifications
// ---------------------------------------------------------------------------

/// `p` occurs in `s` starting at index `i`.
pub open spec fn occurs_at(s: Seq<char>, p: Seq<char>, i: int) -> bool {
    0 <= i && i + p.len() <= s.len() && s.subrange(i, i + p.len()) == p
}

/// `s` starts with `p`.
pub open spec fn has_prefix(s: Seq<char>, p: Seq<char>) -> bool {
    occurs_at(s, p, 0)
}

/// `s` ends with `p`.
pub open spec fn has_suffix(s: Seq<char>, p: Seq<char>) -> bool {
    p.len() <= s.len() && occurs_at(s, p, s.len() - p.len())
}

/// The first index at or after `i` where `p` occurs in `s`.
pub open spec fn find_from(s: Seq<char>, p: Seq<char>, i: int) -> Option<int>
    decreases s.len() + 1 - i,
{
    if i < 0 || i + p.len() > s.len() {
        None
    } else if occurs_at(s, p, i) {
        Some(i)
    } else {
        find_from(s, p, i + 1)
    }
}

/// `p` occurs somewhere in `s`.
pub open spec fn contains_seq(s: Seq<char>, p: Seq<char>) -> bool {
    find_from(s, p, 0) is Some
}

/// The first index at or after `i` holding `c`.
pub open spec fn find_char_from(s: Seq<char>, c: char, i: int) -> Option<int>
    decreases s.len() - i,
{
    if i < 0 || i >= s.len() {
        None
    } else if s[i] == c {
        Some(i)
    } else {
        find_char_from(s, c, i + 1)
    }
}

/// Number of occurrences of `c` in `s`.
pub open spec fn count_char(s: Seq<char>, c: char) -> nat
    decreases s.len(),
{
    if s.len() == 0 {
        0
    } else {
        count_char(s.drop_last(), c) + if s.last() == c { 1nat } else { 0nat }
    }
}

/// Unicode `White_Space`, the set that `char::is_whitespace` and the
/// regular-expression class `\s` test.
pub open spec fn is_ws(c: char) -> bool {
    let v = c as u32;
    (0x09 <= v <= 0x0d) || v == 0x20 || v == 0x85 || v == 0xa0 || v == 0x1680 || (0x2000 <= v
        <= 0x200a) || v == 0x2028 || v == 0x2029 || v == 0x202f || v == 0x205f || v == 0x3000
}

pub open spec fn is_ascii_digit(c: char) -> bool {
    '0' <= c <= '9'
}

pub open spec fn is_ascii_alpha(c: char) -> bool {
    ('a' <= c <= 'z') || ('A' <= c <= 'Z')
}

pub open spec fn is_ascii_alnum(c: char) -> bool {
    is_ascii_alpha(c) || is_ascii_digit(c)
}

/// `char::to_ascii_lowercase`.
pub open spec fn ascii_lower(c: char) -> char {
    if 'A' <= c <= 'Z' {
        ((c as u32) + 32) as char
    } else {
        c
    }
}

pub open spec fn ascii_lower_seq(s: Seq<char>) -> Seq<char> {
    s.map_values(|c: char| ascii_lower(c))
}

/// Index of the first non-whitespace character at or after `i`.
pub open spec fn skip_ws(s: Seq<char>, i: int) -> int
    decreases s.len() - i,
{
    if 0 <= i < s.len() && is_ws(s[i]) {
        skip_ws(s, i + 1)
    } else {
        i
    }
}

/// Index just past the last non-whitespace character before `j`.
pub open spec fn back_ws(s: Seq<char>, j: int) -> int
    decreases j,
{
    if 0 < j <= s.len() && is_ws(s[j - 1]) {
        back_ws(s, j - 1)
    } else {
        j
    }
}

/// `str::trim_start`.
pub open spec fn trim_start(s: Seq<char>) -> Seq<char> {
    s.subrange(skip_ws(s, 0), s.len() as int)
}

/// `str::trim_end`.
pub open spec fn trim_end(s: Seq<char>) -> Seq<char> {
    s.subrange(0, back_ws(s, s.len() as int))
}

/// `str::trim`.
pub open spec fn trim(s: Seq<char>) -> Seq<char> {
    trim_end(trim_start(s))
}

/// One line as `str::lines` yields it: a trailing carriage return is
/// dropped when a line feed followed it.
pub open spec fn strip_cr(line: Seq<char>) -> Seq<char> {
    if line.len() > 0 && line.last() == '\r' {
        line.drop_last()
    } else {
        line
    }
}

/// `str::lines`: split at `\n` (dropping a `\r` before it); a final line
/// feed does not open an empty last line.
pub open spec fn lines(s: Seq<char>) -> Seq<Seq<char>>
    decreases s.len(),
{
    if s.len() == 0 {
        Seq::empty()
    } else {
        match find_char_from(s, '\n', 0) {
            Some(i) => {
                proof {
                    lemma_find_char_found(s, '\n', 0);
                }
                seq![strip_cr(s.subrange(0, i))] + lines(s.subrange(i + 1, s.len() as int))
            },
            None => seq![s],
        }
    }
}

/// Joins lines with `\n` between them (`[&str]::join("\n")`).
pub open spec fn join_lines(ls: Seq<Seq<char>>) -> Seq<char>
    decreases ls.len(),
{
    if ls.len() == 0 {
        Seq::empty()
    } else if ls.len() == 1 {
        ls[0]
    } else {
        join_lines(ls.drop_last()) + seq!['\n'] + ls.last()
    }
}

/// Concatenates lines, each followed by `\n`.
pub open spec fn lines_with_newlines(ls: Seq<Seq<char>>) -> Seq<char>
    decreases ls.len(),
{
    if ls.len() == 0 {
        Seq::empty()
    } else {
        lines_with_newlines(ls.drop_last()) + ls.last() + seq!['\n']
    }
}

/// Decimal digits of `n`, as `usize`'s `Display` writes them.
pub open spec fn decimal(n: nat) -> Seq<char>
    decreases n,
{
    if n < 10 {
        seq![digit_char(n)]
    } else {
        decimal(n / 10) + seq![digit_char(n % 10)]
    }
}

pub open spec fn digit_char(d: nat) -> char {
    ((d + 48) as u32) as char
}

/// The text as `str::lines` followed by `join("\n")` gives it back, with a
/// final line feed when the text ended with one: every `\r\n` becomes `\n`.
pub open spec fn crlf_to_lf(s: Seq<char>) -> Seq<char>
    decreases s.len(),
{
    if s.len() < 2 {
        s
    } else if s[0] == '\r' && s[1] == '\n' {
        seq!['\n'] + crlf_to_lf(s.subrange(2, s.len() as int))
    } else {
        seq![s[0]] + crlf_to_lf(s.subrange(1, s.len() as int))
    }
}

/// Membership of a non-ASCII character in the Unicode word class `\w` of
/// regular expressions (Alphabetic, Join_Control, Decimal_Number, Mark,
/// Connector_Punctuation).
pub uninterp spec fn unicode_word(c: char) -> bool;

/// Membership in the word class `\w`: among ASCII characters the letters,
/// the digits and `_`.
pub open spec fn is_word(c: char) -> bool {
    if (c as u32) < 0x80 {
        is_ascii_alnum(c) || c == '_'
    } else {
        unicode_word(c)
    }
}

/// The number of bytes a character takes in UTF-8.
pub open spec fn char_bytes(c: char) -> int {
    let v = c as int;
    if v < 0x80 {
        1
    } else if v < 0x800 {
        2
    } else if v < 0x10000 {
        3
    } else {
        4
    }
}

/// The length of a text in UTF-8 bytes.
pub open spec fn utf8_len(s: Seq<char>) -> int
    decreases s.len(),
{
    if s.len() == 0 {
        0
    } else {
        utf8_len(s.drop_last()) + char_bytes(s.last())
    }
}

/// The first character index, from `k` on, at which the UTF-8 length of
/// the prefix of `l` is `b`.
pub open spec fn char_at_byte(l: Seq<char>, b: int, k: int) -> Option<int>
    decreases l.len() + 1 - k,
{
    if k < 0 || k > l.len() {
        None
    } else if utf8_len(l.subrange(0, k)) == b {
        Some(k)
    } else {
        char_at_byte(l, b, k + 1)
    }
}

pub proof fn lemma_utf8_len_concat(a: Seq<char>, b: Seq<char>)
    ensures
        utf8_len(a + b) == utf8_len(a) + utf8_len(b),
    decreases b.len(),
{
    if b.len() > 0 {
        lemma_utf8_len_concat(a, b.drop_last());
        assert((a + b).drop_last() =~= a + b.drop_last());
        assert((a + b).last() == b.last());
    } else {
        assert(a + b =~= a);
    }
}

pub proof fn lemma_utf8_len_single(c: char)
    ensures
        utf8_len(seq![c]) == char_bytes(c),
{
    assert(seq![c].drop_last() =~= Seq::<char>::empty());
    assert(utf8_len(Seq::<char>::empty()) == 0);
}

pub proof fn lemma_utf8_len_bounds(s: Seq<char>)
    ensures
        s.len() <= utf8_len(s) <= 4 * s.len(),
    decreases s.len(),
{
    if s.len() > 0 {
        lemma_utf8_len_bounds(s.drop_last());
    }
}

/// A byte offset that falls on a character boundary names the index
/// whose prefix has that many bytes.
pub proof fn lemma_char_at_byte_some(l: Seq<char>, b: int, k0: int)
    requires
        0 <= k0,
        char_at_byte(l, b, k0) is Some,
    ensures
        k0 <= char_at_byte(l, b, k0)->0 <= l.len(),
        utf8_len(l.subrange(0, char_at_byte(l, b, k0)->0)) == b,
    decreases l.len() + 1 - k0,
{
    if utf8_len(l.subrange(0, k0)) != b {
        lemma_char_at_byte_some(l, b, k0 + 1);
    }
}

/// A longer prefix takes more bytes.
pub proof fn lemma_utf8_prefix_strict(l: Seq<char>, k1: int, k2: int)
    requires
        0 <= k1 < k2 <= l.len(),
    ensures
        utf8_len(l.subrange(0, k1)) < utf8_len(l.subrange(0, k2)),
{
    assert(l.subrange(0, k2) =~= l.subrange(0, k1) + l.subrange(k1, k2));
    lemma_utf8_len_concat(l.subrange(0, k1), l.subrange(k1, k2));
    lemma_utf8_len_bounds(l.subrange(k1, k2));
}

/// `a` comes before `b` in the order of `str`'s `Ord`: character by
/// character by code point, a prefix first.
#[verifier::opaque]
pub open spec fn str_lt(a: Seq<char>, b: Seq<char>) -> bool
    decreases a.len(),
{
    if a.len() == 0 {
        b.len() > 0
    } else if b.len() == 0 {
        false
    } else if a[0] != b[0] {
        a[0] < b[0]
    } else {
        str_lt(a.drop_first(), b.drop_first())
    }
}

/// `str_lt` is a strict total order.
pub proof fn lemma_str_lt_order(a: Seq<char>, b: Seq<char>, c: Seq<char>)
    ensures
        !str_lt(a, a),
        str_lt(a, b) && str_lt(b, c) ==> str_lt(a, c),
        a != b ==> str_lt(a, b) || str_lt(b, a),
    decreases a.len(),
{
    reveal(str_lt);
    if a.len() > 0 {
        lemma_str_lt_order(a.drop_first(), a.drop_first(), a.drop_first());
    }
    if a.len() > 0 && b.len() > 0 {
        if c.len() > 0 {
            lemma_str_lt_order(a.drop_first(), b.drop_first(), c.drop_first());
        } else {
            lemma_str_lt_order(a.drop_first(), b.drop_first(), c);
        }
        if a[0] == b[0] && a.drop_first() == b.drop_first() {
            assert(a =~= seq![a[0]] + a.drop_first());
            assert(b =~= seq![b[0]] + b.drop_first());
        }
    } else if a.len() == 0 && b.len() == 0 {
        assert(a =~= b);
    }
}

/// `str_lt`, computed.
pub fn str_lt_exec(a: &[char], b: &[char]) -> (r: bool)
    ensures
        r == str_lt(a@, b@),
{
    reveal(str_lt);
    let mut i: usize = 0;
    proof {
        assert(a@.subrange(0, a@.len() as int) =~= a@);
        assert(b@.subrange(0, b@.len() as int) =~= b@);
    }
    while i < a.len() && i < b.len() && a[i] == b[i]
        invariant
            i <= a@.len(),
            i <= b@.len(),
            str_lt(a@, b@) == str_lt(a@.subrange(i as int, a@.len() as int), b@.subrange(i as int, b@.len() as int)),
        decreases a@.len() - i,
    {
        proof {
            reveal(str_lt);
            let x = a@.subrange(i as int, a@.len() as int);
            let y = b@.subrange(i as int, b@.len() as int);
            assert(x.drop_first() =~= a@.subrange(i + 1, a@.len() as int));
            assert(y.drop_first() =~= b@.subrange(i + 1, b@.len() as int));
        }
        i = i + 1;
    }
    proof {
        reveal(str_lt);
    }
    let ghost x = a@.subrange(i as int, a@.len() as int);
    let ghost y = b@.subrange(i as int, b@.len() as int);
    if i == a.len() {
        assert(x.len() == 0);
        i < b.len()
    } else if i == b.len() {
        assert(y.len() == 0);
        false
    } else {
        assert(x[0] == a@[i as int]);
        assert(y[0] == b@[i as int]);
        a[i] < b[i]
    }
}

/// A slice takes no more bytes than the whole text.
pub proof fn lemma_utf8_len_sub(s: Seq<char>, lo: int, hi: int)
    requires
        0 <= lo <= hi <= s.len(),
    ensures
        hi - lo <= utf8_len(s.subrange(lo, hi)) <= utf8_len(s),
{
    let a = s.subrange(0, lo);
    let b = s.subrange(lo, hi);
    let c = s.subrange(hi, s.len() as int);
    assert(s =~= a + b + c);
    lemma_utf8_len_concat(a + b, c);
    lemma_utf8_len_concat(a, b);
    lemma_utf8_len_bounds(a);
    lemma_utf8_len_bounds(b);
    lemma_utf8_len_bounds(c);
}

// ---------------------------------------------------------------------------
// Lemmas
// ---------------------------------------------------------------------------

pub proof fn lemma_find_from_found(s: Seq<char>, p: Seq<char>, i: int)
    requires
        find_from(s, p, i) is Some,
    ensures
        i <= find_from(s, p, i)->0,
        occurs_at(s, p, find_from(s, p, i)->0),
        forall|k: int| i <= k < find_from(s, p, i)->0 ==> !occurs_at(s, p, k),
    decreases s.len() + 1 - i,
{
    if !occurs_at(s, p, i) {
        lemma_find_from_found(s, p, i + 1);
    }
}

pub proof fn lemma_find_from_none(s: Seq<char>, p: Seq<char>, i: int)
    requires
        0 <= i,
        find_from(s, p, i) is None,
    ensures
        forall|k: int| i <= k ==> !occurs_at(s, p, k),
    decreases s.len() + 1 - i,
{
    if i + p.len() <= s.len() {
        lemma_find_from_none(s, p, i + 1);
    }
}

pub proof fn lemma_find_char_found(s: Seq<char>, c: char, i: int)
    requires
        find_char_from(s, c, i) is Some,
    ensures
        i <= find_char_from(s, c, i)->0 < s.len(),
        s[find_char_from(s, c, i)->0] == c,
        forall|k: int| i <= k < find_char_from(s, c, i)->0 ==> s[k] != c,
    decreases s.len() - i,
{
    if s[i] != c {
        lemma_find_char_found(s, c, i + 1);
    }
}

pub proof fn lemma_find_char_none(s: Seq<char>, c: char, i: int)
    requires
        0 <= i,
        find_char_from(s, c, i) is None,
    ensures
        forall|k: int| i <= k < s.len() ==> s[k] != c,
    decreases s.len() - i,
{
    if i < s.len() {
        lemma_find_char_none(s, c, i + 1);
    }
}

pub proof fn lemma_count_char_push(s: Seq<char>, d: char, c: char)
    ensures
        count_char(s.push(d), c) == count_char(s, c) + if d == c { 1nat } else { 0nat },
{
    assert(s.push(d).drop_last() == s);
}

pub proof fn lemma_skip_ws_bounds(s: Seq<char>, i: int)
    requires
        0 <= i <= s.len(),
    ensures
        i <= skip_ws(s, i) <= s.len(),
        forall|k: int| i <= k < skip_ws(s, i) ==> is_ws(#[trigger] s[k]),
        skip_ws(s, i) < s.len() ==> !is_ws(s[skip_ws(s, i)]),
    decreases s.len() - i,
{
    if i < s.len() && is_ws(s[i]) {
        lemma_skip_ws_bounds(s, i + 1);
    }
}

pub proof fn lemma_back_ws_bounds(s: Seq<char>, j: int)
    requires
        0 <= j <= s.len(),
    ensures
        0 <= back_ws(s, j) <= j,
        forall|k: int| back_ws(s, j) <= k < j ==> is_ws(#[trigger] s[k]),
        back_ws(s, j) > 0 ==> !is_ws(s[back_ws(s, j) - 1]),
    decreases j,
{
    if 0 < j && is_ws(s[j - 1]) {
        lemma_back_ws_bounds(s, j - 1);
    }
}

/// `back_ws` only looks at the characters before `j`.
pub proof fn lemma_back_ws_prefix(s: Seq<char>, t: Seq<char>, j: int)
    requires
        0 <= j <= s.len(),
        j <= t.len(),
        s.subrange(0, j) == t.subrange(0, j),
    ensures
        back_ws(s, j) == back_ws(t, j),
    decreases j,
{
    if 0 < j {
        assert(s[j - 1] == s.subrange(0, j)[j - 1]);
        assert(t[j - 1] == t.subrange(0, j)[j - 1]);
        assert(s.subrange(0, j - 1) == s.subrange(0, j).subrange(0, j - 1));
        assert(t.subrange(0, j - 1) == t.subrange(0, j).subrange(0, j - 1));
        lemma_back_ws_prefix(s, t, j - 1);
    }
}

/// `skip_ws` over a suffix.
pub proof fn lemma_skip_ws_shift(s: Seq<char>, a: int, i: int)
    requires
        0 <= a <= s.len(),
        0 <= i <= s.len() - a,
    ensures
        skip_ws(s.subrange(a, s.len() as int), i) == skip_ws(s, a + i) - a,
    decreases s.len() - a - i,
{
    let t = s.subrange(a, s.len() as int);
    if i < t.len() {
        assert(t[i] == s[a + i]);
        if is_ws(t[i]) {
            lemma_skip_ws_shift(s, a, i + 1);
        }
    }
}

// ---------------------------------------------------------------------------
// Executable helpers
// ---------------------------------------------------------------------------

/// The characters of a string slice, in order.
pub fn chars_of(s: &str) -> (r: Vec<char>)
    ensures
        r@ == s@,
{
    let mut r: Vec<char> = Vec::new();
    for c in it: s.chars()
        invariant
            r@ == it.seq().take(it.index() as int),
    {
        r.push(c);
    }
    proof {
        broadcast use vstd::string::group_string_axioms;
    }
    r
}

/// `str::len`: the length of a string in UTF-8 bytes.
#[verifier::external_body]
pub fn byte_len(s: &str) -> (r: usize)
    ensures
        r == utf8_len(s@),
{
    s.len()
}

pub fn char_byte_count(c: char) -> (r: usize)
    ensures
        r == char_bytes(c),
{
    let v = c as u32;
    if v < 0x80 {
        1
    } else if v < 0x800 {
        2
    } else if v < 0x10000 {
        3
    } else {
        4
    }
}

/// The UTF-8 length of `s[lo..hi]`, for a text that fits in memory.
pub fn bytes_between(s: &Vec<char>, lo: usize, hi: usize) -> (r: usize)
    requires
        lo <= hi <= s@.len(),
        utf8_len(s@) <= usize::MAX,
    ensures
        r == utf8_len(s@.subrange(lo as int, hi as int)),
{
    let mut r: usize = 0;
    let mut i: usize = lo;
    assert(s@.subrange(lo as int, lo as int) =~= Seq::<char>::empty());
    while i < hi
        invariant
            lo <= i <= hi <= s@.len(),
            utf8_len(s@) <= usize::MAX,
            r == utf8_len(s@.subrange(lo as int, i as int)),
        decreases hi - i,
    {
        proof {
            assert(s@.subrange(lo as int, i + 1).drop_last() =~= s@.subrange(lo as int, i as int));
            lemma_utf8_len_sub(s@, lo as int, i + 1);
        }
        r = r + char_byte_count(s[i]);
        i = i + 1;
    }
    r
}

/// The character index of the byte offset `b` in `l`, when `b` falls on a
/// character boundary.
pub fn char_index_at_byte(l: &Vec<char>, b: usize) -> (r: Option<usize>)
    ensures
        match char_at_byte(l@, b as int, 0) {
            Some(k) => r matches Some(x) && x as int == k,
            None => r is None,
        },
{
    let mut acc: u128 = 0;
    let mut k: usize = 0;
    assert(l@.subrange(0, 0) =~= Seq::<char>::empty());
    loop
        invariant
            k <= l@.len(),
            acc == utf8_len(l@.subrange(0, k as int)),
            char_at_byte(l@, b as int, 0) == char_at_byte(l@, b as int, k as int),
        decreases l@.len() - k,
    {
        proof {
            lemma_utf8_len_bounds(l@.subrange(0, k as int));
        }
        if acc == b as u128 {
            return Some(k);
        }
        if k == l.len() {
            assert(char_at_byte(l@, b as int, k + 1) is None);
            return None;
        }
        proof {
            assert(l@.subrange(0, k + 1).drop_last() =~= l@.subrange(0, k as int));
        }
        acc = acc + char_byte_count(l[k]) as u128;
        k = k + 1;
    }
}

/// Appends one character to a string (`String::push`).
#[verifier::external_body]
pub(crate) fn push_char(s: &mut String, c: char)
    ensures
        final(s)@ == old(s)@.push(c),
{
    s.push(c);
}

/// Builds a string from characters.
pub fn string_of(v: &[char]) -> (r: String)
    ensures
        r@ == v@,
{
    let mut r = String::new();
    let mut i: usize = 0;
    while i < v.len()
        invariant
            i <= v@.len(),
            r@ == v@.subrange(0, i as int),
        decreases v@.len() - i,
    {
        push_char(&mut r, v[i]);
        i = i + 1;
        assert(r@ == v@.subrange(0, i as int));
    }
    r
}

/// Builds a string from the characters `v[lo..hi]`.
pub fn string_of_range(v: &Vec<char>, lo: usize, hi: usize) -> (r: String)
    requires
        lo <= hi <= v@.len(),
    ensures
        r@ == v@.subrange(lo as int, hi as int),
{
    let mut r = String::new();
    let mut i: usize = lo;
    while i < hi
        invariant
            lo <= i <= hi <= v@.len(),
            r@ == v@.subrange(lo as int, i as int),
        decreases hi - i,
    {
        push_char(&mut r, v[i]);
        i = i + 1;
        assert(r@ == v@.subrange(lo as int, i as int));
    }
    r
}

/// Copies `v[lo..hi]`.
pub fn sub_vec(v: &Vec<char>, lo: usize, hi: usize) -> (r: Vec<char>)
    requires
        lo <= hi <= v@.len(),
    ensures
        r@ == v@.subrange(lo as int, hi as int),
{
    let mut r: Vec<char> = Vec::new();
    let mut i: usize = lo;
    while i < hi
        invariant
            lo <= i <= hi <= v@.len(),
            r@ == v@.subrange(lo as int, i as int),
        decreases hi - i,
    {
        r.push(v[i]);
        i = i + 1;
        assert(r@ == v@.subrange(lo as int, i as int));
    }
    r
}

/// Appends the characters of `src` to `dst`.
pub fn append_chars(dst: &mut Vec<char>, src: &[char])
    ensures
        final(dst)@ == old(dst)@ + src@,
{
    let mut i: usize = 0;
    while i < src.len()
        invariant
            i <= src@.len(),
            dst@ == old(dst)@ + src@.subrange(0, i as int),
        decreases src@.len() - i,
    {
        dst.push(src[i]);
        i = i + 1;
        assert(dst@ == old(dst)@ + src@.subrange(0, i as int));
    }
    assert(src@.subrange(0, src@.len() as int) == src@);
}

/// Appends a string slice to a string (`String::push_str`).
pub fn push_str_chars(dst: &mut String, src: &[char])
    ensures
        final(dst)@ == old(dst)@ + src@,
{
    let mut i: usize = 0;
    while i < src.len()
        invariant
            i <= src@.len(),
            dst@ == old(dst)@ + src@.subrange(0, i as int),
        decreases src@.len() - i,
    {
        push_char(dst, src[i]);
        i = i + 1;
        assert(dst@ == old(dst)@ + src@.subrange(0, i as int));
    }
    assert(src@.subrange(0, src@.len() as int) == src@);
}

/// `a` followed by `b`.
pub fn concat(a: String, b: &str) -> (r: String)
    ensures
        r@ == a@ + b@,
{
    let mut a = a;
    let c = chars_of(b);
    push_str_chars(&mut a, c.as_slice());
    a
}

/// Membership of a non-ASCII character in Unicode's `Alphabetic` or
/// `Numeric` classes.
pub uninterp spec fn unicode_alphanumeric(c: char) -> bool;

/// `char::is_alphanumeric`: among ASCII characters the letters and digits.
pub open spec fn is_alphanumeric(c: char) -> bool {
    if (c as u32) < 0x80 {
        is_ascii_alnum(c)
    } else {
        unicode_alphanumeric(c)
    }
}

/// `char::is_alphanumeric`.
#[verifier::external_body]
pub fn alphanumeric(c: char) -> (r: bool)
    ensures
        r == is_alphanumeric(c),
        (c as u32) >= 0x80 ==> r == unicode_alphanumeric(c),
{
    c.is_alphanumeric()
}

/// The Unicode lowercase mapping of a string (`str::to_lowercase`).
pub uninterp spec fn str_lowercase(s: Seq<char>) -> Seq<char>;

/// All characters are ASCII.
pub open spec fn all_ascii(s: Seq<char>) -> bool {
    forall|i: int| 0 <= i < s.len() ==> (#[trigger] s[i] as u32) < 0x80
}

/// `str::to_lowercase`; on ASCII text this is the ASCII lowercasing.
#[verifier::external_body]
pub fn to_lowercase(s: &str) -> (r: String)
    ensures
        r@ == str_lowercase(s@),
        all_ascii(s@) ==> r@ == ascii_lower_seq(s@),
{
    s.to_lowercase()
}

/// The stem of the last component of a path (`Path::file_stem`), with the
/// path rules of the target the crate is built for (on Unix, `/` separates
/// components); the contracts below claim nothing more of it.
pub uninterp spec fn path_file_stem(p: Seq<char>) -> Option<Seq<char>>;

/// The parent of a path (`Path::parent`), with the path rules of the
/// target the crate is built for (on Unix, `/` separates components).
pub uninterp spec fn path_parent(p: Seq<char>) -> Option<Seq<char>>;

/// `Path::file_stem` of a path given as a string.
#[verifier::external_body]
pub fn file_stem_of(p: &str) -> (r: Option<String>)
    ensures
        r matches Some(x) ==> path_file_stem(p@) == Some(x@),
        r is None ==> path_file_stem(p@) is None,
{
    std::path::Path::new(p).file_stem().and_then(|s| s.to_str()).map(|s| s.to_string())
}

/// `Path::parent` of a path given as a string.
#[verifier::external_body]
pub fn parent_of(p: &str) -> (r: Option<String>)
    ensures
        r matches Some(x) ==> path_parent(p@) == Some(x@),
        r is None ==> path_parent(p@) is None,
{
    std::path::Path::new(p).parent().and_then(|s| s.to_str()).map(|s| s.to_string())
}

/// The path `base` joined with `name` (`Path::join`), as text, with the
/// path rules of the target the crate is built for (on Unix, `/`).
pub uninterp spec fn path_join(base: Seq<char>, name: Seq<char>) -> Seq<char>;

/// `Path::join` on paths given as strings.
#[verifier::external_body]
pub fn join_path(base: &str, name: &str) -> (r: String)
    ensures
        r@ == path_join(base@, name@),
{
    std::path::Path::new(base).join(name).to_string_lossy().into_owned()
}

/// The pattern `a b`.
pub fn pat2(a: char, b: char) -> (r: Vec<char>)
    ensures
        r@ == seq![a, b],
{
    let mut r: Vec<char> = Vec::new();
    r.push(a);
    r.push(b);
    assert(r@ =~= seq![a, b]);
    r
}

/// The pattern `a b c`.
pub fn pat3(a: char, b: char, c: char) -> (r: Vec<char>)
    ensures
        r@ == seq![a, b, c],
{
    let mut r = pat2(a, b);
    r.push(c);
    assert(r@ =~= seq![a, b, c]);
    r
}

/// The pattern `a b c d`.
pub fn pat4(a: char, b: char, c: char, d: char) -> (r: Vec<char>)
    ensures
        r@ == seq![a, b, c, d],
{
    let mut r = pat3(a, b, c);
    r.push(d);
    assert(r@ =~= seq![a, b, c, d]);
    r
}

/// The pattern `a b c d e`.
pub fn pat5(a: char, b: char, c: char, d: char, e: char) -> (r: Vec<char>)
    ensures
        r@ == seq![a, b, c, d, e],
{
    let mut r = pat4(a, b, c, d);
    r.push(e);
    assert(r@ =~= seq![a, b, c, d, e]);
    r
}

/// The pattern `a b c d e f`.
pub fn pat6(a: char, b: char, c: char, d: char, e: char, f: char) -> (r: Vec<char>)
    ensures
        r@ == seq![a, b, c, d, e, f],
{
    let mut r = pat5(a, b, c, d, e);
    r.push(f);
    assert(r@ =~= seq![a, b, c, d, e, f]);
    r
}

/// Whether `c` is a word character for regular expressions
/// (`regex_syntax::try_is_word_character`). Among ASCII characters the word
/// characters are the letters, the digits and `_`.
#[verifier::external_body]
pub fn is_word_char(c: char) -> (r: bool)
    ensures
        r == is_word(c),
        (c as u32) >= 0x80 ==> r == unicode_word(c),
{
    regex_syntax::try_is_word_character(c).unwrap_or(false)
}

/// An owned copy of a string slice.
pub fn lit(s: &str) -> (r: String)
    ensures
        r@ == s@,
{
    s.to_owned()
}

/// Decimal representation of `n`.
pub fn decimal_string(n: usize) -> (r: String)
    ensures
        r@ == decimal(n as nat),
    decreases n,
{
    let m = n;
    if m < 10 {
        let mut r = String::new();
        push_char(&mut r, digit_of(m));
        assert(r@ =~= decimal(n as nat));
        return r;
    }
    let mut r = decimal_string(m / 10);
    push_char(&mut r, digit_of(m % 10));
    r
}

fn digit_of(d: usize) -> (r: char)
    requires
        d < 10,
    ensures
        r == digit_char(d as nat),
{
    let v: u32 = (d as u32) + 48;
    char_from_ascii(v)
}

/// Replaces every `\r\n` with `\n`.
pub fn crlf_to_lf_vec(s: &Vec<char>) -> (r: Vec<char>)
    ensures
        r@ == crlf_to_lf(s@),
{
    let mut r: Vec<char> = Vec::new();
    let mut i: usize = 0;
    proof {
        assert(s@.subrange(0, s@.len() as int) == s@);
    }
    while i < s.len()
        invariant
            i <= s@.len(),
            r@ + crlf_to_lf(s@.subrange(i as int, s@.len() as int)) == crlf_to_lf(s@),
        decreases s@.len() - i,
    {
        let ghost rest = s@.subrange(i as int, s@.len() as int);
        if i + 1 < s.len() && s[i] == '\r' && s[i + 1] == '\n' {
            r.push('\n');
            proof {
                assert(rest.subrange(2, rest.len() as int) == s@.subrange(i + 2, s@.len() as int));
                assert(crlf_to_lf(rest) == seq!['\n'] + crlf_to_lf(
                    s@.subrange(i + 2, s@.len() as int),
                ));
                assert(r@ + crlf_to_lf(s@.subrange(i + 2, s@.len() as int)) =~= r@.drop_last() + (
                seq!['\n'] + crlf_to_lf(s@.subrange(i + 2, s@.len() as int))));
            }
            i = i + 2;
        } else {
            let c = s[i];
            r.push(c);
            proof {
                assert(rest.subrange(1, rest.len() as int) == s@.subrange(i + 1, s@.len() as int));
                if rest.len() >= 2 {
                    assert(crlf_to_lf(rest) == seq![c] + crlf_to_lf(
                        s@.subrange(i + 1, s@.len() as int),
                    ));
                } else {
                    assert(crlf_to_lf(rest) == rest);
                    assert(rest =~= seq![c]);
                    assert(s@.subrange(i + 1, s@.len() as int) =~= Seq::<char>::empty());
                    assert(crlf_to_lf(s@.subrange(i + 1, s@.len() as int)) =~= Seq::<
                        char,
                    >::empty());
                }
                assert(r@ + crlf_to_lf(s@.subrange(i + 1, s@.len() as int)) =~= r@.drop_last() + (
                seq![c] + crlf_to_lf(s@.subrange(i + 1, s@.len() as int))));
            }
            i = i + 1;
        }
    }
    proof {
        assert(crlf_to_lf(s@.subrange(i as int, s@.len() as int)) =~= Seq::<char>::empty());
        assert(r@ + Seq::<char>::empty() == r@);
    }
    r
}

/// Character-wise equality.
pub fn same_chars(a: &[char], b: &[char]) -> (r: bool)
    ensures
        r == (a@ == b@),
{
    if a.len() != b.len() {
        return false;
    }
    let mut k: usize = 0;
    while k < a.len()
        invariant
            a@.len() == b@.len(),
            k <= a@.len(),
            forall|m: int| 0 <= m < k ==> a@[m] == b@[m],
        decreases a@.len() - k,
    {
        if a[k] != b[k] {
            return false;
        }
        k = k + 1;
    }
    assert(a@ =~= b@);
    true
}

/// The text `{:?}` writes for a string: quoted, with escapes.
pub uninterp spec fn debug_repr(s: Seq<char>) -> Seq<char>;

/// `format!("{:?}", s)` for a string slice.
#[verifier::external_body]
pub fn debug_string(s: &str) -> (r: String)
    ensures
        r@ == debug_repr(s@),
{
    format!("{:?}", s)
}

/// `char::is_whitespace`.
pub fn is_whitespace(c: char) -> (r: bool)
    ensures
        r == is_ws(c),
{
    let v = c as u32;
    (0x09 <= v && v <= 0x0d) || v == 0x20 || v == 0x85 || v == 0xa0 || v == 0x1680 || (0x2000 <= v
        && v <= 0x200a) || v == 0x2028 || v == 0x2029 || v == 0x202f || v == 0x205f || v == 0x3000
}

/// `char::to_ascii_lowercase`.
pub fn to_ascii_lower(c: char) -> (r: char)
    ensures
        r == ascii_lower(c),
{
    if 'A' <= c && c <= 'Z' {
        let v: u32 = (c as u32) + 32;
        assert(0x61 <= v <= 0x7a);
        char_from_ascii(v)
    } else {
        c
    }
}

/// The ASCII character with code `v`.
fn char_from_ascii(v: u32) -> (r: char)
    requires
        v < 0x80,
    ensures
        r == v as char,
{
    let b: u8 = v as u8;
    b as char
}

/// `p` occurs in `s` at `i`.
pub fn matches_at(s: &[char], i: usize, p: &[char]) -> (r: bool)
    ensures
        r == occurs_at(s@, p@, i as int),
{
    if i > s.len() || p.len() > s.len() - i {
        return false;
    }
    let n = s.len();
    let mut k: usize = 0;
    while k < p.len()
        invariant
            n == s@.len(),
            i + p@.len() <= s@.len(),
            k <= p@.len(),
            forall|m: int| 0 <= m < k ==> s@[i + m] == p@[m],
        decreases p@.len() - k,
    {
        assert(i + k < s@.len());
        if s[i + k] != p[k] {
            assert(s@.subrange(i as int, i + p@.len())[k as int] != p@[k as int]);
            return false;
        }
        k = k + 1;
    }
    assert(s@.subrange(i as int, i + p@.len()) =~= p@);
    true
}

/// `s` ends with `suffix` (`str::ends_with`).
pub fn ends_with_str(s: &[char], suffix: &str) -> (r: bool)
    ensures
        r == has_suffix(s@, suffix@),
{
    let p = chars_of(suffix);
    if p.len() > s.len() {
        return false;
    }
    matches_at(s, s.len() - p.len(), p.as_slice())
}

/// `s` starts with `prefix` (`str::starts_with`).
pub fn starts_with_str(s: &[char], prefix: &str) -> (r: bool)
    ensures
        r == has_prefix(s@, prefix@),
{
    let p = chars_of(prefix);
    matches_at(s, 0, p.as_slice())
}

/// First occurrence of `p` in `s` at or after `i`.
pub fn find_seq_from(s: &[char], p: &[char], i: usize) -> (r: Option<usize>)
    ensures
        r matches Some(k) ==> find_from(s@, p@, i as int) == Some(k as int),
        r is None ==> find_from(s@, p@, i as int) is None,
{
    if p.len() > s.len() || i > s.len() - p.len() {
        return None;
    }
    if p.len() == 0 {
        assert(s@.subrange(i as int, i as int) =~= p@);
        return Some(i);
    }
    let mut k: usize = i;
    while k <= s.len() - p.len()
        invariant
            0 < p@.len() <= s@.len(),
            i <= k,
            find_from(s@, p@, i as int) == find_from(s@, p@, k as int),
        decreases s@.len() - k,
    {
        if matches_at(s, k, p) {
            return Some(k);
        }
        k = k + 1;
    }
    None
}

/// First occurrence of `c` in `s` at or after `i`.
pub fn find_char(s: &[char], c: char, i: usize) -> (r: Option<usize>)
    ensures
        r matches Some(k) ==> find_char_from(s@, c, i as int) == Some(k as int),
        r is None ==> find_char_from(s@, c, i as int) is None,
{
    let mut k: usize = i;
    while k < s.len()
        invariant
            i <= k,
            find_char_from(s@, c, i as int) == find_char_from(s@, c, k as int),
        decreases s@.len() - k,
    {
        if s[k] == c {
            return Some(k);
        }
        k = k + 1;
    }
    None
}

/// Number of `c` in `s[0..n]`.
pub fn count_char_prefix(s: &[char], c: char, n: usize) -> (r: usize)
    requires
        n <= s@.len(),
    ensures
        r == count_char(s@.subrange(0, n as int), c),
        r <= n,
{
    let mut k: usize = 0;
    let mut r: usize = 0;
    while k < n
        invariant
            k <= n <= s@.len(),
            r <= k,
            r == count_char(s@.subrange(0, k as int), c),
        decreases n - k,
    {
        proof {
            lemma_count_char_push(s@.subrange(0, k as int), s@[k as int], c);
            assert(s@.subrange(0, k as int).push(s@[k as int]) == s@.subrange(0, k + 1));
        }
        if s[k] == c {
            r = r + 1;
        }
        k = k + 1;
    }
    r
}

/// Index of the first non-whitespace character at or after `i`.
pub fn skip_whitespace(s: &[char], i: usize) -> (r: usize)
    requires
        i <= s@.len(),
    ensures
        r == skip_ws(s@, i as int),
        i <= r <= s@.len(),
{
    let mut k = i;
    while k < s.len() && is_whitespace(s[k])
        invariant
            i <= k <= s@.len(),
            skip_ws(s@, i as int) == skip_ws(s@, k as int),
        decreases s@.len() - k,
    {
        k = k + 1;
    }
    k
}

/// Index just past the last non-whitespace character before `j`.
pub fn back_whitespace(s: &[char], j: usize) -> (r: usize)
    requires
        j <= s@.len(),
    ensures
        r == back_ws(s@, j as int),
        r <= j,
{
    let mut k = j;
    while k > 0 && is_whitespace(s[k - 1])
        invariant
            k <= j <= s@.len(),
            back_ws(s@, j as int) == back_ws(s@, k as int),
        decreases k,
    {
        k = k - 1;
    }
    k
}

/// `str::trim` on `s[lo..hi]`.
pub fn trim_range(s: &Vec<char>, lo: usize, hi: usize) -> (r: Vec<char>)
    requires
        lo <= hi <= s@.len(),
    ensures
        r@ == trim(s@.subrange(lo as int, hi as int)),
{
    let t = sub_vec(s, lo, hi);
    trim_vec(&t)
}

/// `str::trim`.
pub fn trim_vec(t: &Vec<char>) -> (r: Vec<char>)
    ensures
        r@ == trim(t@),
{
    let a = skip_whitespace(t, 0);
    let u = sub_vec(t, a, t.len());
    let b = back_whitespace(&u, u.len());
    sub_vec(&u, 0, b)
}

/// `str::trim_start`.
pub fn trim_start_vec(t: &Vec<char>) -> (r: Vec<char>)
    ensures
        r@ == trim_start(t@),
{
    let a = skip_whitespace(t, 0);
    sub_vec(t, a, t.len())
}

/// `str::trim_end`.
pub fn trim_end_vec(t: &Vec<char>) -> (r: Vec<char>)
    ensures
        r@ == trim_end(t@),
{
    let b = back_whitespace(t, t.len());
    sub_vec(t, 0, b)
}

/// `str::lines`.
pub fn split_lines(s: &Vec<char>) -> (r: Vec<Vec<char>>)
    ensures
        r.deep_view() == lines(s@),
{
    let mut r: Vec<Vec<char>> = Vec::new();
    let mut start: usize = 0;
    proof {
        assert(s@.subrange(0, s@.len() as int) == s@);
        assert(r.deep_view() =~= Seq::<Seq<char>>::empty());
        assert(Seq::<Seq<char>>::empty() + lines(s@) == lines(s@));
    }
    while start < s.len()
        invariant
            start <= s@.len(),
            r.deep_view() + lines(s@.subrange(start as int, s@.len() as int)) == lines(s@),
        decreases s@.len() - start,
    {
        let ghost rest = s@.subrange(start as int, s@.len() as int);
        match find_char(s, '\n', start) {
            Some(i) => {
                proof {
                    lemma_find_char_found(s@, '\n', start as int);
                    lemma_find_char_shift(s@, '\n', start as int);
                    assert(rest.len() > 0);
                    assert(find_char_from(rest, '\n', 0) == Some(i - start));
                    assert(rest.subrange(0, i - start) == s@.subrange(start as int, i as int));
                    assert(rest.subrange(i - start + 1, rest.len() as int) == s@.subrange(
                        i + 1,
                        s@.len() as int,
                    ));
                }
                let mut line = sub_vec(s, start, i);
                if line.len() > 0 && line[line.len() - 1] == '\r' {
                    line.pop();
                }
                proof {
                    let a = r.deep_view();
                    assert(line@ == strip_cr(s@.subrange(start as int, i as int)));
                }
                let ghost before = r.deep_view();
                proof {
                    assert(line.deep_view() =~= line@);
                }
                r.push(line);
                proof {
                    assert(r.deep_view() =~= before.push(line@));
                    assert(lines(rest) == seq![line@] + lines(
                        s@.subrange(i + 1, s@.len() as int),
                    ));
                    assert(before.push(line@) + lines(s@.subrange(i + 1, s@.len() as int))
                        == before + (seq![line@] + lines(s@.subrange(i + 1, s@.len() as int))));
                }
                start = i + 1;
            },
            None => {
                proof {
                    lemma_find_char_shift(s@, '\n', start as int);
                    assert(rest.len() > 0);
                    assert(find_char_from(rest, '\n', 0) is None);
                    assert(rest == s@.subrange(start as int, s@.len() as int));
                }
                let line = sub_vec(s, start, s.len());
                let ghost before = r.deep_view();
                proof {
                    assert(line.deep_view() =~= line@);
                }
                r.push(line);
                proof {
                    assert(r.deep_view() =~= before.push(line@));
                    assert(lines(rest) == seq![line@]);
                    assert(lines(s@.subrange(s@.len() as int, s@.len() as int)) == Seq::<
                        Seq<char>,
                    >::empty());
                    assert(before.push(line@) + Seq::<Seq<char>>::empty() == before + seq![line@]);
                }
                start = s.len();
            },
        }
    }
    proof {
        assert(lines(s@.subrange(start as int, s@.len() as int)) == Seq::<Seq<char>>::empty());
        assert(r.deep_view() + Seq::<Seq<char>>::empty() == r.deep_view());
    }
    r
}

/// `find_char_from` on a suffix.
pub proof fn lemma_find_char_shift(s: Seq<char>, c: char, a: int)
    requires
        0 <= a <= s.len(),
    ensures
        ({
            let t = s.subrange(a, s.len() as int);
            match find_char_from(s, c, a) {
                Some(i) => find_char_from(t, c, 0) == Some(i - a),
                None => find_char_from(t, c, 0) is None,
            }
        }),
{
    lemma_find_char_shift_gen(s, c, a, 0);
}

proof fn lemma_find_char_shift_gen(s: Seq<char>, c: char, a: int, k: int)
    requires
        0 <= a <= s.len(),
        0 <= k <= s.len() - a,
    ensures
        ({
            let t = s.subrange(a, s.len() as int);
            match find_char_from(s, c, a + k) {
                Some(i) => find_char_from(t, c, k) == Some(i - a),
                None => find_char_from(t, c, k) is None,
            }
        }),
    decreases s.len() - a - k,
{
    let t = s.subrange(a, s.len() as int);
    if k < t.len() {
        assert(t[k] == s[a + k]);
        if s[a + k] != c {
            lemma_find_char_shift_gen(s, c, a, k + 1);
        }
    }
}

/// Joins lines with `\n` between them.
pub fn join_with_newlines(ls: &Vec<Vec<char>>) -> (r: Vec<char>)
    ensures
        r@ == join_lines(ls.deep_view()),
{
    let mut r: Vec<char> = Vec::new();
    let mut i: usize = 0;
    while i < ls.len()
        invariant
            i <= ls@.len(),
            r@ == join_lines(ls.deep_view().subrange(0, i as int)),
        decreases ls@.len() - i,
    {
        proof {
            let d = ls.deep_view();
            assert(d.subrange(0, i + 1).drop_last() == d.subrange(0, i as int));
            assert(d[i as int] == ls@[i as int]@);
        }
        if i > 0 {
            r.push('\n');
        }
        append_chars(&mut r, ls[i].as_slice());
        i = i + 1;
    }
    proof {
        assert(ls.deep_view().subrange(0, ls@.len() as int) == ls.deep_view());
    }
    r
}

/// The decimal text of an integer, with `-` in front when negative.
pub open spec fn int_text(i: int) -> Seq<char> {
    if i < 0 {
        seq!['-'] + decimal((-i) as nat)
    } else {
        decimal(i as nat)
    }
}

/// Decimal representation of a `u64`.
pub fn decimal_u64(n: u64) -> (r: String)
    ensures
        r@ == decimal(n as nat),
    decreases n,
{
    if n < 10 {
        let mut r = String::new();
        push_char(&mut r, char_from_ascii((n as u32) + 48));
        assert(r@ =~= decimal(n as nat));
        return r;
    }
    let mut r = decimal_u64(n / 10);
    push_char(&mut r, char_from_ascii(((n % 10) as u32) + 48));
    r
}

/// Decimal representation of an `i64` (`i64`'s `Display`).
pub fn int_string(i: i64) -> (r: String)
    ensures
        r@ == int_text(i as int),
{
    if i < 0 {
        let m: u64 = if i == i64::MIN {
            9223372036854775808u64
        } else {
            (-i) as u64
        };
        let d = decimal_u64(m);
        let mut r = String::new();
        push_char(&mut r, '-');
        let dc = chars_of(d.as_str());
        push_str_chars(&mut r, dc.as_slice());
        r
    } else {
        decimal_u64(i as u64)
    }
}

} // verus!
