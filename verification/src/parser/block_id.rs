//! Block ID parsing (`^block-id` at the end of a line).

use vstd::prelude::*;
use crate::parser::code_block::{code_ranges_of, is_line_in_fenced_code_block, line_in_fence, ranges_view};
use crate::text::{
    chars_of, has_prefix, has_suffix, is_ascii_alnum, is_ascii_digit, is_whitespace, is_ws, lines,
    split_lines, starts_with_str, ends_with_str, string_of, sub_vec, trim_end, trim_end_vec,
    trim_start, trim_start_vec,
};
use crate::types::{BlockId, BlockType};

verus! {

/// A character that may stand in a block ID.
pub open spec fn is_id_char(c: char) -> bool {
    is_ascii_alnum(c) || c == '_' || c == '-'
}

/// The last index below `j` holding `c`.
pub open spec fn last_index_before(t: Seq<char>, c: char, j: int) -> Option<int>
    decreases j,
{
    if j <= 0 {
        None
    } else if t[j - 1] == c {
        Some(j - 1)
    } else {
        last_index_before(t, c, j - 1)
    }
}

/// The block ID at the end of a line: whitespace, `^`, one or more ID
/// characters, then only whitespace to the end.
pub open spec fn line_block_id(line: Seq<char>) -> Option<Seq<char>> {
    let t = trim_end(line);
    match last_index_before(t, '^', t.len() as int) {
        Some(k) => {
            let id = t.subrange(k + 1, t.len() as int);
            if k >= 1 && is_ws(t[k - 1]) && id.len() > 0 && forall|m: int|
                0 <= m < id.len() ==> is_id_char(#[trigger] id[m]) {
                Some(id)
            } else {
                None
            }
        },
        None => None,
    }
}

/// The number of leading ASCII digits of `t`.
pub open spec fn digit_run(t: Seq<char>, i: int) -> int
    decreases t.len() - i,
{
    if 0 <= i < t.len() && is_ascii_digit(t[i]) {
        digit_run(t, i + 1)
    } else {
        i
    }
}

/// The kind of block a line belongs to.
pub open spec fn spec_block_type(line: Seq<char>) -> BlockType {
    let t = trim_start(line);
    let d = digit_run(t, 0);
    if has_prefix(t, "#"@) {
        BlockType::Heading
    } else if has_prefix(t, "- "@) || has_prefix(t, "* "@) || has_prefix(t, "+ "@) {
        BlockType::ListItem
    } else if d > 0 && has_prefix(t.subrange(d, t.len() as int), ". "@) {
        BlockType::ListItem
    } else if has_prefix(t, ">"@) {
        BlockType::Blockquote
    } else if has_prefix(t, "|"@) && has_suffix(t, "|"@) {
        BlockType::Table
    } else if has_prefix(t, "```"@) || has_prefix(t, "~~~"@) {
        BlockType::CodeBlock
    } else {
        BlockType::Paragraph
    }
}

/// The mathematical value of a block ID record.
pub open spec fn block_view(b: BlockId) -> (Seq<char>, int, BlockType) {
    (b.id@, b.line as int, b.block_type)
}

pub open spec fn blocks_view(bs: Seq<BlockId>) -> Seq<(Seq<char>, int, BlockType)> {
    bs.map_values(|b: BlockId| block_view(b))
}

/// The block IDs of lines `k..` of the note `s` (line numbers from `k + 1`),
/// skipping lines in fenced code blocks.
pub open spec fn blocks_from(s: Seq<char>, k: int) -> Seq<(Seq<char>, int, BlockType)>
    decreases lines(s).len() - k,
{
    let ls = lines(s);
    if k < 0 || k >= ls.len() {
        Seq::empty()
    } else {
        let here: Seq<(Seq<char>, int, BlockType)> = if line_in_fence(s, k + 1) {
            Seq::empty()
        } else {
            match line_block_id(ls[k]) {
                Some(id) => seq![(id, k + 1, spec_block_type(ls[k]))],
                None => Seq::empty(),
            }
        };
        here + blocks_from(s, k + 1)
    }
}

/// The block IDs of a note: one per line that ends with one, outside
/// fenced code blocks.
pub open spec fn spec_block_ids(s: Seq<char>) -> Seq<(Seq<char>, int, BlockType)> {
    blocks_from(s, 0)
}

fn is_id_char_exec(c: char) -> (r: bool)
    ensures
        r == is_id_char(c),
{
    ('a' <= c && c <= 'z') || ('A' <= c && c <= 'Z') || ('0' <= c && c <= '9') || c == '_' || c
        == '-'
}

/// The block ID at the end of a line, if any.
fn line_block_id_exec(line: &Vec<char>) -> (r: Option<Vec<char>>)
    ensures
        match line_block_id(line@) {
            Some(id) => r matches Some(x) && x@ == id,
            None => r is None,
        },
{
    let t = trim_end_vec(line);
    let mut j = t.len();
    while j > 0 && t[j - 1] != '^'
        invariant
            j <= t@.len(),
            last_index_before(t@, '^', j as int) == last_index_before(t@, '^', t@.len() as int),
        decreases j,
    {
        j = j - 1;
    }
    if j == 0 {
        return None;
    }
    let k = j - 1;
    assert(last_index_before(t@, '^', t@.len() as int) == Some(k as int));
    let id = sub_vec(&t, k + 1, t.len());
    if k < 1 || !is_whitespace(t[k - 1]) || id.len() == 0 {
        return None;
    }
    let mut m: usize = 0;
    while m < id.len()
        invariant
            m <= id@.len(),
            t@ == trim_end(line@),
            1 <= k < t@.len(),
            id@ == t@.subrange(k + 1, t@.len() as int),
            last_index_before(t@, '^', t@.len() as int) == Some(k as int),
            is_ws(t@[k - 1]),
            id@.len() > 0,
            forall|q: int| 0 <= q < m ==> is_id_char(#[trigger] id@[q]),
        decreases id@.len() - m,
    {
        if !is_id_char_exec(id[m]) {
            assert(!is_id_char(id@[m as int]));
            return None;
        }
        m = m + 1;
    }
    Some(id)
}

/// Number of leading ASCII digits.
fn digit_run_exec(t: &Vec<char>) -> (r: usize)
    ensures
        r == digit_run(t@, 0),
        r <= t@.len(),
{
    let mut i: usize = 0;
    while i < t.len() && '0' <= t[i] && t[i] <= '9'
        invariant
            i <= t@.len(),
            digit_run(t@, i as int) == digit_run(t@, 0),
        decreases t@.len() - i,
    {
        i = i + 1;
    }
    i
}

/// The kind of block a line belongs to.
fn determine_block_type(line: &Vec<char>) -> (r: BlockType)
    ensures
        r == spec_block_type(line@),
{
    let t = trim_start_vec(line);
    let s = t.as_slice();
    if starts_with_str(s, "#") {
        return BlockType::Heading;
    }
    if starts_with_str(s, "- ") || starts_with_str(s, "* ") || starts_with_str(s, "+ ") {
        return BlockType::ListItem;
    }
    let d = digit_run_exec(&t);
    if d > 0 {
        let rest = sub_vec(&t, d, t.len());
        if starts_with_str(rest.as_slice(), ". ") {
            return BlockType::ListItem;
        }
    }
    if starts_with_str(s, ">") {
        return BlockType::Blockquote;
    }
    if starts_with_str(s, "|") && ends_with_str(s, "|") {
        return BlockType::Table;
    }
    if starts_with_str(s, "```") || starts_with_str(s, "~~~") {
        return BlockType::CodeBlock;
    }
    BlockType::Paragraph
}

/// A line in a fenced block exists among the ranges iff it does among the
/// ranges' values.
pub proof fn lemma_fence_line(s: Seq<char>, rs: Seq<crate::parser::code_block::CodeBlockRange>, l: int)
    requires
        ranges_view(rs).to_multiset() == crate::parser::code_block::code_ranges(s).to_multiset(),
    ensures
        (exists|k: int|
            0 <= k < rs.len() && (#[trigger] rs[k]).is_fenced && rs[k].start_line <= l
                <= rs[k].end_line) <==> line_in_fence(s, l),
{
    broadcast use vstd::seq_lib::group_to_multiset_ensures;

    let cr = crate::parser::code_block::code_ranges(s);
    let rv = ranges_view(rs);
    if exists|k: int|
        0 <= k < rs.len() && (#[trigger] rs[k]).is_fenced && rs[k].start_line <= l <= rs[k].end_line {
        let k = choose|k: int|
            0 <= k < rs.len() && (#[trigger] rs[k]).is_fenced && rs[k].start_line <= l
                <= rs[k].end_line;
        let x = rv[k];
        assert(rv.to_multiset().count(x) > 0);
        assert(cr.to_multiset().count(x) > 0);
        assert(cr.contains(x));
        let j = choose|j: int| 0 <= j < cr.len() && cr[j] == x;
        assert(cr[j].4 && cr[j].2 <= l <= cr[j].3);
    }
    if line_in_fence(s, l) {
        let j = choose|j: int|
            0 <= j < cr.len() && (#[trigger] cr[j]).4 && cr[j].2 <= l <= cr[j].3;
        let x = cr[j];
        assert(cr.to_multiset().count(x) > 0);
        assert(rv.to_multiset().count(x) > 0);
        assert(rv.contains(x));
        let k = choose|k: int| 0 <= k < rv.len() && rv[k] == x;
        assert(rs[k].is_fenced && rs[k].start_line <= l <= rs[k].end_line);
    }
}

/// Parse all block IDs of a note, skipping lines in fenced code blocks.
pub fn parse_block_ids(content: &str) -> (r: Vec<BlockId>)
    ensures
        blocks_view(r@) == spec_block_ids(content@),
{
    let s = chars_of(content);
    let ranges = code_ranges_of(&s);
    let ls = split_lines(&s);
    let ghost lsv = lines(s@);
    let mut out: Vec<BlockId> = Vec::new();
    let mut k: usize = 0;
    proof {
        assert(ls.deep_view() == lsv);
    }
    while k < ls.len()
        invariant
            k <= ls@.len(),
            ls.deep_view() == lsv,
            lsv == lines(s@),
            s@ == content@,
            ranges_view(ranges@).to_multiset() == crate::parser::code_block::code_ranges(
                s@,
            ).to_multiset(),
            blocks_view(out@) + blocks_from(s@, k as int) == spec_block_ids(content@),
        decreases ls@.len() - k,
    {
        let line = &ls[k];
        proof {
            assert(ls.deep_view()[k as int] == ls@[k as int]@);
            lemma_fence_line(s@, ranges@, k + 1);
        }
        let ghost before = blocks_view(out@);
        if !is_line_in_fenced_code_block(k + 1, ranges.as_slice()) {
            match line_block_id_exec(line) {
                Some(id) => {
                    let b = BlockId {
                        id: string_of(id.as_slice()),
                        line: k + 1,
                        block_type: determine_block_type(line),
                    };
                    out.push(b);
                    proof {
                        assert(blocks_view(out@) =~= before.push(block_view(b)));
                    }
                },
                None => {},
            }
        }
        proof {
            assert(blocks_view(out@) + blocks_from(s@, k + 1) =~= before + blocks_from(s@, k as int));
        }
        k = k + 1;
    }
    proof {
        assert(blocks_view(out@) + Seq::empty() == blocks_view(out@));
    }
    out
}

/// The line of the first block with ID `id`.
pub open spec fn first_with_id(bs: Seq<(Seq<char>, int, BlockType)>, id: Seq<char>) -> Option<int>
    decreases bs.len(),
{
    if bs.len() == 0 {
        None
    } else if bs[0].0 == id {
        Some(bs[0].1)
    } else {
        first_with_id(bs.drop_first(), id)
    }
}

/// The first block with ID `id`: its line number and the line's text.
pub open spec fn spec_find_block(s: Seq<char>, id: Seq<char>) -> Option<(int, Seq<char>)> {
    match first_with_id(spec_block_ids(s), id) {
        Some(l) => Some((l, lines(s)[l - 1])),
        None => None,
    }
}

/// Block IDs sit on lines of the note.
pub proof fn lemma_block_lines(s: Seq<char>, k: int)
    requires
        0 <= k,
    ensures
        forall|i: int|
            0 <= i < blocks_from(s, k).len() ==> k + 1 <= (#[trigger] blocks_from(s, k)[i]).1
                <= lines(s).len(),
    decreases lines(s).len() - k,
{
    if k < lines(s).len() {
        lemma_block_lines(s, k + 1);
        let b = blocks_from(s, k);
        let rest = blocks_from(s, k + 1);
        assert forall|i: int| 0 <= i < b.len() implies k + 1 <= (#[trigger] b[i]).1 <= lines(s).len() by {
            if i >= b.len() - rest.len() {
                assert(b[i] == rest[i - (b.len() - rest.len())]);
            }
        }
    }
}

proof fn lemma_first_with_id_bounds(bs: Seq<(Seq<char>, int, BlockType)>, id: Seq<char>, lo: int, hi: int)
    requires
        forall|i: int| 0 <= i < bs.len() ==> lo <= (#[trigger] bs[i]).1 <= hi,
    ensures
        first_with_id(bs, id) matches Some(l) ==> lo <= l <= hi,
    decreases bs.len(),
{
    if bs.len() > 0 && bs[0].0 != id {
        assert forall|i: int| 0 <= i < bs.drop_first().len() implies lo <= (#[trigger] bs.drop_first()[i]).1 <= hi by {
            assert(bs.drop_first()[i] == bs[i + 1]);
        }
        lemma_first_with_id_bounds(bs.drop_first(), id, lo, hi);
    }
}

/// Find a block by its ID: the line number and the text of the line.
pub fn find_block_by_id(content: &str, block_id: &str) -> (r: Option<(usize, String)>)
    ensures
        match spec_find_block(content@, block_id@) {
            Some(x) => r matches Some(y) && y.0 == x.0 && y.1@ == x.1,
            None => r is None,
        },
{
    let blocks = parse_block_ids(content);
    let want = chars_of(block_id);
    let ghost bs = spec_block_ids(content@);
    proof {
        lemma_block_lines(content@, 0);
        lemma_first_with_id_bounds(bs, block_id@, 1, lines(content@).len() as int);
    }
    assert(bs.subrange(0, bs.len() as int) == bs);
    let mut k: usize = 0;
    while k < blocks.len()
        invariant
            k <= blocks@.len(),
            blocks_view(blocks@) == bs,
            first_with_id(bs, block_id@) matches Some(l) ==> 1 <= l <= lines(content@).len(),
            bs == spec_block_ids(content@),
            want@ == block_id@,
            first_with_id(bs.subrange(k as int, bs.len() as int), block_id@) == first_with_id(bs, block_id@),
        decreases blocks@.len() - k,
    {
        let ghost rest = bs.subrange(k as int, bs.len() as int);
        assert(rest.drop_first() == bs.subrange(k + 1, bs.len() as int));
        assert(rest[0] == block_view(blocks@[k as int]));
        if crate::text::same_chars(chars_of(blocks[k].id.as_str()).as_slice(), want.as_slice()) {
            let line = blocks[k].line;
            let s = chars_of(content);
            let ls = split_lines(&s);
            assert(first_with_id(rest, block_id@) == Some(line as int));
            assert(1 <= line <= ls@.len());
            proof {
                assert(ls.deep_view()[line - 1] == ls@[line - 1]@);
            }
            return Some((line, string_of(ls[line - 1].as_slice())));
        }
        k = k + 1;
    }
    None
}

/// The range of lines of the block with ID `block_id` (a single line).
pub fn get_block_range(content: &str, block_id: &str) -> (r: Option<(usize, usize)>)
    ensures
        match spec_find_block(content@, block_id@) {
            Some(x) => r == Some::<(usize, usize)>((x.0 as usize, x.0 as usize)),
            None => r is None,
        },
{
    match find_block_by_id(content, block_id) {
        Some((line, _)) => Some((line, line)),
        None => None,
    }
}

} // verus!
