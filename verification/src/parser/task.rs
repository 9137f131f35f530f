//! Tasks: their tree form and their formatting.

use vstd::prelude::*;
use crate::config::{EmojiFieldDef, EmojiValueType, TaskConfig, field_order};
use crate::parser::wikilink::{is_block_char, link_occ, span_text};
use crate::str_map::StrMap;
use crate::parser::code_block::{code_ranges, ranges_view};
use crate::text::{
    lines, back_ws, chars_of, concat, find_from, is_ascii_alnum, is_ascii_alpha, is_ascii_digit, is_ws, lemma_skip_ws_bounds,
    lit, push_str_chars, skip_ws, trim, trim_end,
};
use crate::types::{TaskLink, TaskLocation};

verus! {

/// A task with its nested items.
#[derive(Debug)]
pub struct HierarchicalTask {
    /// Where the task is.
    pub location: TaskLocation,
    /// The raw line.
    pub raw: String,
    /// List marker (`-`, `*`, `+` or `1.`).
    pub marker: String,
    /// Checkbox, e.g. `[ ]` or `[x]`.
    pub symbol: String,
    /// Description without metadata.
    pub description: String,
    /// Indentation level.
    pub indent: usize,
    /// Line of the parent task, if any.
    pub parent_line: Option<usize>,
    /// Nested items.
    pub children: Vec<TaskChild>,
    /// Metadata fields by name.
    pub metadata: StrMap<String>,
    /// Links in the description.
    pub links: Vec<TaskLink>,
    /// Tags in the description.
    pub tags: Vec<String>,
    /// Block ID, if any.
    pub block_id: Option<String>,
}

/// A list item that is not a task, nested under a task.
#[derive(Debug)]
pub struct TaskTextItem {
    /// Where the item is.
    pub location: TaskLocation,
    /// The raw line.
    pub raw: String,
    /// Text after the marker, without block ID.
    pub content: String,
    /// List marker.
    pub marker: String,
    /// Indentation level.
    pub indent: usize,
    /// Block ID, if any.
    pub block_id: Option<String>,
    /// Nested items.
    pub children: Vec<TaskChild>,
}

/// A node of a task tree.
#[derive(Debug)]
pub enum TaskChild {
    /// A task.
    Task(HierarchicalTask),
    /// A plain list item.
    Text(TaskTextItem),
}

/// Indentation level of leading whitespace: one per tab plus one per four
/// spaces, counting up to the first other character.
pub open spec fn indent_counts(s: Seq<char>) -> (int, int)
    decreases s.len(),
{
    if s.len() == 0 {
        (0, 0)
    } else if s[0] == '\t' {
        let r = indent_counts(s.drop_first());
        (r.0 + 1, r.1)
    } else if s[0] == ' ' {
        let r = indent_counts(s.drop_first());
        (r.0, r.1 + 1)
    } else {
        (0, 0)
    }
}

pub open spec fn spec_indent(s: Seq<char>) -> int {
    indent_counts(s).0 + indent_counts(s).1 / 4
}

proof fn lemma_indent_counts_bound(s: Seq<char>)
    ensures
        0 <= indent_counts(s).0,
        0 <= indent_counts(s).1,
        indent_counts(s).0 + indent_counts(s).1 <= s.len(),
    decreases s.len(),
{
    if s.len() > 0 {
        lemma_indent_counts_bound(s.drop_first());
    }
}

/// Count the indentation level of a line: tabs plus groups of four spaces.
pub fn count_indent(s: &str) -> (r: usize)
    ensures
        r == spec_indent(s@),
{
    let c = chars_of(s);
    let mut spaces: usize = 0;
    let mut tabs: usize = 0;
    let mut k: usize = 0;
    proof {
        lemma_indent_counts_bound(c@);
        assert(c@.subrange(0, c@.len() as int) == c@);
    }
    while k < c.len() && (c[k] == '\t' || c[k] == ' ')
        invariant
            k <= c@.len(),
            tabs + spaces + indent_counts(c@.subrange(k as int, c@.len() as int)).0 + indent_counts(
                c@.subrange(k as int, c@.len() as int),
            ).1 <= c@.len(),
            tabs + indent_counts(c@.subrange(k as int, c@.len() as int)).0 == indent_counts(c@).0,
            spaces + indent_counts(c@.subrange(k as int, c@.len() as int)).1 == indent_counts(c@).1,
        decreases c@.len() - k,
    {
        let ghost rest = c@.subrange(k as int, c@.len() as int);
        assert(rest.drop_first() == c@.subrange(k + 1, c@.len() as int));
        proof {
            lemma_indent_counts_bound(rest.drop_first());
        }
        if c[k] == '\t' {
            tabs = tabs + 1;
        } else {
            spaces = spaces + 1;
        }
        k = k + 1;
    }
    proof {
        let rest = c@.subrange(k as int, c@.len() as int);
        if k < c@.len() {
            assert(rest[0] == c@[k as int]);
        }
        assert(indent_counts(rest) == (0int, 0int));
    }
    tabs + spaces / 4
}

/// What a task line is formatted from.
#[derive(Debug)]
pub struct FormatTaskParams<'a> {
    /// The description.
    pub description: &'a str,
    /// The checkbox, e.g. `[ ]`.
    pub symbol: &'a str,
    /// The list marker.
    pub marker: &'a str,
    /// Metadata fields by name.
    pub metadata: &'a StrMap<String>,
}

/// The text that a metadata field adds to a task line: the emoji alone for
/// flags and enums, otherwise the emoji, a space and the value.
pub open spec fn field_part(f: EmojiFieldDef, value: Seq<char>) -> Seq<char> {
    match f.value_type {
        EmojiValueType::Flag { .. } | EmojiValueType::Enum { .. } => f.emoji@,
        _ => f.emoji@ + " "@ + value,
    }
}

/// The metadata parts of a task line for the fields `fs` in the order `p`
/// (from position `k`), each preceded by a space.
pub open spec fn field_parts(
    fs: Seq<EmojiFieldDef>,
    p: Seq<int>,
    k: int,
    meta: Map<Seq<char>, String>,
) -> Seq<char>
    decreases p.len() - k,
{
    if k < 0 || k >= p.len() {
        Seq::empty()
    } else {
        let f = fs[p[k]];
        (if meta.contains_key(f.field_name@) {
            " "@ + field_part(f, meta[f.field_name@]@)
        } else {
            Seq::empty()
        }) + field_parts(fs, p, k + 1, meta)
    }
}

/// A task line: marker, symbol and description, then the metadata fields
/// that are present, in field order.
pub open spec fn task_line(
    marker: Seq<char>,
    symbol: Seq<char>,
    description: Seq<char>,
    meta: Map<Seq<char>, String>,
    fs: Seq<EmojiFieldDef>,
    p: Seq<int>,
) -> Seq<char> {
    marker + " "@ + symbol + " "@ + description + field_parts(fs, p, 0, meta)
}

/// Format a task line.
pub fn format_task(params: &FormatTaskParams, config: &TaskConfig) -> (r: String)
    requires
        params.metadata.wf(),
    ensures
        r@ == task_line(
            params.marker@,
            params.symbol@,
            params.description@,
            params.metadata.view(),
            config.fields@,
            field_order(config.fields@),
        ),
{
    let sorted = config.sorted_fields();
    let ghost p = field_order(config.fields@);
    let mut out = lit(params.marker);
    out = concat(out, " ");
    out = concat(out, params.symbol);
    out = concat(out, " ");
    out = concat(out, params.description);
    let ghost head = out@;
    let mut k: usize = 0;
    proof {
        assert(out@ == head + Seq::<char>::empty());
    }
    while k < sorted.len()
        invariant
            k <= sorted@.len(),
            params.metadata.wf(),
            p == field_order(config.fields@),
            sorted@.len() == p.len(),
            forall|m: int| 0 <= m < p.len() ==> *(#[trigger] sorted@[m]) == config.fields@[p[m]],
            head == params.marker@ + " "@ + params.symbol@ + " "@ + params.description@,
            out@ + field_parts(config.fields@, p, k as int, params.metadata.view()) == head
                + field_parts(config.fields@, p, 0, params.metadata.view()),
        decreases sorted@.len() - k,
    {
        let field = sorted[k];
        let ghost before = out@;
        let ghost f = config.fields@[p[k as int]];
        assert(*field == f);
        match params.metadata.get(field.field_name.as_str()) {
            Some(value) => {
                out = concat(out, " ");
                match &field.value_type {
                    EmojiValueType::Flag { .. } | EmojiValueType::Enum { .. } => {
                        out = concat(out, field.emoji.as_str());
                    },
                    _ => {
                        out = concat(out, field.emoji.as_str());
                        out = concat(out, " ");
                        out = concat(out, value.as_str());
                    },
                }
                proof {
                    assert(out@ =~= before + (" "@ + field_part(f, value@)));
                }
            },
            None => {},
        }
        proof {
            let meta = params.metadata.view();
            let rest = field_parts(config.fields@, p, k + 1, meta);
            assert(field_parts(config.fields@, p, k as int, meta) == (if meta.contains_key(
                f.field_name@,
            ) {
                " "@ + field_part(f, meta[f.field_name@]@)
            } else {
                Seq::empty()
            }) + rest);
            if meta.contains_key(f.field_name@) {
                assert(out@ + rest =~= before + field_parts(config.fields@, p, k as int, meta));
            } else {
                assert(out@ + rest =~= before + field_parts(config.fields@, p, k as int, meta));
            }
        }
        k = k + 1;
    }
    proof {
        assert(field_parts(config.fields@, p, k as int, params.metadata.view()) == Seq::<char>::empty());
        assert(out@ + Seq::<char>::empty() == out@);
    }
    out
}

/// Every task in the trees has well-formed metadata.
pub open spec fn child_wf(c: TaskChild) -> bool
    decreases c,
{
    match c {
        TaskChild::Task(t) => t.metadata.wf() && children_wf(t.children@),
        TaskChild::Text(x) => children_wf(x.children@),
    }
}

pub open spec fn children_wf(cs: Seq<TaskChild>) -> bool
    decreases cs,
{
    if cs.len() == 0 {
        true
    } else {
        child_wf(cs[0]) && children_wf(cs.subrange(1, cs.len() as int))
    }
}

/// The markdown lines of a tree node whose line starts with `prefix`: its
/// own line, then its children's, whose prefix is one `ind` longer.
pub open spec fn child_lines(
    c: TaskChild,
    ind: Seq<char>,
    prefix: Seq<char>,
    fs: Seq<EmojiFieldDef>,
) -> Seq<Seq<char>>
    decreases c,
{
    match c {
        TaskChild::Task(t) => seq![
            prefix + task_line(
                t.marker@,
                t.symbol@,
                t.description@,
                t.metadata.view(),
                fs,
                field_order(fs),
            ),
        ] + children_lines(t.children@, ind, prefix + ind, fs),
        TaskChild::Text(x) => seq![prefix + x.marker@ + " "@ + x.content@] + children_lines(
            x.children@,
            ind,
            prefix + ind,
            fs,
        ),
    }
}

/// The markdown lines of a sequence of tree nodes, in order.
pub open spec fn children_lines(
    cs: Seq<TaskChild>,
    ind: Seq<char>,
    prefix: Seq<char>,
    fs: Seq<EmojiFieldDef>,
) -> Seq<Seq<char>>
    decreases cs,
{
    if cs.len() == 0 {
        Seq::empty()
    } else {
        child_lines(cs[0], ind, prefix, fs) + children_lines(
            cs.subrange(1, cs.len() as int),
            ind,
            prefix,
            fs,
        )
    }
}

pub open spec fn strings_view(v: Seq<String>) -> Seq<Seq<char>> {
    v.map_values(|s: String| s@)
}

fn format_task_tree_recursive(
    children: &[TaskChild],
    indent_str: &str,
    prefix: &str,
    config: &TaskConfig,
    lines: &mut Vec<String>,
)
    requires
        children_wf(children@),
    ensures
        strings_view(final(lines)@) == strings_view(old(lines)@) + children_lines(
            children@,
            indent_str@,
            prefix@,
            config.fields@,
        ),
    decreases children@,
{
    let deeper = concat(lit(prefix), indent_str);
    let mut k: usize = 0;
    assert(children@.subrange(0, children@.len() as int) == children@);
    while k < children.len()
        invariant
            k <= children@.len(),
            deeper@ == prefix@ + indent_str@,
            children_wf(children@.subrange(k as int, children@.len() as int)),
            strings_view(lines@) + children_lines(
                children@.subrange(k as int, children@.len() as int),
                indent_str@,
                prefix@,
                config.fields@,
            ) == strings_view(old(lines)@) + children_lines(
                children@,
                indent_str@,
                prefix@,
                config.fields@,
            ),
        decreases children@.len() - k,
    {
        let ghost rest = children@.subrange(k as int, children@.len() as int);
        assert(rest[0] == children@[k as int]);
        assert(rest.subrange(1, rest.len() as int) == children@.subrange(k + 1, children@.len() as int));
        let ghost before = strings_view(lines@);
        assert(child_wf(children@[k as int]));
        assert(children_wf(rest.subrange(1, rest.len() as int)));
        match &children[k] {
            TaskChild::Task(task) => {
                assert(task.metadata.wf() && children_wf(task.children@));
                let params = FormatTaskParams {
                    description: task.description.as_str(),
                    symbol: task.symbol.as_str(),
                    marker: task.marker.as_str(),
                    metadata: &task.metadata,
                };
                let formatted = format_task(&params, config);
                let line = concat(lit(prefix), formatted.as_str());
                lines.push(line);
                assert(strings_view(lines@) =~= before.push(line@));
                proof {
                    assert(decreases_to!(children@ => task.children@));
                }
                format_task_tree_recursive(task.children.as_slice(), indent_str, deeper.as_str(), config, lines);
            },
            TaskChild::Text(text) => {
                assert(children_wf(text.children@));
                let line = concat(lit(prefix), text.marker.as_str());
                let line = concat(line, " ");
                let line = concat(line, text.content.as_str());
                lines.push(line);
                assert(strings_view(lines@) =~= before.push(line@));
                proof {
                    assert(decreases_to!(children@ => text.children@));
                }
                format_task_tree_recursive(text.children.as_slice(), indent_str, deeper.as_str(), config, lines);
            },
        }
        proof {
            let cl = child_lines(children@[k as int], indent_str@, prefix@, config.fields@);
            assert(strings_view(lines@) == before + cl);
        }
        k = k + 1;
    }
}

/// Format a task tree back to markdown: one line per node, children indented
/// one more `indent_str` than their parent, lines joined by `\n`.
pub fn format_task_tree(children: &[TaskChild], indent_str: &str, config: &TaskConfig) -> (r: String)
    requires
        children_wf(children@),
    ensures
        r@ == crate::text::join_lines(children_lines(children@, indent_str@, Seq::empty(), config.fields@)),
{
    let mut lines: Vec<String> = Vec::new();
    proof {
        reveal_strlit("");
        assert(""@ =~= Seq::<char>::empty());
        assert(strings_view(lines@) =~= Seq::<Seq<char>>::empty());
    }
    format_task_tree_recursive(children, indent_str, "", config, &mut lines);
    proof {
        let cl = children_lines(children@, indent_str@, Seq::empty(), config.fields@);
        assert(Seq::<Seq<char>>::empty() + cl =~= cl);
    }
    join_strings(&lines)
}

/// Lines joined by `\n`.
fn join_strings(lines: &Vec<String>) -> (r: String)
    ensures
        r@ == crate::text::join_lines(strings_view(lines@)),
{
    let mut v: Vec<Vec<char>> = Vec::new();
    let mut k: usize = 0;
    while k < lines.len()
        invariant
            k <= lines@.len(),
            v.deep_view() == strings_view(lines@).subrange(0, k as int),
        decreases lines@.len() - k,
    {
        let c = chars_of(lines[k].as_str());
        let ghost before = v.deep_view();
        proof {
            assert(c.deep_view() =~= c@);
        }
        v.push(c);
        proof {
            assert(v.deep_view() =~= before.push(c@));
            assert(v.deep_view() =~= strings_view(lines@).subrange(0, k + 1));
        }
        k = k + 1;
    }
    assert(strings_view(lines@).subrange(0, k as int) == strings_view(lines@));
    let j = crate::text::join_with_newlines(&v);
    crate::text::string_of(j.as_slice())
}


// ---------------------------------------------------------------------------
// Parsing task lines
// ---------------------------------------------------------------------------

/// A task found on a line.
#[derive(Debug)]
pub struct Task {
    /// Where the task is.
    pub location: TaskLocation,
    /// The raw line.
    pub raw: String,
    /// List marker (`-`, `*`, `+` or `1.`).
    pub marker: String,
    /// Checkbox, e.g. `[ ]` or `[x]`.
    pub symbol: String,
    /// Description without metadata, whitespace collapsed.
    pub description: String,
    /// Indentation level.
    pub indent: usize,
    /// Line of the parent task, if any.
    pub parent_line: Option<usize>,
    /// Metadata fields by name.
    pub metadata: StrMap<String>,
    /// Links in the description.
    pub links: Vec<TaskLink>,
    /// Tags in the description.
    pub tags: Vec<String>,
    /// Block ID, if any.
    pub block_id: Option<String>,
}

/// End of the run of ASCII digits from `i`.
pub open spec fn digits_end(s: Seq<char>, i: int) -> int
    decreases s.len() - i,
{
    if 0 <= i < s.len() && is_ascii_digit(s[i]) {
        digits_end(s, i + 1)
    } else {
        i
    }
}

/// The end of a list marker (`-`, `*`, `+`, or digits and `.`) at `i`.
pub open spec fn marker_end(l: Seq<char>, i: int) -> Option<int> {
    if 0 <= i < l.len() && (l[i] == '-' || l[i] == '*' || l[i] == '+') {
        Some(i + 1)
    } else if 0 <= i < l.len() && is_ascii_digit(l[i]) {
        let d = digits_end(l, i);
        if d < l.len() && l[d] == '.' {
            Some(d + 1)
        } else {
            None
        }
    } else {
        None
    }
}

/// A task line: leading whitespace, a list marker, ` [`, one character, `] `,
/// then the rest. The marker's start and end.
pub open spec fn task_layout(l: Seq<char>) -> Option<(int, int)> {
    let i0 = skip_ws(l, 0);
    match marker_end(l, i0) {
        Some(me) => if me + 4 < l.len() && l[me] == ' ' && l[me + 1] == '[' && l[me + 3] == ']' && l[me
            + 4] == ' ' {
            Some((i0, me))
        } else {
            None
        },
        None => None,
    }
}

/// Start of the run of block-reference characters that ends at `e`.
pub open spec fn block_back(t: Seq<char>, e: int) -> int
    decreases e,
{
    if 0 < e <= t.len() && is_block_char(t[e - 1]) {
        block_back(t, e - 1)
    } else {
        e
    }
}

/// A trailing block reference: whitespace, `^`, the ID, optional trailing
/// whitespace. The start of that whitespace and the ID's range.
pub open spec fn block_split(t: Seq<char>) -> Option<(int, int, int)> {
    let e = back_ws(t, t.len() as int);
    let b = block_back(t, e);
    if b < e && b >= 2 && t[b - 1] == '^' && is_ws(t[b - 2]) {
        Some((back_ws(t, b - 1), b, e))
    } else {
        None
    }
}

/// A text without its trailing block reference, and the reference's ID.
pub open spec fn strip_block(t: Seq<char>) -> (Seq<char>, Option<Seq<char>>) {
    match block_split(t) {
        Some((p, b, e)) => (trim_end(t.subrange(0, p)), Some(t.subrange(b, e))),
        None => (t, None),
    }
}

/// `s` without `s[a..b]`.
pub open spec fn cut(s: Seq<char>, a: int, b: int) -> Seq<char> {
    s.subrange(0, a) + s.subrange(b, s.len() as int)
}

/// A date `DDDD-DD-DD` (ASCII digits) at `q`.
pub open spec fn date_at(s: Seq<char>, q: int) -> bool {
    0 <= q && q + 10 <= s.len() && is_ascii_digit(s[q]) && is_ascii_digit(s[q + 1]) && is_ascii_digit(
        s[q + 2],
    ) && is_ascii_digit(s[q + 3]) && s[q + 4] == '-' && is_ascii_digit(s[q + 5]) && is_ascii_digit(
        s[q + 6],
    ) && s[q + 7] == '-' && is_ascii_digit(s[q + 8]) && is_ascii_digit(s[q + 9])
}

/// The first date at or after `i`.
pub open spec fn first_date(s: Seq<char>, i: int) -> Option<int>
    decreases s.len() - i,
{
    if i < 0 || i + 10 > s.len() {
        None
    } else if date_at(s, i) {
        Some(i)
    } else {
        first_date(s, i + 1)
    }
}

/// The end of a number (`-?\d+(\.\d+)?`, ASCII digits) at `i`.
pub open spec fn number_at(s: Seq<char>, i: int) -> Option<int> {
    let d = if 0 <= i && i + 1 < s.len() && s[i] == '-' && is_ascii_digit(s[i + 1]) {
        digits_end(s, i + 1)
    } else if 0 <= i < s.len() && is_ascii_digit(s[i]) {
        digits_end(s, i)
    } else {
        -1
    };
    if d < 0 {
        None
    } else if d + 1 < s.len() && s[d] == '.' && is_ascii_digit(s[d + 1]) {
        Some(digits_end(s, d + 1))
    } else {
        Some(d)
    }
}

/// The first number at or after `i`: its start and end.
pub open spec fn first_number(s: Seq<char>, i: int) -> Option<(int, int)>
    decreases s.len() - i,
{
    if i < 0 || i >= s.len() {
        None
    } else {
        match number_at(s, i) {
            Some(e) => Some((i, e)),
            None => first_number(s, i + 1),
        }
    }
}

/// The first whitespace character at or after `i` (the end when none).
pub open spec fn ws_from(s: Seq<char>, i: int) -> int
    decreases s.len() - i,
{
    if 0 <= i < s.len() && !is_ws(s[i]) {
        ws_from(s, i + 1)
    } else {
        i
    }
}

/// The earliest occurrence at or after `i` of any of the emojis.
pub open spec fn min_find(s: Seq<char>, es: Seq<Seq<char>>, i: int) -> Option<int>
    decreases es.len(),
{
    if es.len() == 0 {
        None
    } else {
        let r = min_find(s, es.drop_last(), i);
        match find_from(s, es.last(), i) {
            Some(q) => match r {
                Some(x) => Some(
                    if q < x {
                        q
                    } else {
                        x
                    },
                ),
                None => Some(q),
            },
            None => r,
        }
    }
}

/// What one field takes from the remaining text: its value and the range
/// `[pos, end)` that goes with it (the emoji and the value).
pub open spec fn field_take(f: EmojiFieldDef, all: Seq<Seq<char>>, rem: Seq<char>) -> Option<
    (Seq<char>, int, int),
> {
    let e = f.emoji@;
    match find_from(rem, e, 0) {
        None => None,
        Some(pos) => {
            let ts = skip_ws(rem, pos + e.len());
            match f.value_type {
                EmojiValueType::Date => match first_date(rem, ts) {
                    Some(q) => Some((rem.subrange(q, q + 10), pos, q + 10)),
                    None => None,
                },
                EmojiValueType::String => {
                    let we = ws_from(rem, ts);
                    let v = trim(rem.subrange(ts, we));
                    if v.len() > 0 {
                        Some((v, pos, we))
                    } else {
                        None
                    }
                },
                EmojiValueType::Text => {
                    let ve = match min_find(rem, all, ts) {
                        Some(q) => q,
                        None => rem.len() as int,
                    };
                    let v = trim(rem.subrange(ts, ve));
                    if v.len() > 0 {
                        Some((v, pos, ve))
                    } else {
                        None
                    }
                },
                EmojiValueType::Number => match first_number(rem, ts) {
                    Some((q, end)) => Some((rem.subrange(q, end), pos, end)),
                    None => None,
                },
                EmojiValueType::Flag { value } => Some((value@, pos, pos + e.len())),
                EmojiValueType::Enum { value } => Some((value@, pos, pos + e.len())),
            }
        },
    }
}

/// The remaining text and the metadata after the first `k` fields (in
/// order `p`) have taken their parts of `t`.
pub open spec fn meta_upto(
    fs: Seq<EmojiFieldDef>,
    p: Seq<int>,
    all: Seq<Seq<char>>,
    t: Seq<char>,
    k: int,
) -> (Seq<char>, Map<Seq<char>, Seq<char>>)
    decreases k,
{
    if k <= 0 {
        (t, Map::empty())
    } else {
        let st = meta_upto(fs, p, all, t, k - 1);
        let f = fs[p[k - 1]];
        match field_take(f, all, st.0) {
            Some((v, a, b)) => (cut(st.0, a, b), st.1.insert(f.field_name@, v)),
            None => st,
        }
    }
}

/// The words of a text (`split_whitespace`) from `i`.
pub open spec fn words_from(s: Seq<char>, i: int) -> Seq<Seq<char>>
    decreases s.len() - i,
{
    let a = skip_ws(s, i);
    if i < 0 || a >= s.len() {
        Seq::empty()
    } else {
        let b = ws_from(s, a);
        proof {
            lemma_skip_ws_bounds(s, i);
            lemma_ws_from(s, a);
        }
        if b <= i {
            Seq::empty()
        } else {
            seq![s.subrange(a, b)] + words_from(s, b)
        }
    }
}

/// Words joined by single spaces.
pub open spec fn join_words(ws: Seq<Seq<char>>) -> Seq<char>
    decreases ws.len(),
{
    if ws.len() == 0 {
        Seq::empty()
    } else if ws.len() == 1 {
        ws[0]
    } else {
        join_words(ws.drop_last()) + seq![' '] + ws.last()
    }
}

/// A text with its whitespace collapsed (`split_whitespace` joined by `" "`).
pub open spec fn collapse_ws(s: Seq<char>) -> Seq<char> {
    join_words(words_from(s, 0))
}

/// The tags of a task description (`#` and a letter or `_`, then letters,
/// digits, `_`, `/`, `-`), leftmost first.
pub open spec fn is_tag_rest(c: char) -> bool {
    is_ascii_alnum(c) || c == '_' || c == '/' || c == '-'
}

pub open spec fn tag_rest_end(s: Seq<char>, i: int) -> int
    decreases s.len() - i,
{
    if 0 <= i < s.len() && is_tag_rest(s[i]) {
        tag_rest_end(s, i + 1)
    } else {
        i
    }
}

pub open spec fn desc_tags_from(s: Seq<char>, i: int) -> Seq<Seq<char>>
    decreases s.len() - i,
{
    if i < 0 || i + 1 >= s.len() {
        Seq::empty()
    } else if s[i] == '#' && (is_ascii_alpha(s[i + 1]) || s[i + 1] == '_') {
        let e = tag_rest_end(s, i + 2);
        proof {
            lemma_tag_rest_end(s, i + 2);
        }
        seq![s.subrange(i, e)] + desc_tags_from(s, e)
    } else {
        desc_tags_from(s, i + 1)
    }
}

/// The parts of a task line: marker start and end, the text after the
/// checkbox without block reference, the block ID, and the metadata
/// state after all fields.
pub open spec fn task_parts(l: Seq<char>, fs: Seq<EmojiFieldDef>) -> Option<
    (int, int, Seq<char>, Option<Seq<char>>, (Seq<char>, Map<Seq<char>, Seq<char>>)),
> {
    match task_layout(l) {
        Some((i0, me)) => {
            let (rest, bid) = strip_block(l.subrange(me + 5, l.len() as int));
            let p = field_order(fs);
            let all = fs.map_values(|f: EmojiFieldDef| f.emoji@);
            Some((i0, me, rest, bid, meta_upto(fs, p, all, rest, p.len() as int)))
        },
        None => None,
    }
}

/// `sm` holds the map `m`.
pub open spec fn meta_matches(sm: Map<Seq<char>, String>, m: Map<Seq<char>, Seq<char>>) -> bool {
    &&& forall|k: Seq<char>| #[trigger] sm.contains_key(k) <==> m.contains_key(k)
    &&& forall|k: Seq<char>| #[trigger] sm.contains_key(k) ==> sm[k]@ == m[k]
}

/// The task `t` is the one that line `l`, numbered `n`, of the note `file`
/// describes (its parent aside).
pub open spec fn task_line_is(t: Task, l: Seq<char>, n: int, file: Seq<char>, fs: Seq<EmojiFieldDef>) -> bool {
    match task_parts(l, fs) {
        Some((i0, me, _rest, bid, st)) => {
            let d = collapse_ws(st.0);
            &&& t.location.file@ == file
            &&& t.location.line == n
            &&& t.raw@ == l
            &&& t.marker@ == l.subrange(i0, me)
            &&& t.symbol@ == seq!['[', l[me + 2], ']']
            &&& t.description@ == d
            &&& t.indent == spec_indent(l)
            &&& t.metadata.wf()
            &&& meta_matches(t.metadata.view(), st.1)
            &&& opt_view(t.block_id) == bid
            &&& strings_view(t.tags@) == desc_tags_from(d, 0)
            &&& t.links@.len() == link_occ(d, Some(false)).len()
            &&& forall|k: int|
                0 <= k < t.links@.len() ==> (#[trigger] t.links@[k]).to@ == trim(
                    d.subrange(link_occ(d, Some(false))[k].2.0, link_occ(d, Some(false))[k].2.1),
                ) && opt_view(t.links@[k].alias) == span_text(d, link_occ(d, Some(false))[k].5)
        },
        None => false,
    }
}

pub open spec fn opt_view(o: Option<String>) -> Option<Seq<char>> {
    match o {
        Some(t) => Some(t@),
        None => None,
    }
}

pub proof fn lemma_ws_from(s: Seq<char>, i: int)
    requires
        0 <= i,
    ensures
        i <= ws_from(s, i),
        ws_from(s, i) <= s.len() || ws_from(s, i) == i,
        0 <= i < s.len() && !is_ws(s[i]) ==> i < ws_from(s, i),
    decreases s.len() - i,
{
    if 0 <= i < s.len() && !is_ws(s[i]) {
        lemma_ws_from(s, i + 1);
    }
}

pub proof fn lemma_tag_rest_end(s: Seq<char>, i: int)
    requires
        0 <= i,
    ensures
        i <= tag_rest_end(s, i),
        tag_rest_end(s, i) <= s.len() || tag_rest_end(s, i) == i,
    decreases s.len() - i,
{
    if 0 <= i < s.len() && is_tag_rest(s[i]) {
        lemma_tag_rest_end(s, i + 1);
    }
}


// ---------------------------------------------------------------------------
// Executable task-line parsing
// ---------------------------------------------------------------------------

pub proof fn lemma_digits_end(s: Seq<char>, i: int)
    requires
        0 <= i <= s.len(),
    ensures
        i <= digits_end(s, i) <= s.len(),
        i < s.len() && is_ascii_digit(s[i]) ==> i < digits_end(s, i),
    decreases s.len() - i,
{
    if i < s.len() && is_ascii_digit(s[i]) {
        lemma_digits_end(s, i + 1);
    }
}

pub(crate) fn digits_end_exec(s: &Vec<char>, i: usize) -> (r: usize)
    requires
        i <= s@.len(),
    ensures
        r == digits_end(s@, i as int),
        i <= r <= s@.len(),
{
    let mut k = i;
    while k < s.len() && '0' <= s[k] && s[k] <= '9'
        invariant
            i <= k <= s@.len(),
            digits_end(s@, i as int) == digits_end(s@, k as int),
        decreases s@.len() - k,
    {
        k = k + 1;
    }
    k
}

pub(crate) fn marker_end_exec(l: &Vec<char>, i: usize) -> (r: Option<usize>)
    requires
        i <= l@.len(),
    ensures
        match r {
            Some(me) => marker_end(l@, i as int) == Some(me as int) && i < me <= l@.len(),
            None => marker_end(l@, i as int) is None,
        },
{
    if i < l.len() && (l[i] == '-' || l[i] == '*' || l[i] == '+') {
        Some(i + 1)
    } else if i < l.len() && '0' <= l[i] && l[i] <= '9' {
        let d = digits_end_exec(l, i);
        proof {
            lemma_digits_end(l@, i as int);
        }
        if d < l.len() && l[d] == '.' {
            Some(d + 1)
        } else {
            None
        }
    } else {
        None
    }
}

fn task_layout_exec(l: &Vec<char>) -> (r: Option<(usize, usize)>)
    ensures
        match r {
            Some((i0, me)) => task_layout(l@) == Some((i0 as int, me as int)) && i0 < me && me + 4 < l@.len(),
            None => task_layout(l@) is None,
        },
{
    let i0 = crate::text::skip_whitespace(l.as_slice(), 0);
    match marker_end_exec(l, i0) {
        Some(me) => {
            if me < l.len() && l.len() - me > 4 && l[me] == ' ' && l[me + 1] == '[' && l[me + 3] == ']'
                && l[me + 4] == ' ' {
                Some((i0, me))
            } else {
                None
            }
        },
        None => None,
    }
}

fn block_back_exec(t: &Vec<char>, e: usize) -> (r: usize)
    requires
        e <= t@.len(),
    ensures
        r == block_back(t@, e as int),
        r <= e,
{
    let mut k = e;
    while k > 0 && (('a' <= t[k - 1] && t[k - 1] <= 'z') || ('A' <= t[k - 1] && t[k - 1] <= 'Z') || (
    '0' <= t[k - 1] && t[k - 1] <= '9') || t[k - 1] == '_' || t[k - 1] == '-')
        invariant
            k <= e <= t@.len(),
            block_back(t@, e as int) == block_back(t@, k as int),
        decreases k,
    {
        k = k - 1;
    }
    k
}

/// Split a trailing block reference (`^id`) off a text.
pub(crate) fn extract_block_id(t: &Vec<char>) -> (r: (Vec<char>, Option<String>))
    ensures
        (r.0@, opt_view(r.1)) == strip_block(t@),
{
    let e = crate::text::back_whitespace(t.as_slice(), t.len());
    let b = block_back_exec(t, e);
    if b < e && b >= 2 && t[b - 1] == '^' && crate::text::is_whitespace(t[b - 2]) {
        let p = crate::text::back_whitespace(t.as_slice(), b - 1);
        let head = crate::text::sub_vec(t, 0, p);
        let rest = crate::text::trim_end_vec(&head);
        (rest, Some(crate::text::string_of_range(t, b, e)))
    } else {
        (t.clone(), None)
    }
}

fn first_date_exec(s: &Vec<char>, i: usize) -> (r: Option<usize>)
    requires
        i <= s@.len(),
    ensures
        match r {
            Some(q) => first_date(s@, i as int) == Some(q as int) && i <= q && q + 10 <= s@.len(),
            None => first_date(s@, i as int) is None,
        },
{
    let n = s.len();
    let mut q = i;
    while n >= 10 && q <= n - 10
        invariant
            i <= q,
            n == s@.len(),
            first_date(s@, i as int) == first_date(s@, q as int),
        decreases s@.len() - q,
    {
        if '0' <= s[q] && s[q] <= '9' && '0' <= s[q + 1] && s[q + 1] <= '9' && '0' <= s[q + 2] && s[q
            + 2] <= '9' && '0' <= s[q + 3] && s[q + 3] <= '9' && s[q + 4] == '-' && '0' <= s[q + 5]
            && s[q + 5] <= '9' && '0' <= s[q + 6] && s[q + 6] <= '9' && s[q + 7] == '-' && '0' <= s[q
            + 8] && s[q + 8] <= '9' && '0' <= s[q + 9] && s[q + 9] <= '9' {
            return Some(q);
        }
        q = q + 1;
    }
    None
}

fn number_at_exec(s: &Vec<char>, i: usize) -> (r: Option<usize>)
    requires
        i < s@.len(),
    ensures
        match r {
            Some(e) => number_at(s@, i as int) == Some(e as int) && i < e <= s@.len(),
            None => number_at(s@, i as int) is None,
        },
{
    let n = s.len();
    let d = if i + 1 < n && s[i] == '-' && '0' <= s[i + 1] && s[i + 1] <= '9' {
        digits_end_exec(s, i + 1)
    } else if '0' <= s[i] && s[i] <= '9' {
        digits_end_exec(s, i)
    } else {
        return None;
    };
    proof {
        if i + 1 < n && s[i as int] == '-' && is_ascii_digit(s[i + 1]) {
            lemma_digits_end(s@, i + 1);
        } else {
            lemma_digits_end(s@, i as int);
        }
    }
    if d < n && d + 1 < n && s[d] == '.' && '0' <= s[d + 1] && s[d + 1] <= '9' {
        proof {
            lemma_digits_end(s@, d + 1);
        }
        Some(digits_end_exec(s, d + 1))
    } else {
        Some(d)
    }
}

fn first_number_exec(s: &Vec<char>, i: usize) -> (r: Option<(usize, usize)>)
    requires
        i <= s@.len(),
    ensures
        match r {
            Some((q, e)) => first_number(s@, i as int) == Some((q as int, e as int)) && i <= q < e <= s@.len(),
            None => first_number(s@, i as int) is None,
        },
{
    let mut q = i;
    while q < s.len()
        invariant
            i <= q <= s@.len(),
            first_number(s@, i as int) == first_number(s@, q as int),
        decreases s@.len() - q,
    {
        match number_at_exec(s, q) {
            Some(e) => {
                return Some((q, e));
            },
            None => {},
        }
        q = q + 1;
    }
    None
}

fn ws_from_exec(s: &Vec<char>, i: usize) -> (r: usize)
    requires
        i <= s@.len(),
    ensures
        r == ws_from(s@, i as int),
        i <= r <= s@.len(),
{
    let mut k = i;
    while k < s.len() && !crate::text::is_whitespace(s[k])
        invariant
            i <= k <= s@.len(),
            ws_from(s@, i as int) == ws_from(s@, k as int),
        decreases s@.len() - k,
    {
        k = k + 1;
    }
    k
}

pub open spec fn strs_view(v: Seq<&str>) -> Seq<Seq<char>> {
    v.map_values(|s: &str| s@)
}

fn min_find_exec(s: &Vec<char>, es: &Vec<&str>, i: usize) -> (r: Option<usize>)
    ensures
        match r {
            Some(q) => min_find(s@, strs_view(es@), i as int) == Some(q as int),
            None => min_find(s@, strs_view(es@), i as int) is None,
        },
{
    let ghost ev = strs_view(es@);
    let mut best: Option<usize> = None;
    let mut k: usize = 0;
    while k < es.len()
        invariant
            k <= es@.len(),
            ev == strs_view(es@),
            match best {
                Some(q) => min_find(s@, ev.subrange(0, k as int), i as int) == Some(q as int),
                None => min_find(s@, ev.subrange(0, k as int), i as int) is None,
            },
        decreases es@.len() - k,
    {
        proof {
            assert(ev.subrange(0, k + 1).drop_last() =~= ev.subrange(0, k as int));
            assert(ev.subrange(0, k + 1).last() == es@[k as int]@);
        }
        let pc = chars_of(es[k]);
        match crate::text::find_seq_from(s.as_slice(), pc.as_slice(), i) {
            Some(q) => {
                best = match best {
                    Some(x) => Some(
                        if q < x {
                            q
                        } else {
                            x
                        },
                    ),
                    None => Some(q),
                };
            },
            None => {},
        }
        k = k + 1;
    }
    proof {
        assert(ev.subrange(0, k as int) =~= ev);
    }
    best
}

fn field_take_exec(f: &EmojiFieldDef, all: &Vec<&str>, rem: &Vec<char>) -> (r: Option<(String, usize, usize)>)
    ensures
        match r {
            Some((v, a, b)) => field_take(*f, strs_view(all@), rem@) == Some((v@, a as int, b as int)) && a
                <= b <= rem@.len(),
            None => field_take(*f, strs_view(all@), rem@) is None,
        },
{
    let n = rem.len();
    let e = chars_of(f.emoji.as_str());
    let pos = match crate::text::find_seq_from(rem.as_slice(), e.as_slice(), 0) {
        Some(pos) => pos,
        None => {
            return None;
        },
    };
    proof {
        crate::text::lemma_find_from_found(rem@, e@, 0);
    }
    let after = pos + e.len();
    let ts = crate::text::skip_whitespace(rem.as_slice(), after);
    match &f.value_type {
        EmojiValueType::Date => match first_date_exec(rem, ts) {
            Some(q) => Some((crate::text::string_of_range(rem, q, q + 10), pos, q + 10)),
            None => None,
        },
        EmojiValueType::String => {
            let we = ws_from_exec(rem, ts);
            let v = crate::text::trim_range(rem, ts, we);
            if v.len() > 0 {
                Some((crate::text::string_of(v.as_slice()), pos, we))
            } else {
                None
            }
        },
        EmojiValueType::Text => {
            let ve = match min_find_exec(rem, all, ts) {
                Some(q) => q,
                None => rem.len(),
            };
            proof {
                lemma_min_find(rem@, strs_view(all@), ts as int);
            }
            let v = crate::text::trim_range(rem, ts, ve);
            if v.len() > 0 {
                Some((crate::text::string_of(v.as_slice()), pos, ve))
            } else {
                None
            }
        },
        EmojiValueType::Number => match first_number_exec(rem, ts) {
            Some((q, end)) => Some((crate::text::string_of_range(rem, q, end), pos, end)),
            None => None,
        },
        EmojiValueType::Flag { value } => Some((value.clone(), pos, after)),
        EmojiValueType::Enum { value } => Some((value.clone(), pos, after)),
    }
}

pub proof fn lemma_min_find(s: Seq<char>, es: Seq<Seq<char>>, i: int)
    requires
        0 <= i <= s.len(),
    ensures
        min_find(s, es, i) matches Some(q) ==> i <= q <= s.len(),
    decreases es.len(),
{
    if es.len() > 0 {
        lemma_min_find(s, es.drop_last(), i);
        if find_from(s, es.last(), i) is Some {
            crate::text::lemma_find_from_found(s, es.last(), i);
        }
    }
}

fn cut_exec(s: &Vec<char>, a: usize, b: usize) -> (r: Vec<char>)
    requires
        a <= b <= s@.len(),
    ensures
        r@ == cut(s@, a as int, b as int),
{
    let mut r = crate::text::sub_vec(s, 0, a);
    let tail = crate::text::sub_vec(s, b, s.len());
    crate::text::append_chars(&mut r, tail.as_slice());
    r
}

fn collapse_ws_exec(s: &Vec<char>) -> (r: String)
    ensures
        r@ == collapse_ws(s@),
{
    let mut out = String::new();
    let mut i: usize = 0;
    let mut first = true;
    let ghost mut done: Seq<Seq<char>> = Seq::empty();
    proof {
        assert(done + words_from(s@, 0) =~= words_from(s@, 0));
    }
    while i < s.len()
        invariant
            i <= s@.len(),
            first <==> done.len() == 0,
            done + words_from(s@, i as int) == words_from(s@, 0),
            out@ == join_words(done),
        decreases s@.len() - i,
    {
        let a = crate::text::skip_whitespace(s.as_slice(), i);
        proof {
            lemma_skip_ws_bounds(s@, i as int);
        }
        if a >= s.len() {
            proof {
                assert(words_from(s@, i as int) == Seq::<Seq<char>>::empty());
                assert(words_from(s@, a as int) == Seq::<Seq<char>>::empty());
            }
            i = a;
        } else {
            let b = ws_from_exec(s, a);
            proof {
                lemma_ws_from(s@, a as int);
                assert(words_from(s@, i as int) == seq![s@.subrange(a as int, b as int)] + words_from(
                    s@,
                    b as int,
                ));
            }
            if !first {
                crate::text::push_char(&mut out, ' ');
            }
            first = false;
            let w = crate::text::sub_vec(s, a, b);
            push_str_chars(&mut out, w.as_slice());
            proof {
                let nd = done.push(s@.subrange(a as int, b as int));
                assert(nd.drop_last() =~= done);
                if done.len() == 0 {
                    assert(out@ =~= join_words(nd));
                } else {
                    assert(out@ =~= join_words(nd));
                }
                assert(nd + words_from(s@, b as int) =~= done + (seq![s@.subrange(a as int, b as int)]
                    + words_from(s@, b as int)));
                done = nd;
            }
            i = b;
        }
    }
    proof {
        assert(words_from(s@, i as int) == Seq::<Seq<char>>::empty());
        assert(done + Seq::<Seq<char>>::empty() =~= done);
    }
    out
}

fn desc_tags_exec(s: &Vec<char>) -> (r: Vec<String>)
    ensures
        strings_view(r@) == desc_tags_from(s@, 0),
{
    let mut r: Vec<String> = Vec::new();
    let mut i: usize = 0;
    while i < s.len()
        invariant
            i <= s@.len(),
            strings_view(r@) + desc_tags_from(s@, i as int) == desc_tags_from(s@, 0),
        decreases s@.len() - i,
    {
        let ghost r0 = strings_view(r@);
        if i + 1 < s.len() && s[i] == '#' && (('a' <= s[i + 1] && s[i + 1] <= 'z') || ('A' <= s[i + 1]
            && s[i + 1] <= 'Z') || s[i + 1] == '_') {
            let mut e = i + 2;
            while e < s.len() && (('a' <= s[e] && s[e] <= 'z') || ('A' <= s[e] && s[e] <= 'Z') || ('0'
                <= s[e] && s[e] <= '9') || s[e] == '_' || s[e] == '/' || s[e] == '-')
                invariant
                    i + 2 <= e <= s@.len(),
                    tag_rest_end(s@, i + 2) == tag_rest_end(s@, e as int),
                decreases s@.len() - e,
            {
                e = e + 1;
            }
            r.push(crate::text::string_of_range(s, i, e));
            proof {
                let t = s@.subrange(i as int, e as int);
                assert(desc_tags_from(s@, i as int) == seq![t] + desc_tags_from(s@, e as int));
                assert(strings_view(r@) =~= r0.push(t));
                assert(r0.push(t) + desc_tags_from(s@, e as int) =~= r0 + (seq![t] + desc_tags_from(
                    s@,
                    e as int,
                )));
            }
            i = e;
        } else {
            i = i + 1;
        }
    }
    proof {
        assert(desc_tags_from(s@, i as int) == Seq::<Seq<char>>::empty());
        assert(strings_view(r@) + Seq::<Seq<char>>::empty() =~= strings_view(r@));
    }
    r
}

/// Take the metadata fields out of a task's text: the description that is
/// left (whitespace collapsed) and the fields found.
fn extract_metadata(text: &Vec<char>, config: &TaskConfig) -> (r: (String, StrMap<String>))
    ensures
        r.1.wf(),
        ({
            let p = field_order(config.fields@);
            let all = config.fields@.map_values(|f: EmojiFieldDef| f.emoji@);
            let st = meta_upto(config.fields@, p, all, text@, p.len() as int);
            r.0@ == collapse_ws(st.0) && meta_matches(r.1.view(), st.1)
        }),
{
    let fields = config.sorted_fields();
    let all = config.all_emojis();
    let ghost fs = config.fields@;
    let ghost p = field_order(fs);
    let ghost allv = fs.map_values(|f: EmojiFieldDef| f.emoji@);
    proof {
        assert(strs_view(all@) =~= allv);
    }
    let mut rem = text.clone();
    let mut meta: StrMap<String> = StrMap::new();
    let mut k: usize = 0;
    proof {
        assert(meta.view() =~= Map::<Seq<char>, String>::empty());
    }
    while k < fields.len()
        invariant
            k <= fields@.len(),
            fields@.len() == p.len(),
            forall|m: int| 0 <= m < fields@.len() ==> *(#[trigger] fields@[m]) == fs[p[m]],
            strs_view(all@) == allv,
            meta.wf(),
            rem@ == meta_upto(fs, p, allv, text@, k as int).0,
            meta_matches(meta.view(), meta_upto(fs, p, allv, text@, k as int).1),
        decreases fields@.len() - k,
    {
        let f = fields[k];
        proof {
            assert(*f == fs[p[k as int]]);
        }
        match field_take_exec(f, &all, &rem) {
            Some((v, a, b)) => {
                let ghost m0 = meta.view();
                let ghost sm0 = meta_upto(fs, p, allv, text@, k as int).1;
                rem = cut_exec(&rem, a, b);
                meta.insert(f.field_name.clone(), v);
                proof {
                    let sm1 = sm0.insert(f.field_name@, v@);
                    assert forall|key: Seq<char>| #[trigger] meta.view().contains_key(key) <==> sm1.contains_key(key) by {}
                    assert forall|key: Seq<char>| #[trigger] meta.view().contains_key(key) implies meta.view()[key]@
                        == sm1[key] by {
                        if key != f.field_name@ {
                            assert(meta.view()[key] == m0[key]);
                        }
                    }
                }
            },
            None => {},
        }
        k = k + 1;
    }
    let d = collapse_ws_exec(&rem);
    (d, meta)
}

/// The links of a task's description.
fn extract_task_links(description: &str) -> (r: Vec<TaskLink>)
    ensures
        r@.len() == link_occ(description@, Some(false)).len(),
        forall|k: int|
            0 <= k < r@.len() ==> (#[trigger] r@[k]).to@ == trim(
                description@.subrange(
                    link_occ(description@, Some(false))[k].2.0,
                    link_occ(description@, Some(false))[k].2.1,
                ),
            ) && opt_view(r@[k].alias) == span_text(description@, link_occ(description@, Some(false))[k].5),
{
    let links = crate::parser::wikilink::parse_links(description);
    let mut r: Vec<TaskLink> = Vec::new();
    let mut k: usize = 0;
    while k < links.len()
        invariant
            k <= links@.len(),
            crate::parser::wikilink::links_of(links@, description@, Some(false)),
            r@.len() == k,
            forall|j: int|
                0 <= j < k ==> (#[trigger] r@[j]).to@ == trim(
                    description@.subrange(
                        link_occ(description@, Some(false))[j].2.0,
                        link_occ(description@, Some(false))[j].2.1,
                    ),
                ) && opt_view(r@[j].alias) == span_text(description@, link_occ(description@, Some(false))[j].5),
        decreases links@.len() - k,
    {
        let l = &links[k];
        proof {
            assert(crate::parser::wikilink::link_describes(links@[k as int], description@, link_occ(description@, Some(false))[k as int]));
        }
        let ghost before = r@;
        r.push(TaskLink {
            to: l.target.clone(),
            alias: match &l.alias {
                Some(a) => Some(a.clone()),
                None => None,
            },
        });
        proof {
            assert forall|j: int| 0 <= j < k + 1 implies (#[trigger] r@[j]).to@ == trim(
                description@.subrange(
                    link_occ(description@, Some(false))[j].2.0,
                    link_occ(description@, Some(false))[j].2.1,
                ),
            ) && opt_view(r@[j].alias) == span_text(description@, link_occ(description@, Some(false))[j].5) by {
                if j < k {
                    assert(r@[j] == before[j]);
                }
            }
        }
        k = k + 1;
    }
    r
}

/// Parse one line as a task (without its parent).
pub fn parse_task_line(line: &str, line_num: usize, file_path: &str, config: &TaskConfig) -> (r: Option<Task>)
    ensures
        match task_parts(line@, config.fields@) {
            Some(_) => r matches Some(t) && task_line_is(t, line@, line_num as int, file_path@, config.fields@)
                && t.parent_line is None,
            None => r is None,
        },
{
    let l = chars_of(line);
    let (i0, me) = match task_layout_exec(&l) {
        Some(x) => x,
        None => {
            return None;
        },
    };
    assert(task_layout(l@) == Some((i0 as int, me as int)));
    assert(me + 4 < l@.len());
    let marker = crate::text::string_of_range(&l, i0, me);
    let mut symbol = String::new();
    crate::text::push_char(&mut symbol, '[');
    crate::text::push_char(&mut symbol, l[me + 2]);
    crate::text::push_char(&mut symbol, ']');
    let rest = crate::text::sub_vec(&l, me + 5, l.len());
    let (rest, block_id) = extract_block_id(&rest);
    let (description, metadata) = extract_metadata(&rest, config);
    let dc = chars_of(description.as_str());
    let links = extract_task_links(description.as_str());
    let tags = desc_tags_exec(&dc);
    let indent = count_indent(line);
    let t = Task {
        location: TaskLocation { file: lit(file_path), line: line_num },
        raw: lit(line),
        marker,
        symbol,
        description,
        indent,
        parent_line: None,
        metadata,
        links,
        tags,
        block_id,
    };
    proof {
        assert(t.symbol@ =~= seq!['[', line@[me + 2], ']']);
    }
    Some(t)
}


// ---------------------------------------------------------------------------
// The tasks of a note
// ---------------------------------------------------------------------------

/// Line `l` (1-indexed) lies within the lines of some code range of `s`
/// (a fenced block or inline code).
pub open spec fn line_in_code(s: Seq<char>, l: int) -> bool {
    exists|k: int|
        0 <= k < code_ranges(s).len() && (#[trigger] code_ranges(s)[k]).2 <= l <= code_ranges(s)[k].3
}

/// Line `j` (0-indexed) is looked at: it lies outside code.
pub open spec fn processed(s: Seq<char>, j: int) -> bool {
    !line_in_code(s, j + 1)
}

/// The parent found for an item before line `k` with indentation bound
/// `b`: the nearest earlier looked-at line indented less than `b`; when it
/// is a task, that task (its line number); otherwise the parent of that
/// line's indentation, searched before it.
pub open spec fn scan_parent(s: Seq<char>, ls: Seq<Seq<char>>, k: int, b: int) -> Option<int>
    decreases k,
{
    if k <= 0 || k > ls.len() {
        None
    } else {
        let j = k - 1;
        if processed(s, j) && spec_indent(ls[j]) < b {
            if task_layout(ls[j]) is Some {
                Some(j + 1)
            } else {
                scan_parent(s, ls, j, spec_indent(ls[j]))
            }
        } else {
            scan_parent(s, ls, j, b)
        }
    }
}

/// The indices of the looked-at task lines among the first `n` lines.
pub open spec fn task_indices(s: Seq<char>, ls: Seq<Seq<char>>, n: int) -> Seq<int>
    decreases n,
{
    if n <= 0 || n > ls.len() {
        Seq::empty()
    } else {
        task_indices(s, ls, n - 1) + if processed(s, n - 1) && task_layout(ls[n - 1]) is Some {
            seq![n - 1]
        } else {
            Seq::<int>::empty()
        }
    }
}

pub open spec fn opt_line(o: Option<usize>) -> Option<int> {
    match o {
        Some(x) => Some(x as int),
        None => None,
    }
}

/// `r` lists the tasks of `content`: one per looked-at task line, in order,
/// each with its parent.
pub open spec fn tasks_of(r: Seq<Task>, content: Seq<char>, file: Seq<char>, fs: Seq<EmojiFieldDef>) -> bool {
    let ls = lines(content);
    let ts = task_indices(content, ls, ls.len() as int);
    &&& r.len() == ts.len()
    &&& forall|i: int|
        0 <= i < r.len() ==> task_line_is(#[trigger] r[i], ls[ts[i]], ts[i] + 1, file, fs) && opt_line(
            r[i].parent_line,
        ) == scan_parent(content, ls, ts[i], spec_indent(ls[ts[i]]))
}

/// The line of the last entry of the stack indented less than `b`.
pub open spec fn last_below(st: Seq<(usize, usize)>, b: int) -> Option<int>
    decreases st.len(),
{
    if st.len() == 0 {
        None
    } else if (st.last().0 as int) < b {
        Some(st.last().1 as int)
    } else {
        last_below(st.drop_last(), b)
    }
}

pub open spec fn increasing(st: Seq<(usize, usize)>) -> bool {
    forall|a: int, c: int| 0 <= a < c < st.len() ==> (#[trigger] st[a]).0 < (#[trigger] st[c]).0
}

proof fn lemma_last_below_all_less(st: Seq<(usize, usize)>, b: int)
    requires
        increasing(st),
        forall|a: int| 0 <= a < st.len() ==> (#[trigger] st[a]).0 < b,
    ensures
        last_below(st, b) == if st.len() == 0 {
            None
        } else {
            Some(st.last().1 as int)
        },
{
}

/// Popping the entries indented at least `d` keeps what lies below `b`
/// for `b <= d`.
proof fn lemma_pop_keeps(st: Seq<(usize, usize)>, d: int, b: int)
    requires
        st.len() > 0,
        st.last().0 >= d,
        b <= d,
    ensures
        last_below(st.drop_last(), b) == last_below(st, b),
{
}

pub(crate) fn line_in_ranges(ranges: &Vec<crate::parser::code_block::CodeBlockRange>, ln: usize) -> (r: bool)
    ensures
        r == exists|k: int|
            0 <= k < ranges@.len() && (#[trigger] ranges@[k]).start_line <= ln <= ranges@[k].end_line,
{
    let mut k: usize = 0;
    while k < ranges.len()
        invariant
            k <= ranges@.len(),
            forall|m: int| 0 <= m < k ==> !((#[trigger] ranges@[m]).start_line <= ln <= ranges@[m].end_line),
        decreases ranges@.len() - k,
    {
        if ranges[k].start_line <= ln && ln <= ranges[k].end_line {
            return true;
        }
        k = k + 1;
    }
    false
}

pub(crate) proof fn lemma_line_in_code_iff(s: Seq<char>, r: Seq<crate::parser::code_block::CodeBlockRange>, l: int)
    requires
        ranges_view(r).to_multiset() == code_ranges(s).to_multiset(),
    ensures
        (exists|k: int| 0 <= k < r.len() && (#[trigger] r[k]).start_line <= l <= r[k].end_line) <==> line_in_code(s, l),
{
    broadcast use vstd::seq_lib::to_multiset_contains;

    let v = ranges_view(r);
    let c = code_ranges(s);
    if exists|k: int| 0 <= k < r.len() && (#[trigger] r[k]).start_line <= l <= r[k].end_line {
        let k = choose|k: int| 0 <= k < r.len() && (#[trigger] r[k]).start_line <= l <= r[k].end_line;
        assert(v[k] == crate::parser::code_block::range_view(r[k]));
        assert(v.contains(v[k]));
        assert(v.to_multiset().contains(v[k]));
        assert(c.contains(v[k]));
        let m = choose|m: int| 0 <= m < c.len() && c[m] == v[k];
        assert(c[m].2 <= l <= c[m].3);
    }
    if line_in_code(s, l) {
        let m = choose|m: int| 0 <= m < c.len() && (#[trigger] c[m]).2 <= l <= c[m].3;
        assert(c.contains(c[m]));
        assert(v.to_multiset().contains(c[m]));
        assert(v.contains(c[m]));
        let k = choose|k: int| 0 <= k < v.len() && v[k] == c[m];
        assert(v[k] == crate::parser::code_block::range_view(r[k]));
        assert(r[k].start_line <= l <= r[k].end_line);
    }
}

/// Pop the entries indented at least `d`.
fn pop_ge(stack: &mut Vec<(usize, usize)>, d: usize)
    requires
        increasing(old(stack)@),
    ensures
        increasing(final(stack)@),
        forall|a: int| 0 <= a < final(stack)@.len() ==> (#[trigger] final(stack)@[a]).0 < d,
        forall|b: int| b <= d ==> last_below(final(stack)@, b) == last_below(old(stack)@, b),
        forall|b: int| b > d ==> last_below(final(stack)@, b) == last_below(old(stack)@, d as int),
{
    while stack.len() > 0 && stack[stack.len() - 1].0 >= d
        invariant
            increasing(stack@),
            increasing(old(stack)@),
            forall|b: int| b <= d ==> last_below(stack@, b) == last_below(old(stack)@, b),
        decreases stack@.len(),
    {
        let ghost st = stack@;
        stack.pop();
        proof {
            assert(stack@ =~= st.drop_last());
            assert forall|b: int| b <= d implies last_below(stack@, b) == last_below(old(stack)@, b) by {
                lemma_pop_keeps(st, d as int, b);
            }
        }
    }
    proof {
        let st = stack@;
        assert forall|a: int| 0 <= a < st.len() implies (#[trigger] st[a]).0 < d by {
            if a < st.len() - 1 {
                assert(st[a].0 < st[st.len() - 1].0);
            }
        }
        assert forall|b: int| b > d implies last_below(st, b) == last_below(old(stack)@, d as int) by {
            lemma_last_below_all_less(st, b);
            lemma_last_below_all_less(st, d as int);
        }
    }
}

/// Parse the tasks of a note's content. A task's parent is the nearest
/// task above it with less indentation; lines inside code are skipped,
/// and any other line ends the tasks indented at least as much as it.
pub fn parse_tasks(content: &str, file_path: &str, config: &TaskConfig) -> (r: Vec<Task>)
    ensures
        tasks_of(r@, content@, file_path@, config.fields@),
{
    let s = chars_of(content);
    let ls = crate::text::split_lines(&s);
    let ranges = crate::parser::code_block::code_ranges_of(&s);
    let ghost lv = lines(content@);
    let mut tasks: Vec<Task> = Vec::new();
    let mut stack: Vec<(usize, usize)> = Vec::new();
    let mut i: usize = 0;
    while i < ls.len()
        invariant
            i <= ls@.len(),
            s@ == content@,
            ls.deep_view() == lv,
            lv == lines(content@),
            ranges_view(ranges@).to_multiset() == code_ranges(content@).to_multiset(),
            increasing(stack@),
            forall|b: int| last_below(stack@, b) == scan_parent(content@, lv, i as int, b),
            tasks@.len() == task_indices(content@, lv, i as int).len(),
            forall|q: int|
                0 <= q < tasks@.len() ==> task_line_is(
                    #[trigger] tasks@[q],
                    lv[task_indices(content@, lv, i as int)[q]],
                    task_indices(content@, lv, i as int)[q] + 1,
                    file_path@,
                    config.fields@,
                ) && opt_line(tasks@[q].parent_line) == scan_parent(
                    content@,
                    lv,
                    task_indices(content@, lv, i as int)[q],
                    spec_indent(lv[task_indices(content@, lv, i as int)[q]]),
                ),
        decreases ls@.len() - i,
    {
        let line_num = i + 1;
        let line = crate::text::string_of(ls[i].as_slice());
        proof {
            assert(lv[i as int] == ls@[i as int]@);
            lemma_line_in_code_iff(content@, ranges@, line_num as int);
        }
        let ghost old_idx = task_indices(content@, lv, i as int);
        let ghost st0 = stack@;
        if line_in_ranges(&ranges, line_num) {
            proof {
                assert(task_indices(content@, lv, i + 1) == old_idx);
                assert forall|b: int| last_below(stack@, b) == scan_parent(content@, lv, i + 1, b) by {}
            }
        } else {
            match parse_task_line(line.as_str(), line_num, file_path, config) {
                Some(task) => {
                    let d = task.indent;
                    pop_ge(&mut stack, d);
                    let ghost st_pop = stack@;
                    let parent = if stack.len() > 0 {
                        Some(stack[stack.len() - 1].1)
                    } else {
                        None
                    };
                    proof {
                        assert(task_layout(lv[i as int]) is Some);
                        lemma_last_below_all_less(stack@, d as int + 1);
                        assert(opt_line(parent) == last_below(st0, d as int));
                    }
                    let mut task = task;
                    task.parent_line = parent;
                    stack.push((d, line_num));
                    proof {
                        let st1 = stack@.drop_last();
                        assert(st1 =~= st_pop);
                        assert forall|a: int, c: int| 0 <= a < c < stack@.len() implies (#[trigger] stack@[a]).0
                            < (#[trigger] stack@[c]).0 by {
                            if c == stack@.len() - 1 {
                                assert(stack@[a] == st1[a]);
                            } else {
                                assert(stack@[a] == st1[a] && stack@[c] == st1[c]);
                            }
                        }
                        assert(spec_indent(lv[i as int]) == d);
                        assert(processed(content@, i as int));
                        assert forall|b: int| last_below(stack@, b) == scan_parent(content@, lv, i + 1, b) by {
                            assert(stack@.drop_last() == st1);
                            assert(stack@.last() == (d, line_num));
                            if d < b {
                                assert(scan_parent(content@, lv, i + 1, b) == Some(i + 1));
                            } else {
                                assert(scan_parent(content@, lv, i + 1, b) == scan_parent(content@, lv, i as int, b));
                                assert(last_below(st1, b) == last_below(st0, b));
                            }
                        }
                    }
                    let ghost before = tasks@;
                    tasks.push(task);
                    proof {
                        let ni = task_indices(content@, lv, i + 1);
                        assert(ni == old_idx.push(i as int));
                        assert forall|q: int| 0 <= q < tasks@.len() implies task_line_is(
                            #[trigger] tasks@[q],
                            lv[ni[q]],
                            ni[q] + 1,
                            file_path@,
                            config.fields@,
                        ) && opt_line(tasks@[q].parent_line) == scan_parent(
                            content@,
                            lv,
                            ni[q],
                            spec_indent(lv[ni[q]]),
                        ) by {
                            if q < before.len() {
                                assert(tasks@[q] == before[q]);
                                assert(ni[q] == old_idx[q]);
                            }
                        }
                    }
                },
                None => {
                    let d = count_indent(line.as_str());
                    pop_ge(&mut stack, d);
                    proof {
                        assert(task_layout(lv[i as int]) is None);
                        assert(spec_indent(lv[i as int]) == d);
                        assert(processed(content@, i as int));
                        assert(task_indices(content@, lv, i + 1) == old_idx);
                        assert forall|b: int| last_below(stack@, b) == scan_parent(content@, lv, i + 1, b) by {
                            if d < b {
                                assert(scan_parent(content@, lv, i + 1, b) == scan_parent(content@, lv, i as int, d as int));
                                assert(last_below(stack@, b) == last_below(st0, d as int));
                            } else {
                                assert(scan_parent(content@, lv, i + 1, b) == scan_parent(content@, lv, i as int, b));
                            }
                        }
                    }
                },
            }
        }
        i = i + 1;
    }
    tasks
}

} // verus!
