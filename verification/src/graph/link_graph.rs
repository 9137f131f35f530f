//! Links between notes.

use vstd::prelude::*;
use crate::graph::resolution::{resolve_link_target, spec_resolve, strings_view};
use crate::parser::code_block::line_of;
use crate::parser::frontmatter::{frontmatter_agrees, parse_frontmatter, spec_frontmatter_value};
use crate::parser::inline_property::line_start;
use crate::parser::wikilink::{
    lemma_link_occ_valid, link_at, link_describes, link_occ, links_of, opt_string_view,
    parse_all_links, span_text, LinkM,
};
use crate::str_map::StrMap;
use crate::text::{
    chars_of, decimal, decimal_string, find_char, find_char_from, find_from, find_seq_from,
    has_prefix, lines, lit, pat2, push_char, push_str_chars, split_lines, starts_with_str, string_of,
    string_of_range, trim, trim_start, trim_start_vec,
};
use crate::types::{context_view, ContextV, Link, LinkContext};
use crate::yaml::{
    mapping_entries, mapping_entries_vec, mapping_variant, sequence_variant, string_variant, untag,
    value_as_str, yaml_tree, YamlV,
};

verus! {

/// An outgoing link of a note.
#[derive(Debug, Clone)]
pub struct LinkInfo {
    /// The parsed link.
    pub link: Link,
    /// Where the link appears in the note.
    pub context: LinkContext,
    /// Path of the target note, when it exists.
    pub resolved_path: Option<String>,
}

/// A link into a note.
#[derive(Debug, Clone)]
pub struct IncomingLink {
    /// Path of the note that holds the link.
    pub from: String,
    /// The parsed link.
    pub link: Link,
    /// Where the link appears in the source note.
    pub context: LinkContext,
}

// ---------------------------------------------------------------------------
// Context of a link in the body
// ---------------------------------------------------------------------------

/// A line that opens a task (`- [ ]`, `- [x]`, `- [X]`, `- [>]`, `- [-]` or
/// `- [/]`, after leading whitespace).
pub open spec fn is_task_line(line: Seq<char>) -> bool {
    let t = trim_start(line);
    has_prefix(t, "- [ ]"@) || has_prefix(t, "- [x]"@) || has_prefix(t, "- [X]"@) || has_prefix(
        t,
        "- [>]"@,
    ) || has_prefix(t, "- [-]"@) || has_prefix(t, "- [/]"@)
}

/// The last offset before `j` that holds `c`.
pub open spec fn last_char_before(s: Seq<char>, c: char, j: int) -> Option<int>
    decreases j,
{
    if j <= 0 {
        None
    } else if j - 1 < s.len() && s[j - 1] == c {
        Some(j - 1)
    } else {
        last_char_before(s, c, j - 1)
    }
}

/// Where a link at line `line`, column `col`, of `content` appears: on a
/// task line; inside an inline attribute `[key::...` when the text from the
/// last `[` before the link holds `::` and no `]`; in the body otherwise
/// (also when the line or column lies outside the text).
pub open spec fn spec_context(content: Seq<char>, line: int, col: int) -> ContextV {
    let ls = lines(content);
    if line <= 0 || line > ls.len() {
        ContextV::Body
    } else {
        let lc = ls[line - 1];
        if is_task_line(lc) {
            ContextV::Task
        } else if col < 0 || col > lc.len() {
            ContextV::Body
        } else {
            match last_char_before(lc, '[', col) {
                Some(b) => {
                    let between = lc.subrange(b, col);
                    match find_from(between, "::"@, 0) {
                        Some(ke) => if find_char_from(between, ']', 0) is None {
                            ContextV::Inline(between.subrange(1, ke))
                        } else {
                            ContextV::Body
                        },
                        None => ContextV::Body,
                    }
                },
                None => ContextV::Body,
            }
        }
    }
}

/// A link on a task line gets the task context, whatever its checkbox
/// holds: open (` `), done (`x` or `X`), deferred (`>`), cancelled (`-`)
/// or in progress (`/`); the column does not matter.
pub proof fn law_task_line_context(content: Seq<char>, line: int, col: int, c: char)
    requires
        1 <= line <= lines(content).len(),
        c == ' ' || c == 'x' || c == 'X' || c == '>' || c == '-' || c == '/',
        has_prefix(trim_start(lines(content)[line - 1]), seq!['-', ' ', '[', c, ']']),
    ensures
        spec_context(content, line, col) == ContextV::Task,
{
    reveal_strlit("- [ ]");
    reveal_strlit("- [x]");
    reveal_strlit("- [X]");
    reveal_strlit("- [>]");
    reveal_strlit("- [-]");
    reveal_strlit("- [/]");
    let p = seq!['-', ' ', '[', c, ']'];
    if c == ' ' {
        assert(p =~= "- [ ]"@);
    } else if c == 'x' {
        assert(p =~= "- [x]"@);
    } else if c == 'X' {
        assert(p =~= "- [X]"@);
    } else if c == '>' {
        assert(p =~= "- [>]"@);
    } else if c == '-' {
        assert(p =~= "- [-]"@);
    } else {
        assert(p =~= "- [/]"@);
    }
    assert(is_task_line(lines(content)[line - 1]));
}

proof fn lemma_prefix_first(t: Seq<char>, p: Seq<char>)
    ensures
        has_prefix(t, p) && p.len() > 0 ==> t.len() > 0 && t[0] == p[0],
{
    if has_prefix(t, p) && p.len() > 0 {
        assert(t.subrange(0, p.len() as int)[0] == t[0]);
    }
}

/// A link on a line that does not open with `-` (after leading whitespace)
/// and has no `[` before the link's column is in the body.
pub proof fn law_plain_line_context(content: Seq<char>, line: int, col: int)
    requires
        1 <= line <= lines(content).len(),
        trim_start(lines(content)[line - 1]).len() == 0 || trim_start(lines(content)[line - 1])[0] != '-',
        forall|k: int| 0 <= k < col && k < lines(content)[line - 1].len() ==> #[trigger] lines(content)[line - 1][k] != '[',
    ensures
        spec_context(content, line, col) == ContextV::Body,
{
    reveal_strlit("- [ ]");
    reveal_strlit("- [x]");
    reveal_strlit("- [X]");
    reveal_strlit("- [>]");
    reveal_strlit("- [-]");
    reveal_strlit("- [/]");
    let lc = lines(content)[line - 1];
    let t = trim_start(lc);
    lemma_prefix_first(t, "- [ ]"@);
    lemma_prefix_first(t, "- [x]"@);
    lemma_prefix_first(t, "- [X]"@);
    lemma_prefix_first(t, "- [>]"@);
    lemma_prefix_first(t, "- [-]"@);
    lemma_prefix_first(t, "- [/]"@);
    assert(!is_task_line(lc));
    if 0 <= col <= lc.len() {
        lemma_last_char_before(lc, '[', col);
    }
}

proof fn lemma_last_char_before(s: Seq<char>, c: char, j: int)
    ensures
        last_char_before(s, c, j) matches Some(b) ==> 0 <= b < j && b < s.len() && s[b] == c,
    decreases j,
{
    if j > 0 && !(j - 1 < s.len() && s[j - 1] == c) {
        lemma_last_char_before(s, c, j - 1);
    }
}

fn last_char_before_exec(s: &Vec<char>, c: char, j: usize) -> (r: Option<usize>)
    requires
        j <= s@.len(),
    ensures
        match r {
            Some(b) => last_char_before(s@, c, j as int) == Some(b as int),
            None => last_char_before(s@, c, j as int) is None,
        },
{
    let mut k = j;
    while k > 0
        invariant
            k <= j <= s@.len(),
            last_char_before(s@, c, j as int) == last_char_before(s@, c, k as int),
        decreases k,
    {
        if s[k - 1] == c {
            return Some(k - 1);
        }
        k = k - 1;
    }
    None
}

fn task_line_exec(line: &Vec<char>) -> (r: bool)
    ensures
        r == is_task_line(line@),
{
    let t = trim_start_vec(line);
    let s = t.as_slice();
    starts_with_str(s, "- [ ]") || starts_with_str(s, "- [x]") || starts_with_str(s, "- [X]")
        || starts_with_str(s, "- [>]") || starts_with_str(s, "- [-]") || starts_with_str(s, "- [/]")
}

/// Determine where a link appears in a note's content.
fn determine_context(lines_of_content: &Vec<Vec<char>>, line: usize, col: usize) -> (r: LinkContext)
    ensures
        context_view(r) == {
            let ls = lines_of_content.deep_view();
            if line == 0 || line > ls.len() {
                ContextV::Body
            } else {
                let lc = ls[line - 1];
                if is_task_line(lc) {
                    ContextV::Task
                } else if col > lc.len() {
                    ContextV::Body
                } else {
                    match last_char_before(lc, '[', col as int) {
                        Some(b) => {
                            let between = lc.subrange(b, col as int);
                            match find_from(between, "::"@, 0) {
                                Some(ke) => if find_char_from(between, ']', 0) is None {
                                    ContextV::Inline(between.subrange(1, ke))
                                } else {
                                    ContextV::Body
                                },
                                None => ContextV::Body,
                            }
                        },
                        None => ContextV::Body,
                    }
                }
            }
        },
{
    if line == 0 || line > lines_of_content.len() {
        return LinkContext::Body;
    }
    let lc = &lines_of_content[line - 1];
    proof {
        assert(lines_of_content.deep_view()[line - 1] == lc@);
    }
    if task_line_exec(lc) {
        return LinkContext::Task;
    }
    if col > lc.len() {
        return LinkContext::Body;
    }
    match last_char_before_exec(lc, '[', col) {
        Some(b) => {
            proof {
                lemma_last_char_before(lc@, '[', col as int);
            }
            let between = crate::text::sub_vec(lc, b, col);
            let colons = pat2(':', ':');
            proof {
                reveal_strlit("::");
                assert(colons@ =~= "::"@);
            }
            match find_seq_from(between.as_slice(), colons.as_slice(), 0) {
                Some(ke) => {
                    if find_char(between.as_slice(), ']', 0).is_none() {
                        proof {
                            crate::text::lemma_find_from_found(between@, colons@, 0);
                            assert(between@[0] == '[');
                            if ke == 0 {
                                assert(between@[0] == ':');
                            }
                        }
                        LinkContext::Inline { key: string_of_range(&between, 1, ke) }
                    } else {
                        LinkContext::Body
                    }
                },
                None => LinkContext::Body,
            }
        },
        None => LinkContext::Body,
    }
}

// ---------------------------------------------------------------------------
// Links in frontmatter values
// ---------------------------------------------------------------------------

/// Number of items or entries of a value.
pub open spec fn entry_count(v: YamlV) -> int {
    match v {
        YamlV::List(items) => items.len() as int,
        YamlV::Mapping(es) => es.len() as int,
        _ => 0,
    }
}

/// The context of a string value reached at key path `kp`.
pub open spec fn scalar_context(kp: Seq<char>) -> ContextV {
    if kp.len() == 0 {
        ContextV::Body
    } else {
        ContextV::FrontmatterScalar(kp)
    }
}

/// The key path of the entry `key` under `kp`.
pub open spec fn key_path_join(kp: Seq<char>, key: Seq<char>) -> Seq<char> {
    if kp.len() == 0 {
        key
    } else {
        kp + "."@ + key
    }
}

/// The string values of a frontmatter value where links are looked for,
/// each with the context its links get, in order: a string; each string
/// item of a sequence (other items are searched under `kp[i]`); each entry
/// with a string key of a mapping (under `kp.key`).
pub open spec fn fm_sources(v: YamlV, kp: Seq<char>) -> Seq<(Seq<char>, ContextV)>
    decreases v, entry_count(v) + 1,
{
    match v {
        YamlV::Str(s) => seq![(s, scalar_context(kp))],
        YamlV::List(_) => list_sources(v, kp, 0),
        YamlV::Mapping(_) => map_sources(v, kp, 0),
        _ => Seq::empty(),
    }
}

/// The sources of the items of a sequence value from item `i` on.
pub open spec fn list_sources(v: YamlV, kp: Seq<char>, i: int) -> Seq<(Seq<char>, ContextV)>
    decreases v, entry_count(v) - i,
{
    match v {
        YamlV::List(items) => if 0 <= i < items.len() {
            (match items[i] {
                YamlV::Str(s) => seq![(s, ContextV::FrontmatterList(kp, i))],
                _ => fm_sources(items[i], kp + "["@ + decimal(i as nat) + "]"@),
            }) + list_sources(v, kp, i + 1)
        } else {
            Seq::empty()
        },
        _ => Seq::empty(),
    }
}

/// The sources of the entries of a mapping value from entry `j` on.
pub open spec fn map_sources(v: YamlV, kp: Seq<char>, j: int) -> Seq<(Seq<char>, ContextV)>
    decreases v, entry_count(v) - j,
{
    match v {
        YamlV::Mapping(es) => if 0 <= j < es.len() {
            (match untag(es[j].0) {
                YamlV::Str(key) => fm_sources(es[j].1, key_path_join(kp, key)),
                _ => Seq::empty(),
            }) + map_sources(v, kp, j + 1)
        } else {
            Seq::empty()
        },
        _ => Seq::empty(),
    }
}

/// The link occurrences of each source, in order, with the source's text
/// and context.
pub open spec fn expand(srcs: Seq<(Seq<char>, ContextV)>) -> Seq<(Seq<char>, LinkM, ContextV)>
    decreases srcs.len(),
{
    if srcs.len() == 0 {
        Seq::empty()
    } else {
        expand(srcs.drop_last()) + link_occ(srcs.last().0, None).map_values(
            |m: LinkM| (srcs.last().0, m, srcs.last().1),
        )
    }
}

pub proof fn lemma_expand_concat(a: Seq<(Seq<char>, ContextV)>, b: Seq<(Seq<char>, ContextV)>)
    ensures
        expand(a + b) == expand(a) + expand(b),
    decreases b.len(),
{
    if b.len() == 0 {
        assert(a + b =~= a);
        assert(expand(a) + expand(b) =~= expand(a));
    } else {
        lemma_expand_concat(a, b.drop_last());
        assert((a + b).drop_last() =~= a + b.drop_last());
        assert((a + b).last() == b.last());
        let t = link_occ(b.last().0, None).map_values(|m: LinkM| (b.last().0, m, b.last().1));
        assert(expand(a + b) == expand(a + b.drop_last()) + t);
        assert(expand(a) + expand(b) =~= expand(a) + expand(b.drop_last()) + t);
    }
}

pub proof fn lemma_expand_single(t: Seq<char>, c: ContextV)
    ensures
        expand(seq![(t, c)]) =~= link_occ(t, None).map_values(|m: LinkM| (t, m, c)),
{
    let srcs = seq![(t, c)];
    assert(srcs.drop_last() =~= Seq::<(Seq<char>, ContextV)>::empty());
    assert(expand(srcs.drop_last()) == Seq::<(Seq<char>, LinkM, ContextV)>::empty());
    assert(srcs.last() == (t, c));
    let a = link_occ(srcs.last().0, None).map_values(|m: LinkM| (srcs.last().0, m, srcs.last().1));
    assert(expand(srcs) == expand(srcs.drop_last()) + a);
    assert(a =~= link_occ(t, None).map_values(|m: LinkM| (t, m, c)));
}

// ---------------------------------------------------------------------------
// Link infos
// ---------------------------------------------------------------------------

/// The link `l` is the one that occurrence `m` of `s` describes, with its
/// line number given as `line`.
pub open spec fn link_matches(l: Link, s: Seq<char>, m: LinkM, line: int) -> bool {
    &&& l.target@ == trim(s.subrange(m.2.0, m.2.1))
    &&& opt_string_view(l.block_id) == span_text(s, m.3)
    &&& opt_string_view(l.heading) == span_text(s, m.4)
    &&& opt_string_view(l.alias) == span_text(s, m.5)
    &&& l.embed == m.1
    &&& l.line == line
    &&& l.start_col == crate::text::utf8_len(s.subrange(line_start(s, m.0), m.0))
    &&& l.end_col == crate::text::utf8_len(s.subrange(line_start(s, m.0), m.6))
}

/// `li` is the link info of occurrence `m` of `s`, with line `line`, in
/// context `ctx`, resolved among `notes` with `aliases`.
pub open spec fn info_is(
    li: LinkInfo,
    s: Seq<char>,
    m: LinkM,
    line: int,
    ctx: ContextV,
    notes: Seq<Seq<char>>,
    aliases: Map<Seq<char>, String>,
) -> bool {
    &&& link_matches(li.link, s, m, line)
    &&& context_view(li.context) == ctx
    &&& opt_string_view(li.resolved_path) == spec_resolve(li.link.target@, notes, aliases)
}

/// `new` is `old` followed by the infos of `items`; frontmatter items
/// (`line0`) have line 0, the others the line they stand on.
pub open spec fn infos_extend(
    new: Seq<LinkInfo>,
    old: Seq<LinkInfo>,
    items: Seq<(Seq<char>, LinkM, ContextV)>,
    line0: bool,
    notes: Seq<Seq<char>>,
    aliases: Map<Seq<char>, String>,
) -> bool {
    &&& new.len() == old.len() + items.len()
    &&& forall|k: int| 0 <= k < old.len() ==> new[k] == old[k]
    &&& forall|k: int|
        0 <= k < items.len() ==> info_is(
            #[trigger] new[old.len() + k],
            items[k].0,
            items[k].1,
            if line0 {
                0
            } else {
                line_of(items[k].0, items[k].1.0)
            },
            items[k].2,
            notes,
            aliases,
        )
}

proof fn lemma_infos_extend_trans(
    a: Seq<LinkInfo>,
    b: Seq<LinkInfo>,
    c: Seq<LinkInfo>,
    x: Seq<(Seq<char>, LinkM, ContextV)>,
    y: Seq<(Seq<char>, LinkM, ContextV)>,
    line0: bool,
    notes: Seq<Seq<char>>,
    aliases: Map<Seq<char>, String>,
)
    requires
        infos_extend(b, a, x, line0, notes, aliases),
        infos_extend(c, b, y, line0, notes, aliases),
    ensures
        infos_extend(c, a, x + y, line0, notes, aliases),
{
    let xy = x + y;
    assert forall|k: int| 0 <= k < xy.len() implies info_is(
        #[trigger] c[a.len() + k],
        xy[k].0,
        xy[k].1,
        if line0 {
            0
        } else {
            line_of(xy[k].0, xy[k].1.0)
        },
        xy[k].2,
        notes,
        aliases,
    ) by {
        if k < x.len() {
            assert(c[a.len() + k] == b[a.len() + k]);
            assert(xy[k] == x[k]);
        } else {
            assert(xy[k] == y[k - x.len()]);
            assert(c[a.len() + k] == c[b.len() + (k - x.len())]);
        }
    }
}

/// Appends the infos of the links of `text`, found in context `ctx`; with
/// `line0` their line is 0.
fn push_text_links(
    text: &str,
    ctx: &LinkContext,
    line0: bool,
    notes: &[String],
    aliases: &StrMap<String>,
    out: &mut Vec<LinkInfo>,
)
    requires
        aliases.wf(),
        line0,
    ensures
        infos_extend(
            final(out)@,
            old(out)@,
            link_occ(text@, None).map_values(|m: LinkM| (text@, m, context_view(*ctx))),
            true,
            strings_view(notes@),
            aliases.view(),
        ),
{
    let links = parse_all_links(text);
    let ghost items = link_occ(text@, None).map_values(|m: LinkM| (text@, m, context_view(*ctx)));
    let ghost start = out@;
    let mut k: usize = 0;
    while k < links.len()
        invariant
            k <= links@.len(),
            aliases.wf(),
            links_of(links@, text@, None),
            items == link_occ(text@, None).map_values(|m: LinkM| (text@, m, context_view(*ctx))),
            infos_extend(
                out@,
                start,
                items.subrange(0, k as int),
                true,
                strings_view(notes@),
                aliases.view(),
            ),
        decreases links@.len() - k,
    {
        let mut link = links[k].copy();
        link.line = 0;
        let resolved = resolve_link_target(link.target.as_str(), notes, aliases);
        let ghost before = out@;
        out.push(LinkInfo { link, context: ctx.copy(), resolved_path: resolved });
        proof {
            assert(link_describes(links@[k as int], text@, link_occ(text@, None)[k as int]));
            assert(items[k as int] == (text@, link_occ(text@, None)[k as int], context_view(*ctx)));
            assert forall|j: int| 0 <= j < k + 1 implies info_is(
                #[trigger] out@[start.len() + j],
                items.subrange(0, k + 1)[j].0,
                items.subrange(0, k + 1)[j].1,
                0,
                items.subrange(0, k + 1)[j].2,
                strings_view(notes@),
                aliases.view(),
            ) by {
                if j < k {
                    assert(out@[start.len() + j] == before[start.len() + j]);
                    assert(items.subrange(0, k + 1)[j] == items.subrange(0, k as int)[j]);
                }
            }
            assert forall|j: int| 0 <= j < start.len() implies out@[j] == start[j] by {
                assert(out@[j] == before[j]);
            }
        }
        k = k + 1;
    }
    proof {
        assert(items.subrange(0, k as int) =~= items);
    }
}

/// Appends the infos of the links in the strings of a frontmatter value
/// reached at key path `kp`.
fn push_frontmatter_links(
    value: &serde_yaml::Value,
    kp: &String,
    notes: &[String],
    aliases: &StrMap<String>,
    out: &mut Vec<LinkInfo>,
)
    requires
        aliases.wf(),
    ensures
        infos_extend(
            final(out)@,
            old(out)@,
            expand(fm_sources(yaml_tree(*value), kp@)),
            true,
            strings_view(notes@),
            aliases.view(),
        ),
    decreases yaml_tree(*value), entry_count(yaml_tree(*value)) + 1,
{
    let ghost v = yaml_tree(*value);
    let ghost start = out@;
    match string_variant(value) {
        Some(s) => {
            let ctx = if kp.as_str().unicode_len() == 0 {
                LinkContext::Body
            } else {
                LinkContext::FrontmatterScalar { key: kp.clone() }
            };
            proof {
            }
            push_text_links(s.as_str(), &ctx, true, notes, aliases, out);
            proof {
                assert(context_view(ctx) == scalar_context(kp@));
                lemma_expand_single(s@, scalar_context(kp@));
                assert(link_occ(s@, None).map_values(|m: LinkM| (s@, m, context_view(ctx)))
                    =~= link_occ(s@, None).map_values(|m: LinkM| (s@, m, scalar_context(kp@))));
            }
            return ;
        },
        None => {},
    }
    match sequence_variant(value) {
        Some(items) => {
            let ghost vitems = v->List_0;
            let ghost mut pre: Seq<(Seq<char>, ContextV)> = Seq::empty();
            let mut i: usize = 0;
            proof {
                assert(expand(pre) =~= Seq::<(Seq<char>, LinkM, ContextV)>::empty());
                assert(pre + list_sources(v, kp@, 0) =~= list_sources(v, kp@, 0));
            }
            while i < items.len()
                invariant
                    aliases.wf(),
                    v == yaml_tree(*value),
                    v == YamlV::List(vitems),
                    items@.len() == vitems.len(),
                    forall|j: int| 0 <= j < vitems.len() ==> yaml_tree(#[trigger] items@[j]) == vitems[j],
                    i <= items@.len(),
                    pre + list_sources(v, kp@, i as int) == list_sources(v, kp@, 0),
                    infos_extend(out@, start, expand(pre), true, strings_view(notes@), aliases.view()),
                decreases items@.len() - i,
            {
                let item = &items[i];
                let ghost mid = out@;
                let ghost c: Seq<(Seq<char>, ContextV)> = match vitems[i as int] {
                    YamlV::Str(s) => seq![(s, ContextV::FrontmatterList(kp@, i as int))],
                    _ => fm_sources(vitems[i as int], kp@ + "["@ + decimal(i as nat) + "]"@),
                };
                proof {
                    assert(list_sources(v, kp@, i as int) == c + list_sources(v, kp@, i + 1));
                }
                match string_variant(item) {
                    Some(s) => {
                        let ctx = LinkContext::FrontmatterList { key: kp.clone(), index: i };
                        push_text_links(s.as_str(), &ctx, true, notes, aliases, out);
                        proof {
                            lemma_expand_single(s@, ContextV::FrontmatterList(kp@, i as int));
                            assert(link_occ(s@, None).map_values(
                                |m: LinkM| (s@, m, context_view(ctx)),
                            ) =~= link_occ(s@, None).map_values(
                                |m: LinkM| (s@, m, ContextV::FrontmatterList(kp@, i as int)),
                            ));
                        }
                    },
                    None => {
                        let mut sub = kp.clone();
                        push_char(&mut sub, '[');
                        let digits = chars_of(decimal_string(i).as_str());
                        push_str_chars(&mut sub, digits.as_slice());
                        push_char(&mut sub, ']');
                        proof {
                            reveal_strlit("[");
                            reveal_strlit("]");
                            assert(sub@ =~= kp@ + "["@ + decimal(i as nat) + "]"@);
                            assert(decreases_to!(v => vitems));
                            assert(decreases_to!(vitems => vitems[i as int]));
                        }
                        push_frontmatter_links(item, &sub, notes, aliases, out);
                    },
                }
                proof {
                    lemma_infos_extend_trans(
                        start,
                        mid,
                        out@,
                        expand(pre),
                        expand(c),
                        true,
                        strings_view(notes@),
                        aliases.view(),
                    );
                    lemma_expand_concat(pre, c);
                    assert(pre + c + list_sources(v, kp@, i + 1) =~= pre + (c + list_sources(
                        v,
                        kp@,
                        i + 1,
                    )));
                    pre = pre + c;
                }
                i = i + 1;
            }
            proof {
                assert(list_sources(v, kp@, i as int) =~= Seq::<(Seq<char>, ContextV)>::empty());
                assert(pre + Seq::<(Seq<char>, ContextV)>::empty() =~= pre);
            }
            return ;
        },
        None => {},
    }
    match mapping_variant(value) {
        Some(m) => {
            let ghost es = v->Mapping_0;
            let entries = mapping_entries_vec(m);
            let ghost mut pre: Seq<(Seq<char>, ContextV)> = Seq::empty();
            let mut j: usize = 0;
            proof {
                assert(expand(pre) =~= Seq::<(Seq<char>, LinkM, ContextV)>::empty());
                assert(pre + map_sources(v, kp@, 0) =~= map_sources(v, kp@, 0));
            }
            while j < entries.len()
                invariant
                    aliases.wf(),
                    v == yaml_tree(*value),
                    v == YamlV::Mapping(es),
                    entries@.len() == es.len(),
                    forall|k: int|
                        0 <= k < es.len() ==> yaml_tree((#[trigger] entries@[k]).0) == es[k].0
                            && yaml_tree(entries@[k].1) == es[k].1,
                    j <= entries@.len(),
                    pre + map_sources(v, kp@, j as int) == map_sources(v, kp@, 0),
                    infos_extend(out@, start, expand(pre), true, strings_view(notes@), aliases.view()),
                decreases entries@.len() - j,
            {
                let entry = &entries[j];
                let ghost mid = out@;
                let ghost c: Seq<(Seq<char>, ContextV)> = match untag(es[j as int].0) {
                    YamlV::Str(key) => fm_sources(es[j as int].1, key_path_join(kp@, key)),
                    _ => Seq::empty(),
                };
                proof {
                    assert(entries@[j as int] == *entry);
                    assert(map_sources(v, kp@, j as int) == c + map_sources(v, kp@, j + 1));
                }
                match value_as_str(&entry.0) {
                    Some(key) => {
                        let sub = if kp.as_str().unicode_len() == 0 {
                            lit(key)
                        } else {
                            let mut t = kp.clone();
                            push_char(&mut t, '.');
                            let kc = chars_of(key);
                            push_str_chars(&mut t, kc.as_slice());
                            t
                        };
                        proof {
                            reveal_strlit(".");
                                        if kp@.len() != 0 {
                                assert(sub@ =~= kp@ + "."@ + key@);
                            }
                            assert(sub@ == key_path_join(kp@, key@));
                            assert(decreases_to!(v => es));
                            assert(decreases_to!(es => es[j as int]));
                            assert(decreases_to!(es[j as int] => es[j as int].1));
                        }
                        push_frontmatter_links(&entry.1, &sub, notes, aliases, out);
                    },
                    None => {
                        proof {
                            assert(expand(c) =~= Seq::<(Seq<char>, LinkM, ContextV)>::empty());
                            assert(out@ =~= mid);
                        }
                    },
                }
                proof {
                    lemma_infos_extend_trans(
                        start,
                        mid,
                        out@,
                        expand(pre),
                        expand(c),
                        true,
                        strings_view(notes@),
                        aliases.view(),
                    );
                    lemma_expand_concat(pre, c);
                    assert(pre + c + map_sources(v, kp@, j + 1) =~= pre + (c + map_sources(
                        v,
                        kp@,
                        j + 1,
                    )));
                    pre = pre + c;
                }
                j = j + 1;
            }
            proof {
                assert(map_sources(v, kp@, j as int) =~= Seq::<(Seq<char>, ContextV)>::empty());
                assert(pre + Seq::<(Seq<char>, ContextV)>::empty() =~= pre);
            }
            return ;
        },
        None => {},
    }
    proof {
        assert(fm_sources(v, kp@) =~= Seq::<(Seq<char>, ContextV)>::empty());
        assert(expand(fm_sources(v, kp@)) =~= Seq::<(Seq<char>, LinkM, ContextV)>::empty());
    }
}

// ---------------------------------------------------------------------------
// The links of a note
// ---------------------------------------------------------------------------

/// A link record: the text it was found in, the occurrence, its line, and
/// its context.
pub type Rec = (Seq<char>, LinkM, int, ContextV);

/// The body links of a note's content with their contexts.
pub open spec fn body_items(c: Seq<char>) -> Seq<(Seq<char>, LinkM, ContextV)> {
    link_occ(c, None).map_values(
        |m: LinkM| (c, m, spec_context(c, line_of(c, m.0), m.0 - line_start(c, m.0))),
    )
}

/// The links in the strings of a note's frontmatter.
pub open spec fn fm_items(c: Seq<char>) -> Seq<(Seq<char>, LinkM, ContextV)> {
    match spec_frontmatter_value(c) {
        Ok(Some(v)) => expand(fm_sources(v, Seq::empty())),
        _ => Seq::empty(),
    }
}

/// The link records of a note: its body links on their lines, then its
/// frontmatter links on line 0.
pub open spec fn note_records(c: Seq<char>) -> Seq<Rec> {
    body_items(c).map_values(
        |t: (Seq<char>, LinkM, ContextV)| (t.0, t.1, line_of(t.0, t.1.0), t.2),
    ) + fm_items(c).map_values(|t: (Seq<char>, LinkM, ContextV)| (t.0, t.1, 0int, t.2))
}

/// `r` holds the link infos of the records `recs`, in order.
pub open spec fn infos_are(
    r: Seq<LinkInfo>,
    recs: Seq<Rec>,
    notes: Seq<Seq<char>>,
    aliases: Map<Seq<char>, String>,
) -> bool {
    &&& r.len() == recs.len()
    &&& forall|k: int|
        0 <= k < r.len() ==> info_is(
            #[trigger] r[k],
            recs[k].0,
            recs[k].1,
            recs[k].2,
            recs[k].3,
            notes,
            aliases,
        )
}

/// The link infos of a note's content: body links with their contexts,
/// then the links in frontmatter strings; each resolved among `notes` with
/// the lowercase aliases `aliases`.
pub fn extract_links_with_context(content: &str, notes: &[String], aliases: &StrMap<String>) -> (r: Vec<
    LinkInfo,
>)
    requires
        aliases.wf(),
    ensures
        infos_are(r@, note_records(content@), strings_view(notes@), aliases.view()),
{
    let s = chars_of(content);
    let ls = split_lines(&s);
    let _ = crate::text::byte_len(content);
    let (links, cols) = crate::parser::wikilink::links_and_cols(&s, None);
    let ghost items = body_items(content@);
    let mut out: Vec<LinkInfo> = Vec::new();
    let mut k: usize = 0;
    while k < links.len()
        invariant
            k <= links@.len(),
            aliases.wf(),
            s@ == content@,
            ls.deep_view() == lines(content@),
            links_of(links@, content@, None),
            cols@.len() == links@.len(),
            forall|a: int|
                0 <= a < cols@.len() ==> #[trigger] cols@[a] == link_occ(content@, None)[a].0 - line_start(
                    content@,
                    link_occ(content@, None)[a].0,
                ),
            items == body_items(content@),
            infos_extend(
                out@,
                Seq::empty(),
                items.subrange(0, k as int),
                false,
                strings_view(notes@),
                aliases.view(),
            ),
        decreases links@.len() - k,
    {
        let link = links[k].copy();
        proof {
            assert(link_describes(links@[k as int], content@, link_occ(content@, None)[k as int]));
        }
        let ctx = determine_context(&ls, link.line, cols[k]);
        let resolved = resolve_link_target(link.target.as_str(), notes, aliases);
        let ghost before = out@;
        out.push(LinkInfo { link, context: ctx, resolved_path: resolved });
        proof {
            let m = link_occ(content@, None)[k as int];
            assert(items[k as int] == (
                content@,
                m,
                spec_context(content@, line_of(content@, m.0), m.0 - line_start(content@, m.0)),
            ));
            assert forall|j: int| 0 <= j < k + 1 implies info_is(
                #[trigger] out@[0 + j],
                items.subrange(0, k + 1)[j].0,
                items.subrange(0, k + 1)[j].1,
                line_of(items.subrange(0, k + 1)[j].0, items.subrange(0, k + 1)[j].1.0),
                items.subrange(0, k + 1)[j].2,
                strings_view(notes@),
                aliases.view(),
            ) by {
                if j < k {
                    assert(out@[j] == before[0 + j]);
                    assert(items.subrange(0, k + 1)[j] == items.subrange(0, k as int)[j]);
                }
            }
        }
        k = k + 1;
    }
    proof {
        assert(items.subrange(0, k as int) =~= items);
    }
    let ghost body = out@;
    match parse_frontmatter(content) {
        Ok(Some(fm)) => {
            let kp = String::new();
            proof {
                assert(kp@ =~= Seq::<char>::empty());
            }
            push_frontmatter_links(&fm, &kp, notes, aliases, &mut out);
        },
        _ => {
            proof {
                assert(fm_items(content@) =~= Seq::<(Seq<char>, LinkM, ContextV)>::empty());
            }
        },
    }
    proof {
        let fi = fm_items(content@);
        let recs = note_records(content@);
        let nb = items.len();
        assert forall|j: int| 0 <= j < out@.len() implies info_is(
            #[trigger] out@[j],
            recs[j].0,
            recs[j].1,
            recs[j].2,
            recs[j].3,
            strings_view(notes@),
            aliases.view(),
        ) by {
            if j < nb {
                assert(out@[j] == body[j]);
                assert(body[0 + j] == body[j]);
            } else {
                assert(out@[body.len() + (j - nb)] == out@[j]);
            }
        }
    }
    out
}

// ---------------------------------------------------------------------------
// Aliases
// ---------------------------------------------------------------------------

/// The strings among YAML items, in order.
pub open spec fn str_items(items: Seq<YamlV>) -> Seq<Seq<char>>
    decreases items.len(),
{
    if items.len() == 0 {
        Seq::empty()
    } else {
        str_items(items.drop_last()) + match untag(items.last()) {
            YamlV::Str(x) => seq![x],
            _ => Seq::<Seq<char>>::empty(),
        }
    }
}

/// The value of the frontmatter key `aliases` of a note's content.
pub open spec fn aliases_value(c: Seq<char>) -> Option<YamlV> {
    match spec_frontmatter_value(c) {
        Ok(Some(fm)) => match untag(fm) {
            YamlV::Mapping(es) => crate::yaml::map_get(es, "aliases"@),
            _ => None,
        },
        _ => None,
    }
}

/// The aliases a note declares: the strings of its `aliases` list, or its
/// `aliases` string.
pub open spec fn note_aliases(c: Seq<char>) -> Seq<Seq<char>> {
    match aliases_value(c) {
        Some(a) => match untag(a) {
            YamlV::List(items) => str_items(items),
            YamlV::Str(x) => seq![x],
            _ => Seq::empty(),
        },
        None => Seq::empty(),
    }
}

/// `m` with each alias of `als`, lowercased, mapped to `path`.
pub open spec fn add_aliases(m: Map<Seq<char>, String>, als: Seq<Seq<char>>, path: String) -> Map<
    Seq<char>,
    String,
>
    decreases als.len(),
{
    if als.len() == 0 {
        m
    } else {
        add_aliases(m, als.drop_last(), path).insert(
            crate::text::str_lowercase(als.last()),
            path,
        )
    }
}

/// The vault's notes as loaded: each path with its content, or the message
/// of the error that loading it gave.
pub struct NoteSource {
    /// Path of the note, relative to the vault root.
    pub path: String,
    /// The note's content, or the error that loading it gave.
    pub loaded: Result<String, String>,
}

/// The paths of the notes, in order.
pub open spec fn source_paths(ns: Seq<NoteSource>) -> Seq<Seq<char>> {
    ns.map_values(|n: NoteSource| n.path@)
}

/// The lowercase aliases of the loaded notes, each mapped to its note; a
/// later note wins.
pub open spec fn alias_map(ns: Seq<NoteSource>) -> Map<Seq<char>, String>
    decreases ns.len(),
{
    if ns.len() == 0 {
        Map::empty()
    } else {
        let m = alias_map(ns.drop_last());
        match ns.last().loaded {
            Ok(c) => add_aliases(m, note_aliases(c@), ns.last().path),
            Err(_) => m,
        }
    }
}

/// Records the aliases of a note.
fn collect_aliases(content: &str, path: &String, map: &mut StrMap<String>)
    requires
        old(map).wf(),
    ensures
        final(map).wf(),
        final(map).view() == add_aliases(old(map).view(), note_aliases(content@), *path),
{
    let ghost m0 = map.view();
    let fm = match parse_frontmatter(content) {
        Ok(Some(fm)) => fm,
        _ => {
            assert(note_aliases(content@) =~= Seq::<Seq<char>>::empty());
            return ;
        },
    };
    let a = match crate::yaml::value_get(&fm, "aliases") {
        Some(a) => a,
        None => {
            assert(note_aliases(content@) =~= Seq::<Seq<char>>::empty());
            return ;
        },
    };
    proof {
        assert(aliases_value(content@) == Some(yaml_tree(*a)));
    }
    match crate::yaml::value_as_sequence(a) {
        Some(items) => {
            let ghost vitems = untag(yaml_tree(*a))->List_0;
            let mut i: usize = 0;
            proof {
                assert(vitems.subrange(0, 0) =~= Seq::<YamlV>::empty());
                assert(str_items(vitems.subrange(0, 0)) =~= Seq::<Seq<char>>::empty());
            }
            while i < items.len()
                invariant
                    i <= items@.len(),
                    map.wf(),
                    items@.len() == vitems.len(),
                    forall|j: int| 0 <= j < vitems.len() ==> yaml_tree(#[trigger] items@[j]) == vitems[j],
                    map.view() == add_aliases(m0, str_items(vitems.subrange(0, i as int)), *path),
                decreases items@.len() - i,
            {
                let ghost pre = vitems.subrange(0, i as int);
                proof {
                    assert(vitems.subrange(0, i + 1).drop_last() =~= pre);
                    assert(vitems.subrange(0, i + 1).last() == vitems[i as int]);
                }
                match crate::yaml::value_as_str(&items[i]) {
                    Some(x) => {
                        let lower = crate::text::to_lowercase(x);
                        map.insert(lower, path.clone());
                        proof {
                            let als = str_items(vitems.subrange(0, i + 1));
                            assert(als == str_items(pre) + seq![x@]);
                            assert(als.drop_last() =~= str_items(pre));
                        }
                    },
                    None => {
                        proof {
                            assert(str_items(vitems.subrange(0, i + 1)) =~= str_items(pre));
                        }
                    },
                }
                i = i + 1;
            }
            proof {
                assert(vitems.subrange(0, i as int) =~= vitems);
                assert(note_aliases(content@) == str_items(vitems));
            }
        },
        None => {
            match crate::yaml::value_as_str(a) {
                Some(x) => {
                    let lower = crate::text::to_lowercase(x);
                    map.insert(lower, path.clone());
                    proof {
                        let als = seq![x@];
                        assert(note_aliases(content@) == als);
                        assert(als.drop_last() =~= Seq::<Seq<char>>::empty());
                        assert(add_aliases(m0, als.drop_last(), *path) == m0);
                    }
                },
                None => {
                    assert(note_aliases(content@) =~= Seq::<Seq<char>>::empty());
                },
            }
        },
    }
}

// ---------------------------------------------------------------------------
// The graph
// ---------------------------------------------------------------------------

/// The contents of the loaded notes by path; a later note wins.
pub open spec fn loaded_content(ns: Seq<NoteSource>) -> Map<Seq<char>, Seq<char>>
    decreases ns.len(),
{
    if ns.len() == 0 {
        Map::empty()
    } else {
        let m = loaded_content(ns.drop_last());
        match ns.last().loaded {
            Ok(c) => m.insert(ns.last().path@, c@),
            Err(_) => m,
        }
    }
}

/// The target of a record, trimmed.
pub open spec fn rec_target(r: Rec) -> Seq<char> {
    trim(r.0.subrange(r.1.2.0, r.1.2.1))
}

/// The records whose normalized target (lowercase, without `.md`) is `k`.
pub open spec fn key_records(recs: Seq<Rec>, k: Seq<char>) -> Seq<Rec>
    decreases recs.len(),
{
    if recs.len() == 0 {
        Seq::empty()
    } else {
        key_records(recs.drop_last(), k) + if crate::graph::resolution::lower_stem(
            rec_target(recs.last()),
        ) == k {
            seq![recs.last()]
        } else {
            Seq::<Rec>::empty()
        }
    }
}

/// Records paired with the note they come from.
pub open spec fn from_note(recs: Seq<Rec>, from: Seq<char>) -> Seq<(Seq<char>, Rec)> {
    recs.map_values(|r: Rec| (from, r))
}

/// The links into the normalized target `k`, note by note, in order.
pub open spec fn incoming_recs(ns: Seq<NoteSource>, k: Seq<char>) -> Seq<(Seq<char>, Rec)>
    decreases ns.len(),
{
    if ns.len() == 0 {
        Seq::empty()
    } else {
        incoming_recs(ns.drop_last(), k) + match ns.last().loaded {
            Ok(c) => from_note(key_records(note_records(c@), k), ns.last().path@),
            Err(_) => Seq::empty(),
        }
    }
}

/// `il` is the incoming link of record `r` of note `from`.
pub open spec fn incoming_is(il: IncomingLink, from: Seq<char>, r: Rec) -> bool {
    &&& il.from@ == from
    &&& link_matches(il.link, r.0, r.1, r.2)
    &&& context_view(il.context) == r.3
}

/// `v` holds the incoming links of `recs`, in order.
pub open spec fn incoming_match(v: Seq<IncomingLink>, recs: Seq<(Seq<char>, Rec)>) -> bool {
    &&& v.len() == recs.len()
    &&& forall|k: int| 0 <= k < v.len() ==> incoming_is(#[trigger] v[k], recs[k].0, recs[k].1)
}

/// A graph of links between notes.
#[derive(Debug)]
pub struct LinkGraph {
    /// Outgoing links by note path.
    outgoing: StrMap<Vec<LinkInfo>>,
    /// Incoming links by normalized target (lowercase, without `.md`).
    incoming: StrMap<Vec<IncomingLink>>,
    /// Note paths by lowercase alias.
    aliases: StrMap<String>,
}

impl LinkGraph {
    pub closed spec fn outgoing_map(&self) -> Map<Seq<char>, Vec<LinkInfo>> {
        self.outgoing.view()
    }

    pub closed spec fn incoming_map(&self) -> Map<Seq<char>, Vec<IncomingLink>> {
        self.incoming.view()
    }

    pub closed spec fn alias_view(&self) -> Map<Seq<char>, String> {
        self.aliases.view()
    }

    pub closed spec fn wf(&self) -> bool {
        self.outgoing.wf() && self.incoming.wf() && self.aliases.wf()
    }

    /// The graph is the one of the notes `ns`.
    pub open spec fn built_from(&self, ns: Seq<NoteSource>) -> bool {
        &&& self.alias_view() == alias_map(ns)
        &&& forall|p: Seq<char>|
            #[trigger] self.outgoing_map().contains_key(p) <==> loaded_content(ns).contains_key(p)
        &&& forall|p: Seq<char>|
            #[trigger] self.outgoing_map().contains_key(p) ==> infos_are(
                self.outgoing_map()[p]@,
                note_records(loaded_content(ns)[p]),
                source_paths(ns),
                alias_map(ns),
            )
        &&& forall|k: Seq<char>|
            #[trigger] self.incoming_map().contains_key(k) <==> incoming_recs(ns, k).len() > 0
        &&& forall|k: Seq<char>|
            #[trigger] self.incoming_map().contains_key(k) ==> incoming_match(
                self.incoming_map()[k]@,
                incoming_recs(ns, k),
            )
    }

    /// Build the link graph of a vault's notes: first the aliases of all
    /// loaded notes, then the links of each loaded note, resolved with them.
    pub fn build(notes: &[NoteSource]) -> (g: LinkGraph)
        ensures
            g.wf(),
            g.built_from(notes@),
    {
        let mut aliases: StrMap<String> = StrMap::new();
        let mut paths: Vec<String> = Vec::new();
        let mut i: usize = 0;
        while i < notes.len()
            invariant
                i <= notes@.len(),
                aliases.wf(),
                aliases.view() == alias_map(notes@.subrange(0, i as int)),
                strings_view(paths@) == source_paths(notes@.subrange(0, i as int)),
                paths@.len() == i,
            decreases notes@.len() - i,
        {
            let n = &notes[i];
            proof {
                assert(notes@.subrange(0, i + 1).drop_last() =~= notes@.subrange(0, i as int));
                assert(notes@.subrange(0, i + 1).last() == *n);
            }
            match &n.loaded {
                Ok(c) => collect_aliases(c.as_str(), &n.path, &mut aliases),
                Err(_) => {},
            }
            let ghost p0 = paths@;
            paths.push(n.path.clone());
            proof {
                let post = notes@.subrange(0, i + 1);
                assert forall|k: int| 0 <= k < post.len() implies strings_view(paths@)[k] == source_paths(post)[k] by {
                    if k < i {
                        assert(paths@[k] == p0[k]);
                        assert(strings_view(p0)[k] == source_paths(notes@.subrange(0, i as int))[k]);
                        assert(post[k] == notes@.subrange(0, i as int)[k]);
                    }
                }
                assert(strings_view(paths@) =~= source_paths(post));
            }
            i = i + 1;
        }
        proof {
            assert(notes@.subrange(0, i as int) =~= notes@);
        }
        let mut outgoing: StrMap<Vec<LinkInfo>> = StrMap::new();
        let mut incoming: StrMap<Vec<IncomingLink>> = StrMap::new();
        let mut i: usize = 0;
        while i < notes.len()
            invariant
                i <= notes@.len(),
                aliases.wf(),
                outgoing.wf(),
                incoming.wf(),
                aliases.view() == alias_map(notes@),
                strings_view(paths@) == source_paths(notes@),
                forall|p: Seq<char>|
                    #[trigger] outgoing.view().contains_key(p) <==> loaded_content(
                        notes@.subrange(0, i as int),
                    ).contains_key(p),
                forall|p: Seq<char>|
                    #[trigger] outgoing.view().contains_key(p) ==> infos_are(
                        outgoing.view()[p]@,
                        note_records(loaded_content(notes@.subrange(0, i as int))[p]),
                        source_paths(notes@),
                        alias_map(notes@),
                    ),
                forall|k: Seq<char>|
                    #[trigger] incoming.view().contains_key(k) <==> incoming_recs(
                        notes@.subrange(0, i as int),
                        k,
                    ).len() > 0,
                forall|k: Seq<char>|
                    #[trigger] incoming.view().contains_key(k) ==> incoming_match(
                        incoming.view()[k]@,
                        incoming_recs(notes@.subrange(0, i as int), k),
                    ),
            decreases notes@.len() - i,
        {
            let n = &notes[i];
            let ghost pre = notes@.subrange(0, i as int);
            proof {
                assert(notes@.subrange(0, i + 1).drop_last() =~= pre);
                assert(notes@.subrange(0, i + 1).last() == *n);
            }
            match &n.loaded {
                Ok(c) => {
                    let infos = extract_links_with_context(c.as_str(), paths.as_slice(), &aliases);
                    let ghost recs = note_records(c@);
                    let mut j: usize = 0;
                    while j < infos.len()
                        invariant
                            j <= infos@.len(),
                            incoming.wf(),
                            infos_are(infos@, recs, source_paths(notes@), alias_map(notes@)),
                            forall|k: Seq<char>|
                                #[trigger] incoming.view().contains_key(k) <==> (incoming_recs(pre, k)
                                    + from_note(key_records(recs.subrange(0, j as int), k), n.path@)).len()
                                    > 0,
                            forall|k: Seq<char>|
                                #[trigger] incoming.view().contains_key(k) ==> incoming_match(
                                    incoming.view()[k]@,
                                    incoming_recs(pre, k) + from_note(
                                        key_records(recs.subrange(0, j as int), k),
                                        n.path@,
                                    ),
                                ),
                        decreases infos@.len() - j,
                    {
                        let info = &infos[j];
                        let key = normalize_target(info.link.target.as_str());
                        let mut group = match incoming.remove(key.as_str()) {
                            Some(g) => g,
                            None => Vec::new(),
                        };
                        let il = IncomingLink {
                            from: n.path.clone(),
                            link: info.link.copy(),
                            context: info.context.copy(),
                        };
                        let ghost g0 = group@;
                        group.push(il);
                        incoming.insert(key, group);
                        proof {
                            let r = recs[j as int];
                            assert(info_is(infos@[j as int], r.0, r.1, r.2, r.3, source_paths(notes@), alias_map(notes@)));
                            assert(rec_target(r) == info.link.target@);
                            assert(recs.subrange(0, j + 1).drop_last() =~= recs.subrange(0, j as int));
                            assert(recs.subrange(0, j + 1).last() == r);
                            assert forall|k: Seq<char>|
                                #[trigger] incoming.view().contains_key(k) <==> (incoming_recs(pre, k)
                                    + from_note(key_records(recs.subrange(0, j + 1), k), n.path@)).len()
                                    > 0 by {
                                let a = key_records(recs.subrange(0, j as int), k);
                                if k == key@ {
                                    assert(key_records(recs.subrange(0, j + 1), k) == a + seq![r]);
                                } else {
                                    assert(key_records(recs.subrange(0, j + 1), k) =~= a);
                                }
                            }
                            assert forall|k: Seq<char>|
                                #[trigger] incoming.view().contains_key(k) implies incoming_match(
                                    incoming.view()[k]@,
                                    incoming_recs(pre, k) + from_note(
                                        key_records(recs.subrange(0, j + 1), k),
                                        n.path@,
                                    ),
                                ) by {
                                let a = key_records(recs.subrange(0, j as int), k);
                                let old_all = incoming_recs(pre, k) + from_note(a, n.path@);
                                if k == key@ {
                                    assert(key_records(recs.subrange(0, j + 1), k) == a + seq![r]);
                                    let new_all = incoming_recs(pre, k) + from_note(a + seq![r], n.path@);
                                    assert(new_all =~= old_all.push((n.path@, r)));
                                    let v = incoming.view()[k]@;
                                    assert(v == g0.push(il));
                                    assert forall|q: int| 0 <= q < v.len() implies incoming_is(
                                        #[trigger] v[q],
                                        new_all[q].0,
                                        new_all[q].1,
                                    ) by {
                                        if q < g0.len() {
                                            assert(v[q] == g0[q]);
                                        }
                                    }
                                } else {
                                    assert(key_records(recs.subrange(0, j + 1), k) =~= a);
                                }
                            }
                        }
                        j = j + 1;
                    }
                    proof {
                        assert(recs.subrange(0, j as int) =~= recs);
                    }
                    outgoing.insert(n.path.clone(), infos);
                },
                Err(_) => {},
            }
            proof {
                let post = notes@.subrange(0, i + 1);
                assert(post.drop_last() =~= pre);
                assert forall|k: Seq<char>|
                    #[trigger] incoming_recs(post, k) == incoming_recs(pre, k) + match n.loaded {
                        Ok(c) => from_note(key_records(note_records(c@), k), n.path@),
                        Err(_) => Seq::empty(),
                    } by {}
                match &n.loaded {
                    Ok(_) => {},
                    Err(_) => {
                        assert forall|k: Seq<char>| #[trigger] incoming_recs(post, k) =~= incoming_recs(pre, k) by {
                            assert(incoming_recs(post, k) == incoming_recs(pre, k) + Seq::<(Seq<char>, Rec)>::empty());
                        }
                    },
                }
            }
            i = i + 1;
        }
        proof {
            assert(notes@.subrange(0, i as int) =~= notes@);
        }
        LinkGraph { outgoing, incoming, aliases }
    }

    /// Outgoing links of a note.
    pub fn get_outgoing(&self, path: &str) -> (r: Vec<&LinkInfo>)
        requires
            self.wf(),
        ensures
            self.outgoing_map().contains_key(path@) ==> info_refs(r@) == self.outgoing_map()[path@]@,
            !self.outgoing_map().contains_key(path@) ==> r@.len() == 0,
    {
        let mut r: Vec<&LinkInfo> = Vec::new();
        match self.outgoing.get(path) {
            Some(v) => {
                let mut k: usize = 0;
                while k < v.len()
                    invariant
                        k <= v@.len(),
                        info_refs(r@) == v@.subrange(0, k as int),
                    decreases v@.len() - k,
                {
                    let ghost r0 = r@;
                    r.push(&v[k]);
                    proof {
                        assert(info_refs(r@) =~= info_refs(r0).push(v@[k as int]));
                        assert(v@.subrange(0, k + 1) =~= v@.subrange(0, k as int).push(v@[k as int]));
                    }
                    k = k + 1;
                }
                proof {
                    assert(v@.subrange(0, k as int) =~= v@);
                }
            },
            None => {},
        }
        r
    }

    /// The note an alias (ignoring case) stands for.
    pub fn resolve_alias(&self, alias: &str) -> (r: Option<&String>)
        requires
            self.wf(),
        ensures
            match r {
                Some(p) => self.alias_view().contains_key(crate::text::str_lowercase(alias@)) && *p
                    == self.alias_view()[crate::text::str_lowercase(alias@)],
                None => !self.alias_view().contains_key(crate::text::str_lowercase(alias@)),
            },
    {
        let key = crate::text::to_lowercase(alias);
        self.aliases.get(key.as_str())
    }
}

pub open spec fn info_refs<'a>(v: Seq<&'a LinkInfo>) -> Seq<LinkInfo> {
    v.map_values(|x: &'a LinkInfo| *x)
}

/// A link target as a key: lowercase, without a trailing `.md`.
pub fn normalize_target(target: &str) -> (r: String)
    ensures
        r@ == crate::graph::resolution::lower_stem(target@),
{
    let lower = chars_of(crate::text::to_lowercase(target).as_str());
    let has_md = crate::text::ends_with_str(lower.as_slice(), ".md");
    proof {
        reveal_strlit(".md");
    }
    if has_md {
        string_of_range(&lower, 0, lower.len() - 3)
    } else {
        string_of(lower.as_slice())
    }
}

// ---------------------------------------------------------------------------
// Incoming links, ordered
// ---------------------------------------------------------------------------

/// Characters in path order: `/` comes before every other character, which
/// orders paths component by component.
pub open spec fn char_path_lt(a: char, b: char) -> bool {
    if a == '/' {
        b != '/'
    } else if b == '/' {
        false
    } else {
        a < b
    }
}

/// `a` comes before `b` in path order.
pub open spec fn path_lt(a: Seq<char>, b: Seq<char>) -> bool
    decreases a.len(),
{
    if a.len() == 0 {
        b.len() > 0
    } else if b.len() == 0 {
        false
    } else if a[0] != b[0] {
        char_path_lt(a[0], b[0])
    } else {
        path_lt(a.drop_first(), b.drop_first())
    }
}

pub proof fn lemma_path_lt_irrefl(a: Seq<char>)
    ensures
        !path_lt(a, a),
    decreases a.len(),
{
    if a.len() > 0 {
        lemma_path_lt_irrefl(a.drop_first());
    }
}

pub proof fn lemma_path_lt_trans(a: Seq<char>, b: Seq<char>, c: Seq<char>)
    requires
        path_lt(a, b),
        path_lt(b, c),
    ensures
        path_lt(a, c),
    decreases a.len(),
{
    if a.len() > 0 && b.len() > 0 && c.len() > 0 && a[0] == b[0] && b[0] == c[0] {
        lemma_path_lt_trans(a.drop_first(), b.drop_first(), c.drop_first());
    }
}

pub proof fn lemma_path_lt_total(a: Seq<char>, b: Seq<char>)
    requires
        a != b,
    ensures
        path_lt(a, b) || path_lt(b, a),
    decreases a.len(),
{
    if a.len() > 0 && b.len() > 0 {
        if a[0] == b[0] {
            if a.drop_first() == b.drop_first() {
                assert(a =~= seq![a[0]] + a.drop_first());
                assert(b =~= seq![b[0]] + b.drop_first());
            }
            lemma_path_lt_total(a.drop_first(), b.drop_first());
        } else {
        }
    } else if a.len() == 0 && b.len() == 0 {
        assert(a =~= b);
    }
}

/// The order key of an incoming link: source path, line, column.
pub open spec fn ilink_key(il: IncomingLink) -> (Seq<char>, int, int) {
    (il.from@, il.link.line as int, il.link.start_col as int)
}

pub open spec fn key_lt(a: (Seq<char>, int, int), b: (Seq<char>, int, int)) -> bool {
    path_lt(a.0, b.0) || (a.0 == b.0 && (a.1 < b.1 || (a.1 == b.1 && a.2 < b.2)))
}

pub proof fn lemma_key_lt_order(a: (Seq<char>, int, int), b: (Seq<char>, int, int), c: (Seq<char>, int, int))
    ensures
        !key_lt(a, a),
        key_lt(a, b) && key_lt(b, c) ==> key_lt(a, c),
        a != b ==> key_lt(a, b) || key_lt(b, a),
{
    lemma_path_lt_irrefl(a.0);
    if key_lt(a, b) && key_lt(b, c) {
        if path_lt(a.0, b.0) && path_lt(b.0, c.0) {
            lemma_path_lt_trans(a.0, b.0, c.0);
        }
    }
    if a != b && a.0 != b.0 {
        lemma_path_lt_total(a.0, b.0);
    }
}

/// The first candidate from `i` on with key `k` (`-1` when there is none).
pub open spec fn first_key_from(cs: Seq<IncomingLink>, k: (Seq<char>, int, int), i: int) -> int
    decreases cs.len() - i,
{
    if i < 0 || i >= cs.len() {
        -1
    } else if ilink_key(cs[i]) == k {
        i
    } else {
        first_key_from(cs, k, i + 1)
    }
}

/// Some link of `r` has key `k`.
pub open spec fn key_in(r: Seq<IncomingLink>, k: (Seq<char>, int, int)) -> bool {
    exists|i: int| 0 <= i < r.len() && ilink_key(#[trigger] r[i]) == k
}

/// `r` lists the first of the candidates with each key, ordered by key.
pub open spec fn sorted_firsts(r: Seq<IncomingLink>, cands: Seq<IncomingLink>) -> bool {
    &&& forall|i: int, j: int|
        0 <= i < j < r.len() ==> key_lt(ilink_key(#[trigger] r[i]), ilink_key(#[trigger] r[j]))
    &&& forall|i: int|
        0 <= i < r.len() ==> 0 <= #[trigger] first_key_from(cands, ilink_key(r[i]), 0) && cands[first_key_from(
            cands,
            ilink_key(r[i]),
            0,
        )] == r[i]
    &&& forall|c: int| 0 <= c < cands.len() ==> #[trigger] key_in(r, ilink_key(cands[c]))
}

pub proof fn lemma_first_key_found(cs: Seq<IncomingLink>, k: (Seq<char>, int, int), i: int)
    requires
        0 <= i,
    ensures
        first_key_from(cs, k, i) >= 0 ==> i <= first_key_from(cs, k, i) < cs.len() && ilink_key(
            cs[first_key_from(cs, k, i)],
        ) == k,
        first_key_from(cs, k, i) < 0 ==> forall|j: int| i <= j < cs.len() ==> ilink_key(#[trigger] cs[j]) != k,
    decreases cs.len() - i,
{
    if i < cs.len() && ilink_key(cs[i]) != k {
        lemma_first_key_found(cs, k, i + 1);
    }
}

proof fn lemma_first_key_push(cs: Seq<IncomingLink>, x: IncomingLink, k: (Seq<char>, int, int), i: int)
    requires
        0 <= i <= cs.len(),
    ensures
        first_key_from(cs.push(x), k, i) == if first_key_from(cs, k, i) >= 0 {
            first_key_from(cs, k, i)
        } else if ilink_key(x) == k {
            cs.len() as int
        } else {
            -1
        },
    decreases cs.len() - i,
{
    if i < cs.len() {
        assert(cs.push(x)[i] == cs[i]);
        if ilink_key(cs[i]) != k {
            lemma_first_key_push(cs, x, k, i + 1);
        }
    } else {
        assert(cs.push(x)[i] == x);
        assert(first_key_from(cs.push(x), k, i + 1) == -1);
        assert(first_key_from(cs, k, i) == -1);
    }
}

pub open spec fn ilink_refs<'a>(v: Seq<&'a IncomingLink>) -> Seq<IncomingLink> {
    v.map_values(|x: &'a IncomingLink| *x)
}

fn path_lt_exec(a: &Vec<char>, b: &Vec<char>) -> (r: bool)
    ensures
        r == path_lt(a@, b@),
{
    let mut i: usize = 0;
    proof {
        assert(a@.subrange(0, a@.len() as int) =~= a@);
        assert(b@.subrange(0, b@.len() as int) =~= b@);
    }
    while i < a.len() && i < b.len() && a[i] == b[i]
        invariant
            i <= a@.len(),
            i <= b@.len(),
            path_lt(a@, b@) == path_lt(
                a@.subrange(i as int, a@.len() as int),
                b@.subrange(i as int, b@.len() as int),
            ),
        decreases a@.len() - i,
    {
        proof {
            let x = a@.subrange(i as int, a@.len() as int);
            let y = b@.subrange(i as int, b@.len() as int);
            assert(x.drop_first() =~= a@.subrange(i + 1, a@.len() as int));
            assert(y.drop_first() =~= b@.subrange(i + 1, b@.len() as int));
        }
        i = i + 1;
    }
    let ghost x = a@.subrange(i as int, a@.len() as int);
    let ghost y = b@.subrange(i as int, b@.len() as int);
    if i == a.len() {
        proof {
            assert(x.len() == 0);
        }
        i < b.len()
    } else if i == b.len() {
        proof {
            assert(y.len() == 0);
        }
        false
    } else {
        proof {
            assert(x[0] == a@[i as int]);
            assert(y[0] == b@[i as int]);
        }
        if a[i] == '/' {
            true
        } else if b[i] == '/' {
            false
        } else {
            a[i] < b[i]
        }
    }
}

fn key_lt_exec(a: &IncomingLink, b: &IncomingLink) -> (r: bool)
    ensures
        r == key_lt(ilink_key(*a), ilink_key(*b)),
{
    let ac = chars_of(a.from.as_str());
    let bc = chars_of(b.from.as_str());
    if path_lt_exec(&ac, &bc) {
        return true;
    }
    let same = crate::text::same_chars(ac.as_slice(), bc.as_slice());
    same && (a.link.line < b.link.line || (a.link.line == b.link.line && a.link.start_col
        < b.link.start_col))
}

fn same_key(a: &IncomingLink, b: &IncomingLink) -> (r: bool)
    ensures
        r == (ilink_key(*a) == ilink_key(*b)),
{
    let ac = chars_of(a.from.as_str());
    let bc = chars_of(b.from.as_str());
    crate::text::same_chars(ac.as_slice(), bc.as_slice()) && a.link.line == b.link.line
        && a.link.start_col == b.link.start_col
}

proof fn lemma_sorted_insert(rv: Seq<IncomingLink>, x: IncomingLink, p: int, pre: Seq<IncomingLink>)
    requires
        sorted_firsts(rv, pre),
        0 <= p <= rv.len(),
        forall|q: int| 0 <= q < rv.len() ==> ilink_key(#[trigger] rv[q]) != ilink_key(x),
        forall|q: int| 0 <= q < p ==> !key_lt(ilink_key(x), ilink_key(#[trigger] rv[q])),
        p < rv.len() ==> key_lt(ilink_key(x), ilink_key(rv[p])),
    ensures
        sorted_firsts(rv.insert(p, x), pre.push(x)),
{
    let nv = rv.insert(p, x);
    let post = pre.push(x);
    let kx = ilink_key(x);
    assert forall|q: int| 0 <= q < p implies key_lt(ilink_key(#[trigger] rv[q]), kx) by {
        lemma_key_lt_order(ilink_key(rv[q]), kx, kx);
    }
    assert forall|q: int| p <= q < rv.len() implies key_lt(kx, ilink_key(#[trigger] rv[q])) by {
        if q > p {
            lemma_key_lt_order(kx, ilink_key(rv[p]), ilink_key(rv[q]));
        }
    }
    assert forall|i: int, j: int| 0 <= i < j < nv.len() implies key_lt(
        ilink_key(#[trigger] nv[i]),
        ilink_key(#[trigger] nv[j]),
    ) by {
        if i < p && j < p {
            assert(nv[i] == rv[i] && nv[j] == rv[j]);
        } else if i < p && j == p {
            assert(nv[i] == rv[i] && nv[j] == x);
        } else if i < p {
            assert(nv[i] == rv[i] && nv[j] == rv[j - 1]);
            lemma_key_lt_order(ilink_key(rv[i]), kx, ilink_key(rv[j - 1]));
        } else if i == p {
            assert(nv[i] == x && nv[j] == rv[j - 1]);
        } else {
            assert(nv[i] == rv[i - 1] && nv[j] == rv[j - 1]);
        }
    }
    // `x`'s key is new among the candidates
    lemma_first_key_found(pre, kx, 0);
    if first_key_from(pre, kx, 0) >= 0 {
        let f = first_key_from(pre, kx, 0);
        assert(key_in(rv, ilink_key(pre[f])));
        let q = choose|q: int| 0 <= q < rv.len() && ilink_key(#[trigger] rv[q]) == ilink_key(pre[f]);
        assert(ilink_key(rv[q]) != kx);
    }
    assert forall|i: int| 0 <= i < nv.len() implies 0 <= #[trigger] first_key_from(
        post,
        ilink_key(nv[i]),
        0,
    ) && post[first_key_from(post, ilink_key(nv[i]), 0)] == nv[i] by {
        lemma_first_key_push(pre, x, ilink_key(nv[i]), 0);
        if i == p {
            assert(nv[i] == x);
        } else {
            let i0 = if i < p {
                i
            } else {
                i - 1
            };
            assert(nv[i] == rv[i0]);
            assert(0 <= first_key_from(pre, ilink_key(rv[i0]), 0));
            lemma_first_key_found(pre, ilink_key(rv[i0]), 0);
        }
    }
    assert forall|c: int| 0 <= c < post.len() implies #[trigger] key_in(nv, ilink_key(post[c])) by {
        if c == pre.len() {
            assert(nv[p] == x);
        } else {
            assert(post[c] == pre[c]);
            assert(key_in(rv, ilink_key(pre[c])));
            let i = choose|i: int| 0 <= i < rv.len() && ilink_key(#[trigger] rv[i]) == ilink_key(pre[c]);
            if i < p {
                assert(nv[i] == rv[i]);
            } else {
                assert(nv[i + 1] == rv[i]);
            }
        }
    }
}

proof fn lemma_sorted_skip(rv: Seq<IncomingLink>, x: IncomingLink, q: int, pre: Seq<IncomingLink>)
    requires
        sorted_firsts(rv, pre),
        0 <= q < rv.len(),
        ilink_key(rv[q]) == ilink_key(x),
    ensures
        sorted_firsts(rv, pre.push(x)),
{
    let post = pre.push(x);
    assert forall|i: int| 0 <= i < rv.len() implies 0 <= #[trigger] first_key_from(
        post,
        ilink_key(rv[i]),
        0,
    ) && post[first_key_from(post, ilink_key(rv[i]), 0)] == rv[i] by {
        lemma_first_key_push(pre, x, ilink_key(rv[i]), 0);
        lemma_first_key_found(pre, ilink_key(rv[i]), 0);
    }
    assert forall|c: int| 0 <= c < post.len() implies #[trigger] key_in(rv, ilink_key(post[c])) by {
        if c == pre.len() {
            assert(ilink_key(rv[q]) == ilink_key(post[c]));
        } else {
            assert(post[c] == pre[c]);
        }
    }
}

/// Insert each candidate whose key is new at its place in key order.
fn sort_dedup<'a>(cands: &Vec<&'a IncomingLink>) -> (r: Vec<&'a IncomingLink>)
    ensures
        sorted_firsts(ilink_refs(r@), ilink_refs(cands@)),
{
    let ghost cs = ilink_refs(cands@);
    let mut r: Vec<&'a IncomingLink> = Vec::new();
    let mut c: usize = 0;
    while c < cands.len()
        invariant
            c <= cands@.len(),
            cs == ilink_refs(cands@),
            sorted_firsts(ilink_refs(r@), cs.subrange(0, c as int)),
        decreases cands@.len() - c,
    {
        let x = cands[c];
        let ghost rv = ilink_refs(r@);
        let ghost pre = cs.subrange(0, c as int);
        proof {
            assert(cs[c as int] == *x);
            assert(cs.subrange(0, c + 1) =~= pre.push(*x));
        }
        let mut found = false;
        let mut k: usize = 0;
        while k < r.len()
            invariant
                k <= r@.len(),
                rv == ilink_refs(r@),
                found <==> exists|q: int| 0 <= q < k && ilink_key(#[trigger] rv[q]) == ilink_key(*x),
            decreases r@.len() - k,
        {
            if same_key(r[k], x) {
                found = true;
            }
            proof {
                assert(rv[k as int] == *r@[k as int]);
            }
            k = k + 1;
        }
        if !found {
            let mut p: usize = 0;
            while p < r.len() && !key_lt_exec(x, r[p])
                invariant
                    p <= r@.len(),
                    rv == ilink_refs(r@),
                    forall|q: int| 0 <= q < p ==> !key_lt(ilink_key(*x), ilink_key(#[trigger] rv[q])),
                decreases r@.len() - p,
            {
                proof {
                    assert(rv[p as int] == *r@[p as int]);
                }
                p = p + 1;
            }
            proof {
                if p < r@.len() {
                    assert(rv[p as int] == *r@[p as int]);
                }
                lemma_sorted_insert(rv, *x, p as int, pre);
            }
            r.insert(p, x);
            proof {
                assert(ilink_refs(r@) =~= rv.insert(p as int, *x));
            }
        } else {
            proof {
                let q = choose|q: int| 0 <= q < k && ilink_key(#[trigger] rv[q]) == ilink_key(*x);
                lemma_sorted_skip(rv, *x, q, pre);
            }
        }
        c = c + 1;
    }
    proof {
        assert(cs.subrange(0, c as int) =~= cs);
    }
    r
}

impl LinkGraph {
    /// The incoming links stored under a key, in order.
    pub open spec fn group(&self, k: Seq<char>) -> Seq<IncomingLink> {
        if self.incoming_map().contains_key(k) {
            self.incoming_map()[k]@
        } else {
            Seq::empty()
        }
    }

    /// Incoming links of a note: those stored under its normalized path and
    /// under its lowercase file stem, ordered by source path, line and
    /// column, one per position.
    pub fn get_incoming(&self, path: &str) -> (r: Vec<&IncomingLink>)
        requires
            self.wf(),
        ensures
            sorted_firsts(
                ilink_refs(r@),
                self.group(crate::graph::resolution::lower_stem(path@)) + self.group(
                    match crate::text::path_file_stem(path@) {
                        Some(st) => crate::text::str_lowercase(st),
                        None => Seq::empty(),
                    },
                ),
            ),
    {
        let k1 = normalize_target(path);
        let k2 = match crate::text::file_stem_of(path) {
            Some(st) => crate::text::to_lowercase(st.as_str()),
            None => String::new(),
        };
        let mut cands: Vec<&IncomingLink> = Vec::new();
        let ghost g1 = self.group(k1@);
        let ghost g2 = self.group(k2@);
        match self.incoming.get(k1.as_str()) {
            Some(v) => {
                let mut q: usize = 0;
                while q < v.len()
                    invariant
                        q <= v@.len(),
                        ilink_refs(cands@) == v@.subrange(0, q as int),
                    decreases v@.len() - q,
                {
                    let ghost c0 = ilink_refs(cands@);
                    cands.push(&v[q]);
                    proof {
                        assert(ilink_refs(cands@) =~= c0.push(v@[q as int]));
                        assert(v@.subrange(0, q + 1) =~= v@.subrange(0, q as int).push(v@[q as int]));
                    }
                    q = q + 1;
                }
                proof {
                    assert(v@.subrange(0, q as int) =~= v@);
                }
            },
            None => {
                assert(ilink_refs(cands@) =~= g1);
            },
        }
        let ghost c1 = ilink_refs(cands@);
        match self.incoming.get(k2.as_str()) {
            Some(v) => {
                let mut q: usize = 0;
                while q < v.len()
                    invariant
                        q <= v@.len(),
                        ilink_refs(cands@) == c1 + v@.subrange(0, q as int),
                    decreases v@.len() - q,
                {
                    let ghost c0 = ilink_refs(cands@);
                    cands.push(&v[q]);
                    proof {
                        assert(ilink_refs(cands@) =~= c0.push(v@[q as int]));
                        assert(c1 + v@.subrange(0, q + 1) =~= (c1 + v@.subrange(0, q as int)).push(v@[q as int]));
                    }
                    q = q + 1;
                }
                proof {
                    assert(v@.subrange(0, q as int) =~= v@);
                }
            },
            None => {
                assert(ilink_refs(cands@) =~= c1 + g2);
            },
        }
        sort_dedup(&cands)
    }
}

} // verus!
