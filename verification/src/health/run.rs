//! Running the health checks over a vault's notes.

use vstd::prelude::*;
use crate::graph::link_graph::{
    aliases_value, ilink_refs, sorted_firsts, str_items, LinkGraph, LinkInfo, NoteSource,
};
use crate::health::{Issue, IssueType};
use crate::parser::block_id::{parse_block_ids, spec_block_ids};
use crate::parser::frontmatter::{remove_all_frontmatter, spec_body, spec_frontmatter_value};
use crate::parser::heading::{parse_headings, spec_headings};
use crate::str_map::StrMap;
use crate::text::{
    ascii_lower_seq, chars_of, concat, contains_seq, decimal, decimal_string, find_seq_from, lit,
    same_chars, str_lowercase, to_ascii_lower, to_lowercase, trim, trim_vec,
};
use crate::types::BlockType;
use crate::yaml::{untag, YamlV};

verus! {

/// An issue as plain values: `(type, file, line, message, target, fixable)`.
pub type IssueV = (IssueType, Seq<char>, Option<int>, Seq<char>, Option<Seq<char>>, bool);

pub open spec fn issue_view(i: Issue) -> IssueV {
    (
        i.issue_type,
        i.file@,
        match i.line {
            Some(l) => Some(l as int),
            None => None,
        },
        i.message@,
        match i.target {
            Some(t) => Some(t@),
            None => None,
        },
        i.fixable,
    )
}

pub open spec fn issues_view(v: Seq<Issue>) -> Seq<IssueV> {
    v.map_values(|i: Issue| issue_view(i))
}

/// An error message that speaks of frontmatter or YAML.
pub open spec fn mentions_frontmatter(e: Seq<char>) -> bool {
    contains_seq(e, "frontmatter"@) || contains_seq(e, "YAML"@)
}

/// Two texts are equal ignoring ASCII case.
pub open spec fn eq_ascii_ci(a: Seq<char>, b: Seq<char>) -> bool {
    ascii_lower_seq(a) == ascii_lower_seq(b)
}

/// The content of the first note with path `p`, when it loaded.
pub open spec fn lookup(ns: Seq<NoteSource>, p: Seq<char>) -> Option<Seq<char>>
    decreases ns.len(),
{
    if ns.len() == 0 {
        None
    } else if ns[0].path@ == p {
        match ns[0].loaded {
            Ok(c) => Some(c@),
            Err(_) => None,
        }
    } else {
        lookup(ns.drop_first(), p)
    }
}

/// The first block (from `i` on) with ID `id` (`-1` when there is none).
pub open spec fn first_id(bs: Seq<(Seq<char>, int, BlockType)>, id: Seq<char>, i: int) -> int
    decreases bs.len() - i,
{
    if i < 0 || i >= bs.len() {
        -1
    } else if bs[i].0 == id {
        i
    } else {
        first_id(bs, id, i + 1)
    }
}

/// The issues of blocks whose ID an earlier block of the note already uses.
pub open spec fn dup_block_issues(p: Seq<char>, bs: Seq<(Seq<char>, int, BlockType)>) -> Seq<IssueV>
    decreases bs.len(),
{
    if bs.len() == 0 {
        Seq::empty()
    } else {
        let b = bs.last();
        let f = first_id(bs.drop_last(), b.0, 0);
        dup_block_issues(p, bs.drop_last()) + if f >= 0 {
            seq![
                (
                    IssueType::DuplicateBlockIds,
                    p,
                    Some(b.1),
                    "Block ID '^"@ + b.0 + "' already used on line "@ + decimal(
                        bs[f].1 as nat,
                    ),
                    Some(b.0),
                    true,
                ),
            ]
        } else {
            Seq::<IssueV>::empty()
        }
    }
}

/// The checker checks issues of type `t`.
pub open spec fn on(hc: crate::health::HealthChecker, t: IssueType) -> bool {
    crate::health::checks(hc.include_view(), hc.exclude_types@, t)
}

/// The heading has `h` as text or slug, ignoring ASCII case.
pub open spec fn heading_hit(x: (Seq<char>, int, int, Seq<char>), h: Seq<char>) -> bool {
    eq_ascii_ci(x.0, h) || eq_ascii_ci(x.3, h)
}

/// Some heading of the target has `h` as text or slug, ignoring ASCII case.
pub open spec fn heading_found(hs: Seq<(Seq<char>, int, int, Seq<char>)>, h: Seq<char>) -> bool {
    exists|i: int| 0 <= i < hs.len() && heading_hit(#[trigger] hs[i], h)
}

/// Some block of the target has ID `id`.
pub open spec fn block_found(bs: Seq<(Seq<char>, int, BlockType)>, id: Seq<char>) -> bool {
    exists|i: int| 0 <= i < bs.len() && (#[trigger] bs[i]).0 == id
}

/// The issue of a link to a heading that the target lacks.
pub open spec fn heading_part(
    hc: crate::health::HealthChecker,
    p: Seq<char>,
    l: crate::types::Link,
    res: Seq<char>,
    all: Seq<NoteSource>,
) -> Seq<IssueV> {
    match l.heading {
        Some(h) => if on(hc, IssueType::BrokenHeadingLinks) {
            match lookup(all, res) {
                Some(tc) => if !heading_found(spec_headings(tc), h@) {
                    seq![
                        (
                            IssueType::BrokenHeadingLinks,
                            p,
                            Some(l.line as int),
                            "Heading '"@ + h@ + "' not found in [["@ + l.target@ + "]]"@,
                            Some(l.target@ + "#"@ + h@),
                            false,
                        ),
                    ]
                } else {
                    Seq::empty()
                },
                None => Seq::empty(),
            }
        } else {
            Seq::empty()
        },
        None => Seq::empty(),
    }
}

/// The issue of a link to a block that the target lacks.
pub open spec fn block_part(
    hc: crate::health::HealthChecker,
    p: Seq<char>,
    l: crate::types::Link,
    res: Seq<char>,
    all: Seq<NoteSource>,
) -> Seq<IssueV> {
    match l.block_id {
        Some(b) => if on(hc, IssueType::BrokenBlockRefs) {
            match lookup(all, res) {
                Some(tc) => if !block_found(spec_block_ids(tc), b@) {
                    seq![
                        (
                            IssueType::BrokenBlockRefs,
                            p,
                            Some(l.line as int),
                            "Block ID '^"@ + b@ + "' not found in [["@ + l.target@ + "]]"@,
                            Some(l.target@ + "#^"@ + b@),
                            false,
                        ),
                    ]
                } else {
                    Seq::empty()
                },
                None => Seq::empty(),
            }
        } else {
            Seq::empty()
        },
        None => Seq::empty(),
    }
}

/// The issues of one outgoing link of the note `p`: a broken link or
/// embed, or a heading or block that its target lacks.
pub open spec fn link_issues(
    hc: crate::health::HealthChecker,
    p: Seq<char>,
    li: LinkInfo,
    all: Seq<NoteSource>,
) -> Seq<IssueV> {
    let l = li.link;
    match li.resolved_path {
        None => {
            let t = if l.embed {
                IssueType::BrokenEmbeds
            } else {
                IssueType::BrokenLinks
            };
            if on(hc, t) {
                seq![
                    (
                        t,
                        p,
                        Some(l.line as int),
                        "Broken "@ + (if l.embed {
                            "embed"@
                        } else {
                            "link"@
                        }) + ": [["@ + l.target@ + "]] does not exist"@,
                        Some(l.target@),
                        false,
                    ),
                ]
            } else {
                Seq::empty()
            }
        },
        Some(res) => heading_part(hc, p, l, res@, all) + block_part(hc, p, l, res@, all),
    }
}

/// The issues of a note's outgoing links, in order.
pub open spec fn links_issues(
    hc: crate::health::HealthChecker,
    p: Seq<char>,
    infos: Seq<LinkInfo>,
    all: Seq<NoteSource>,
) -> Seq<IssueV>
    decreases infos.len(),
{
    if infos.len() == 0 {
        Seq::empty()
    } else {
        links_issues(hc, p, infos.drop_last(), all) + link_issues(hc, p, infos.last(), all)
    }
}

/// The outgoing links of a note in a graph.
pub open spec fn outgoing_of(g: LinkGraph, p: Seq<char>) -> Seq<LinkInfo> {
    if g.outgoing_map().contains_key(p) {
        g.outgoing_map()[p]@
    } else {
        Seq::empty()
    }
}

/// The issues of one checked note, other than orphans and duplicate aliases.
pub open spec fn note_issues(
    hc: crate::health::HealthChecker,
    n: NoteSource,
    all: Seq<NoteSource>,
    g: LinkGraph,
) -> Seq<IssueV> {
    let p = n.path@;
    match n.loaded {
        Err(e) => if on(hc, IssueType::InvalidFrontmatter) && mentions_frontmatter(e@) {
            seq![
                (
                    IssueType::InvalidFrontmatter,
                    p,
                    None,
                    "Invalid frontmatter: "@ + e@,
                    None,
                    false,
                ),
            ]
        } else {
            Seq::empty()
        },
        Ok(c) => {
            let c = c@;
            (if on(hc, IssueType::MissingFrontmatter) && !(spec_frontmatter_value(c) matches Ok(
                Some(_),
            )) {
                seq![
                    (
                        IssueType::MissingFrontmatter,
                        p,
                        None,
                        "Note has no frontmatter"@,
                        None,
                        true,
                    ),
                ]
            } else {
                Seq::empty()
            }) + (if on(hc, IssueType::EmptyNotes) && trim(spec_body(c)).len() == 0 {
                seq![(IssueType::EmptyNotes, p, None, "Note has no content"@, None, false)]
            } else {
                Seq::empty()
            }) + (if on(hc, IssueType::DuplicateBlockIds) {
                dup_block_issues(p, spec_block_ids(c))
            } else {
                Seq::empty()
            }) + links_issues(hc, p, outgoing_of(g, p), all)
        },
    }
}

/// The per-note issues of the checked notes, in order.
pub open spec fn notes_issues(
    hc: crate::health::HealthChecker,
    checked: Seq<NoteSource>,
    all: Seq<NoteSource>,
    g: LinkGraph,
) -> Seq<IssueV>
    decreases checked.len(),
{
    if checked.len() == 0 {
        Seq::empty()
    } else {
        notes_issues(hc, checked.drop_last(), all, g) + note_issues(hc, checked.last(), all, g)
    }
}

/// The candidates for the incoming links of a note.
pub open spec fn incoming_candidates(g: LinkGraph, p: Seq<char>) -> Seq<crate::graph::link_graph::IncomingLink> {
    g.group(crate::graph::resolution::lower_stem(p)) + g.group(
        match crate::text::path_file_stem(p) {
            Some(st) => str_lowercase(st),
            None => Seq::empty(),
        },
    )
}

/// Orphan issues: the checked notes that no link points to.
pub open spec fn orphan_issues(checked: Seq<NoteSource>, g: LinkGraph) -> Seq<IssueV>
    decreases checked.len(),
{
    if checked.len() == 0 {
        Seq::empty()
    } else {
        orphan_issues(checked.drop_last(), g) + if incoming_candidates(g, checked.last().path@).len()
            == 0 {
            seq![
                (
                    IssueType::Orphans,
                    checked.last().path@,
                    None,
                    "Note has no incoming links"@,
                    None,
                    false,
                ),
            ]
        } else {
            Seq::<IssueV>::empty()
        }
    }
}

/// The aliases a note lists under `aliases` (strings of a list only).
pub open spec fn listed_aliases(c: Seq<char>) -> Seq<Seq<char>> {
    match aliases_value(c) {
        Some(a) => match untag(a) {
            YamlV::List(items) => str_items(items),
            _ => Seq::empty(),
        },
        None => Seq::empty(),
    }
}

/// Alias groups: each lowercase alias with the notes that list it, in the
/// order the aliases first appear.
pub type Groups = Seq<(Seq<char>, Seq<Seq<char>>)>;

pub open spec fn group_find(gs: Groups, k: Seq<char>, i: int) -> int
    decreases gs.len() - i,
{
    if i < 0 || i >= gs.len() {
        -1
    } else if gs[i].0 == k {
        i
    } else {
        group_find(gs, k, i + 1)
    }
}

pub open spec fn group_add(gs: Groups, k: Seq<char>, v: Seq<char>) -> Groups {
    let i = group_find(gs, k, 0);
    if i >= 0 {
        gs.update(i, (k, gs[i].1.push(v)))
    } else {
        gs.push((k, seq![v]))
    }
}

pub open spec fn group_add_all(gs: Groups, als: Seq<Seq<char>>, p: Seq<char>) -> Groups
    decreases als.len(),
{
    if als.len() == 0 {
        gs
    } else {
        group_add(group_add_all(gs, als.drop_last(), p), str_lowercase(als.last()), p)
    }
}

pub open spec fn alias_groups(checked: Seq<NoteSource>) -> Groups
    decreases checked.len(),
{
    if checked.len() == 0 {
        Seq::empty()
    } else {
        let gs = alias_groups(checked.drop_last());
        match checked.last().loaded {
            Ok(c) => group_add_all(gs, listed_aliases(c@), checked.last().path@),
            Err(_) => gs,
        }
    }
}

/// The paths of `ps` other than `p`.
pub open spec fn others(ps: Seq<Seq<char>>, p: Seq<char>) -> Seq<Seq<char>>
    decreases ps.len(),
{
    if ps.len() == 0 {
        Seq::empty()
    } else {
        others(ps.drop_last(), p) + if ps.last() == p {
            Seq::<Seq<char>>::empty()
        } else {
            seq![ps.last()]
        }
    }
}

/// Texts joined with `, `.
pub open spec fn join_comma(ps: Seq<Seq<char>>) -> Seq<char>
    decreases ps.len(),
{
    if ps.len() == 0 {
        Seq::empty()
    } else if ps.len() == 1 {
        ps[0]
    } else {
        join_comma(ps.drop_last()) + ", "@ + ps.last()
    }
}

/// The issues of one alias group, one per listed path, when more than one
/// note lists the alias.
pub open spec fn group_issues(a: Seq<char>, ps: Seq<Seq<char>>, upto: int) -> Seq<IssueV>
    decreases upto,
{
    if upto <= 0 || upto > ps.len() {
        Seq::empty()
    } else {
        let p = ps[upto - 1];
        group_issues(a, ps, upto - 1) + seq![
            (
                IssueType::DuplicateAliases,
                p,
                None,
                "Alias '"@ + a + "' also defined in: "@ + join_comma(others(ps, p)),
                Some(a),
                false,
            ),
        ]
    }
}

pub open spec fn alias_issues(gs: Groups) -> Seq<IssueV>
    decreases gs.len(),
{
    if gs.len() == 0 {
        Seq::empty()
    } else {
        let g = gs.last();
        alias_issues(gs.drop_last()) + if g.1.len() > 1 {
            group_issues(g.0, g.1, g.1.len() as int)
        } else {
            Seq::<IssueV>::empty()
        }
    }
}

/// All issues of a health run.
pub open spec fn run_issues(
    hc: crate::health::HealthChecker,
    all: Seq<NoteSource>,
    checked: Seq<NoteSource>,
    g: LinkGraph,
) -> Seq<IssueV> {
    notes_issues(hc, checked, all, g) + (if on(hc, IssueType::Orphans) {
        orphan_issues(checked, g)
    } else {
        Seq::empty()
    }) + (if on(hc, IssueType::DuplicateAliases) {
        alias_issues(alias_groups(checked))
    } else {
        Seq::empty()
    })
}

// ---------------------------------------------------------------------------
// Lemmas
// ---------------------------------------------------------------------------

proof fn lemma_first_id_found(bs: Seq<(Seq<char>, int, BlockType)>, id: Seq<char>, i: int)
    requires
        0 <= i,
    ensures
        first_id(bs, id, i) >= 0 ==> i <= first_id(bs, id, i) < bs.len() && bs[first_id(bs, id, i)].0
            == id,
    decreases bs.len() - i,
{
    if i < bs.len() && bs[i].0 != id {
        lemma_first_id_found(bs, id, i + 1);
    }
}

proof fn lemma_first_id_push(
    bs: Seq<(Seq<char>, int, BlockType)>,
    x: (Seq<char>, int, BlockType),
    id: Seq<char>,
    i: int,
)
    requires
        0 <= i <= bs.len(),
    ensures
        first_id(bs.push(x), id, i) == if first_id(bs, id, i) >= 0 {
            first_id(bs, id, i)
        } else if x.0 == id {
            bs.len() as int
        } else {
            -1
        },
    decreases bs.len() - i,
{
    if i < bs.len() {
        assert(bs.push(x)[i] == bs[i]);
        if bs[i].0 != id {
            lemma_first_id_push(bs, x, id, i + 1);
        }
    } else {
        assert(bs.push(x)[i] == x);
        assert(first_id(bs.push(x), id, i + 1) == -1);
        assert(first_id(bs, id, i) == -1);
    }
}

proof fn lemma_group_find(gs: Groups, k: Seq<char>, i: int)
    requires
        0 <= i,
    ensures
        group_find(gs, k, i) >= 0 ==> i <= group_find(gs, k, i) < gs.len() && gs[group_find(gs, k, i)].0
            == k,
        group_find(gs, k, i) < 0 ==> forall|j: int| i <= j < gs.len() ==> (#[trigger] gs[j]).0 != k,
    decreases gs.len() - i,
{
    if i < gs.len() && gs[i].0 != k {
        lemma_group_find(gs, k, i + 1);
    }
}

// ---------------------------------------------------------------------------
// Executable checks
// ---------------------------------------------------------------------------

fn text_contains(s: &str, p: &str) -> (r: bool)
    ensures
        r == contains_seq(s@, p@),
{
    let sc = chars_of(s);
    let pc = chars_of(p);
    find_seq_from(sc.as_slice(), pc.as_slice(), 0).is_some()
}

/// Equality of two texts ignoring ASCII case (`str::eq_ignore_ascii_case`).
pub fn eq_ignore_ascii_case(a: &str, b: &str) -> (r: bool)
    ensures
        r == eq_ascii_ci(a@, b@),
{
    let ac = chars_of(a);
    let bc = chars_of(b);
    if ac.len() != bc.len() {
        proof {
            assert(ascii_lower_seq(a@).len() != ascii_lower_seq(b@).len());
        }
        return false;
    }
    let mut i: usize = 0;
    while i < ac.len()
        invariant
            i <= ac@.len(),
            ac@ == a@,
            bc@ == b@,
            ac@.len() == bc@.len(),
            forall|j: int| 0 <= j < i ==> ascii_lower_seq(a@)[j] == ascii_lower_seq(b@)[j],
        decreases ac@.len() - i,
    {
        if to_ascii_lower(ac[i]) != to_ascii_lower(bc[i]) {
            proof {
                assert(ascii_lower_seq(a@)[i as int] != ascii_lower_seq(b@)[i as int]);
            }
            return false;
        }
        i = i + 1;
    }
    proof {
        assert(ascii_lower_seq(a@) =~= ascii_lower_seq(b@));
    }
    true
}

fn lookup_exec<'a>(all: &'a [NoteSource], p: &str) -> (r: Option<&'a String>)
    ensures
        match lookup(all@, p@) {
            Some(c) => r matches Some(x) && x@ == c,
            None => r is None,
        },
{
    let pc = chars_of(p);
    let mut k: usize = 0;
    proof {
        assert(all@.subrange(0, all@.len() as int) =~= all@);
    }
    while k < all.len()
        invariant
            k <= all@.len(),
            pc@ == p@,
            lookup(all@, p@) == lookup(all@.subrange(k as int, all@.len() as int), p@),
        decreases all@.len() - k,
    {
        let ghost rest = all@.subrange(k as int, all@.len() as int);
        proof {
            assert(rest[0] == all@[k as int]);
            assert(rest.drop_first() =~= all@.subrange(k + 1, all@.len() as int));
        }
        if same_chars(chars_of(all[k].path.as_str()).as_slice(), pc.as_slice()) {
            return match &all[k].loaded {
                Ok(c) => Some(c),
                Err(_) => None,
            };
        }
        k = k + 1;
    }
    None
}

fn push_issue(out: &mut Vec<Issue>, i: Issue)
    ensures
        issues_view(final(out)@) == issues_view(old(out)@) + seq![issue_view(i)],
{
    let ghost before = issues_view(out@);
    out.push(i);
    proof {
        assert(issues_view(out@) =~= before + seq![issue_view(i)]);
    }
}

fn dup_blocks_exec(p: &String, content: &str, out: &mut Vec<Issue>)
    ensures
        issues_view(final(out)@) == issues_view(old(out)@) + dup_block_issues(
            p@,
            spec_block_ids(content@),
        ),
{
    let blocks = parse_block_ids(content);
    let ghost bs = spec_block_ids(content@);
    let ghost start = issues_view(out@);
    let mut seen: StrMap<usize> = StrMap::new();
    let mut k: usize = 0;
    while k < blocks.len()
        invariant
            k <= blocks@.len(),
            seen.wf(),
            crate::parser::block_id::blocks_view(blocks@) == bs,
            forall|id: Seq<char>|
                #[trigger] seen.view().contains_key(id) <==> first_id(bs.subrange(0, k as int), id, 0)
                    >= 0,
            forall|id: Seq<char>|
                #[trigger] seen.view().contains_key(id) ==> seen.view()[id] as int == bs[first_id(
                    bs.subrange(0, k as int),
                    id,
                    0,
                )].1,
            issues_view(out@) == start + dup_block_issues(p@, bs.subrange(0, k as int)),
        decreases blocks@.len() - k,
    {
        let b = &blocks[k];
        let ghost pre = bs.subrange(0, k as int);
        let ghost x = bs[k as int];
        proof {
            assert(x == (b.id@, b.line as int, b.block_type));
            assert(bs.subrange(0, k + 1) =~= pre.push(x));
            assert(pre.push(x).drop_last() =~= pre);
            lemma_first_id_found(pre, b.id@, 0);
        }
        match seen.get(b.id.as_str()) {
            Some(first) => {
                let msg = concat(lit("Block ID '^"), b.id.as_str());
                let msg = concat(msg, "' already used on line ");
                let msg = concat(msg, decimal_string(*first).as_str());
                proof {
                    let f = first_id(pre, b.id@, 0);
                    assert(bs[f] == pre[f]);
                }
                push_issue(
                    out,
                    Issue {
                        issue_type: IssueType::DuplicateBlockIds,
                        file: p.clone(),
                        line: Some(b.line),
                        message: msg,
                        target: Some(b.id.clone()),
                        fixable: true,
                    },
                );
            },
            None => {
                seen.insert(b.id.clone(), b.line);
            },
        }
        proof {
            assert forall|id: Seq<char>| #[trigger] seen.view().contains_key(id) <==> first_id(
                bs.subrange(0, k + 1),
                id,
                0,
            ) >= 0 by {
                lemma_first_id_push(pre, x, id, 0);
            }
            assert forall|id: Seq<char>| #[trigger] seen.view().contains_key(id) implies seen.view()[id] as int
                == bs[first_id(bs.subrange(0, k + 1), id, 0)].1 by {
                lemma_first_id_push(pre, x, id, 0);
                lemma_first_id_found(pre, id, 0);
                if first_id(pre, id, 0) >= 0 {
                    assert(bs[first_id(pre, id, 0)] == pre[first_id(pre, id, 0)]);
                }
            }
        }
        k = k + 1;
    }
    proof {
        assert(bs.subrange(0, k as int) =~= bs);
    }
}

fn heading_found_exec(content: &str, h: &str) -> (r: bool)
    ensures
        r == heading_found(spec_headings(content@), h@),
{
    let hs = parse_headings(content);
    let ghost hv = spec_headings(content@);
    let mut k: usize = 0;
    while k < hs.len()
        invariant
            k <= hs@.len(),
            crate::parser::heading::headings_view(hs@) == hv,
            hv == spec_headings(content@),
            forall|j: int| 0 <= j < k ==> !heading_hit(#[trigger] hv[j], h@),
        decreases hs@.len() - k,
    {
        let a = eq_ignore_ascii_case(hs[k].text.as_str(), h);
        let b = eq_ignore_ascii_case(hs[k].slug.as_str(), h);
        proof {
            assert(hv[k as int] == crate::parser::heading::heading_view(hs@[k as int]));
            assert(hv[k as int].0 == hs@[k as int].text@);
            assert(hv[k as int].3 == hs@[k as int].slug@);
        }
        if a || b {
            return true;
        }
        assert(!heading_hit(hv[k as int], h@));
        k = k + 1;
    }
    false
}

fn block_found_exec(content: &str, id: &str) -> (r: bool)
    ensures
        r == block_found(spec_block_ids(content@), id@),
{
    let bs = parse_block_ids(content);
    let ghost bv = spec_block_ids(content@);
    let ic = chars_of(id);
    let mut k: usize = 0;
    while k < bs.len()
        invariant
            k <= bs@.len(),
            ic@ == id@,
            crate::parser::block_id::blocks_view(bs@) == bv,
            bv == spec_block_ids(content@),
            forall|j: int| 0 <= j < k ==> (#[trigger] bv[j]).0 != id@,
        decreases bs@.len() - k,
    {
        proof {
            assert(bv[k as int] == crate::parser::block_id::block_view(bs@[k as int]));
        }
        if same_chars(chars_of(bs[k].id.as_str()).as_slice(), ic.as_slice()) {
            proof {
                assert(bv[k as int].0 == id@);
            }
            return true;
        }
        k = k + 1;
    }
    false
}

impl crate::health::HealthChecker {
    fn link_issues_exec(&self, p: &String, li: &LinkInfo, all: &[NoteSource], out: &mut Vec<Issue>)
        ensures
            issues_view(final(out)@) == issues_view(old(out)@) + link_issues(*self, p@, *li, all@),
    {
        let l = &li.link;
        match &li.resolved_path {
            None => {
                let t = if l.embed {
                    IssueType::BrokenEmbeds
                } else {
                    IssueType::BrokenLinks
                };
                if self.should_check(t) {
                    let kind = if l.embed {
                        "embed"
                    } else {
                        "link"
                    };
                    let msg = concat(lit("Broken "), kind);
                    let msg = concat(msg, ": [[");
                    let msg = concat(msg, l.target.as_str());
                    let msg = concat(msg, "]] does not exist");
                    push_issue(
                        out,
                        Issue {
                            issue_type: t,
                            file: p.clone(),
                            line: Some(l.line),
                            message: msg,
                            target: Some(l.target.clone()),
                            fixable: false,
                        },
                    );
                } else {
                    assert(issues_view(out@) =~= issues_view(out@) + Seq::<IssueV>::empty());
                }
            },
            Some(res) => {
                let ghost start = issues_view(out@);
                let ghost hpart = heading_part(*self, p@, *l, res@, all@);
                match &l.heading {
                    Some(h) => {
                        if self.should_check(IssueType::BrokenHeadingLinks) {
                            match lookup_exec(all, res.as_str()) {
                                Some(tc) => {
                                    if !heading_found_exec(tc.as_str(), h.as_str()) {
                                        let msg = concat(lit("Heading '"), h.as_str());
                                        let msg = concat(msg, "' not found in [[");
                                        let msg = concat(msg, l.target.as_str());
                                        let msg = concat(msg, "]]");
                                        let tg = concat(l.target.clone(), "#");
                                        let tg = concat(tg, h.as_str());
                                        push_issue(
                                            out,
                                            Issue {
                                                issue_type: IssueType::BrokenHeadingLinks,
                                                file: p.clone(),
                                                line: Some(l.line),
                                                message: msg,
                                                target: Some(tg),
                                                fixable: false,
                                            },
                                        );
                                    }
                                },
                                None => {},
                            }
                        }
                    },
                    None => {},
                }
                proof {
                    assert(issues_view(out@) =~= start + hpart);
                }
                let ghost mid = issues_view(out@);
                match &l.block_id {
                    Some(b) => {
                        if self.should_check(IssueType::BrokenBlockRefs) {
                            match lookup_exec(all, res.as_str()) {
                                Some(tc) => {
                                    if !block_found_exec(tc.as_str(), b.as_str()) {
                                        let msg = concat(lit("Block ID '^"), b.as_str());
                                        let msg = concat(msg, "' not found in [[");
                                        let msg = concat(msg, l.target.as_str());
                                        let msg = concat(msg, "]]");
                                        let tg = concat(l.target.clone(), "#^");
                                        let tg = concat(tg, b.as_str());
                                        push_issue(
                                            out,
                                            Issue {
                                                issue_type: IssueType::BrokenBlockRefs,
                                                file: p.clone(),
                                                line: Some(l.line),
                                                message: msg,
                                                target: Some(tg),
                                                fixable: false,
                                            },
                                        );
                                    }
                                },
                                None => {},
                            }
                        }
                    },
                    None => {},
                }
                proof {
                    assert(issues_view(out@) =~= start + link_issues(*self, p@, *li, all@));
                }
            },
        }
    }

    fn note_issues_exec(&self, n: &NoteSource, all: &[NoteSource], g: &LinkGraph, out: &mut Vec<Issue>)
        requires
            g.wf(),
        ensures
            issues_view(final(out)@) == issues_view(old(out)@) + note_issues(*self, *n, all@, *g),
    {
        let ghost start = issues_view(out@);
        match &n.loaded {
            Err(e) => {
                if self.should_check(IssueType::InvalidFrontmatter) {
                    if text_contains(e.as_str(), "frontmatter") || text_contains(e.as_str(), "YAML") {
                        let msg = concat(lit("Invalid frontmatter: "), e.as_str());
                        push_issue(
                            out,
                            Issue {
                                issue_type: IssueType::InvalidFrontmatter,
                                file: n.path.clone(),
                                line: None,
                                message: msg,
                                target: None,
                                fixable: false,
                            },
                        );
                        return ;
                    }
                }
                assert(issues_view(out@) =~= start + note_issues(*self, *n, all@, *g));
            },
            Ok(c) => {
                let note = crate::note::Note::new(n.path.as_str(), c.as_str());
                if self.should_check(IssueType::MissingFrontmatter) {
                    let missing = match note.frontmatter() {
                        Ok(Some(_)) => false,
                        _ => true,
                    };
                    if missing {
                        push_issue(
                            out,
                            Issue {
                                issue_type: IssueType::MissingFrontmatter,
                                file: n.path.clone(),
                                line: None,
                                message: lit("Note has no frontmatter"),
                                target: None,
                                fixable: true,
                            },
                        );
                    }
                }
                let ghost a1 = issues_view(out@);
                if self.should_check(IssueType::EmptyNotes) {
                    let body = chars_of(note.body().as_str());
                    let t = trim_vec(&body);
                    if t.len() == 0 {
                        push_issue(
                            out,
                            Issue {
                                issue_type: IssueType::EmptyNotes,
                                file: n.path.clone(),
                                line: None,
                                message: lit("Note has no content"),
                                target: None,
                                fixable: false,
                            },
                        );
                    }
                }
                let ghost a2 = issues_view(out@);
                if self.should_check(IssueType::DuplicateBlockIds) {
                    dup_blocks_exec(&n.path, c.as_str(), out);
                }
                let ghost a3 = issues_view(out@);
                let outgoing = g.get_outgoing(n.path.as_str());
                let ghost infos = outgoing_of(*g, n.path@);
                let mut k: usize = 0;
                proof {
                    assert(crate::graph::link_graph::info_refs(outgoing@) == infos);
                    assert(infos.subrange(0, 0) =~= Seq::<LinkInfo>::empty());
                    assert(issues_view(out@) =~= a3 + links_issues(*self, n.path@, infos.subrange(0, 0), all@));
                }
                while k < outgoing.len()
                    invariant
                        k <= outgoing@.len(),
                        crate::graph::link_graph::info_refs(outgoing@) == infos,
                        issues_view(out@) == a3 + links_issues(*self, n.path@, infos.subrange(0, k as int), all@),
                    decreases outgoing@.len() - k,
                {
                    let li = outgoing[k];
                    proof {
                        assert(infos[k as int] == *li);
                        assert(infos.subrange(0, k + 1).drop_last() =~= infos.subrange(0, k as int));
                    }
                    self.link_issues_exec(&n.path, li, all, out);
                    k = k + 1;
                }
                proof {
                    assert(infos.subrange(0, k as int) =~= infos);
                    assert(issues_view(out@) =~= start + note_issues(*self, *n, all@, *g));
                }
            },
        }
    }
}

// ---------------------------------------------------------------------------
// Aliases
// ---------------------------------------------------------------------------

pub open spec fn groups_view(gs: Seq<(String, Vec<String>)>) -> Groups {
    gs.map_values(|g: (String, Vec<String>)| (g.0@, crate::graph::resolution::strings_view(g.1@)))
}

fn group_add_exec(groups: &mut Vec<(String, Vec<String>)>, k: String, v: &String)
    ensures
        groups_view(final(groups)@) == group_add(groups_view(old(groups)@), k@, v@),
{
    let ghost gv = groups_view(groups@);
    let kc = chars_of(k.as_str());
    let mut i: usize = 0;
    while i < groups.len()
        invariant
            i <= groups@.len(),
            kc@ == k@,
            gv == groups_view(groups@),
            gv == groups_view(old(groups)@),
            group_find(gv, k@, 0) == group_find(gv, k@, i as int),
        decreases groups@.len() - i,
    {
        proof {
            assert(gv[i as int].0 == groups@[i as int].0@);
        }
        if same_chars(chars_of(groups[i].0.as_str()).as_slice(), kc.as_slice()) {
            proof {
                assert(group_find(gv, k@, i as int) == i);
            }
            let mut g = groups.remove(i);
            let ghost ps0 = g.1@;
            g.1.push(v.clone());
            groups.insert(i, g);
            proof {
                assert(crate::graph::resolution::strings_view(g.1@) =~= crate::graph::resolution::strings_view(ps0).push(v@));
                assert(groups_view(groups@) =~= gv.update(i as int, (k@, gv[i as int].1.push(v@))));
                assert(group_add(gv, k@, v@) == gv.update(i as int, (k@, gv[i as int].1.push(v@))));
            }
            return ;
        }
        i = i + 1;
    }
    let ps: Vec<String> = vec![v.clone()];
    groups.push((k, ps));
    proof {
        assert(crate::graph::resolution::strings_view(ps@) =~= seq![v@]);
        assert(groups_view(groups@) =~= gv.push((k@, seq![v@])));
    }
}

fn listed_aliases_exec(content: &str) -> (r: Vec<String>)
    ensures
        crate::graph::resolution::strings_view(r@) == listed_aliases(content@),
{
    let mut r: Vec<String> = Vec::new();
    let fm = match crate::parser::frontmatter::parse_frontmatter(content) {
        Ok(Some(fm)) => fm,
        _ => {
            assert(crate::graph::resolution::strings_view(r@) =~= listed_aliases(content@));
            return r;
        },
    };
    let a = match crate::yaml::value_get(&fm, "aliases") {
        Some(a) => a,
        None => {
            assert(crate::graph::resolution::strings_view(r@) =~= listed_aliases(content@));
            return r;
        },
    };
    proof {
        assert(aliases_value(content@) == Some(crate::yaml::yaml_tree(*a)));
    }
    match crate::yaml::value_as_sequence(a) {
        Some(items) => {
            let ghost vitems = untag(crate::yaml::yaml_tree(*a))->List_0;
            let mut i: usize = 0;
            proof {
                assert(vitems.subrange(0, 0) =~= Seq::<YamlV>::empty());
                assert(crate::graph::resolution::strings_view(r@) =~= str_items(vitems.subrange(0, 0)));
            }
            while i < items.len()
                invariant
                    i <= items@.len(),
                    items@.len() == vitems.len(),
                    forall|j: int| 0 <= j < vitems.len() ==> crate::yaml::yaml_tree(#[trigger] items@[j]) == vitems[j],
                    crate::graph::resolution::strings_view(r@) == str_items(vitems.subrange(0, i as int)),
                decreases items@.len() - i,
            {
                let ghost pre = vitems.subrange(0, i as int);
                let ghost r0 = r@;
                proof {
                    assert(vitems.subrange(0, i + 1).drop_last() =~= pre);
                    assert(vitems.subrange(0, i + 1).last() == vitems[i as int]);
                }
                match crate::yaml::value_as_str(&items[i]) {
                    Some(x) => {
                        r.push(lit(x));
                        proof {
                            assert(crate::graph::resolution::strings_view(r@) =~= crate::graph::resolution::strings_view(r0).push(x@));
                            assert(str_items(vitems.subrange(0, i + 1)) =~= str_items(pre) + seq![x@]);
                        }
                    },
                    None => {
                        proof {
                            assert(str_items(vitems.subrange(0, i + 1)) =~= str_items(pre));
                        }
                    },
                }
                i = i + 1;
            }
            proof {
                assert(vitems.subrange(0, i as int) =~= vitems);
            }
            r
        },
        None => {
            assert(crate::graph::resolution::strings_view(r@) =~= listed_aliases(content@));
            r
        },
    }
}

fn join_comma_exec(ps: &Vec<String>) -> (r: String)
    ensures
        r@ == join_comma(crate::graph::resolution::strings_view(ps@)),
{
    let ghost sv = crate::graph::resolution::strings_view(ps@);
    let mut r = String::new();
    let mut i: usize = 0;
    while i < ps.len()
        invariant
            i <= ps@.len(),
            sv == crate::graph::resolution::strings_view(ps@),
            r@ == join_comma(sv.subrange(0, i as int)),
        decreases ps@.len() - i,
    {
        proof {
            assert(sv.subrange(0, i + 1).drop_last() =~= sv.subrange(0, i as int));
            assert(sv[i as int] == ps@[i as int]@);
        }
        if i == 0 {
            r = ps[0].clone();
            proof {
                assert(sv.subrange(0, 1).len() == 1);
                assert(sv.subrange(0, 1)[0] == sv[0]);
            }
        } else {
            r = concat(r, ", ");
            r = concat(r, ps[i].as_str());
        }
        i = i + 1;
    }
    proof {
        assert(sv.subrange(0, i as int) =~= sv);
    }
    r
}

fn others_exec(ps: &Vec<String>, p: &String) -> (r: Vec<String>)
    ensures
        crate::graph::resolution::strings_view(r@) == others(crate::graph::resolution::strings_view(ps@), p@),
{
    let ghost sv = crate::graph::resolution::strings_view(ps@);
    let pc = chars_of(p.as_str());
    let mut r: Vec<String> = Vec::new();
    let mut i: usize = 0;
    while i < ps.len()
        invariant
            i <= ps@.len(),
            pc@ == p@,
            sv == crate::graph::resolution::strings_view(ps@),
            crate::graph::resolution::strings_view(r@) == others(sv.subrange(0, i as int), p@),
        decreases ps@.len() - i,
    {
        let ghost r0 = r@;
        proof {
            assert(sv.subrange(0, i + 1).drop_last() =~= sv.subrange(0, i as int));
            assert(sv[i as int] == ps@[i as int]@);
        }
        if !same_chars(chars_of(ps[i].as_str()).as_slice(), pc.as_slice()) {
            r.push(ps[i].clone());
            proof {
                assert(crate::graph::resolution::strings_view(r@) =~= crate::graph::resolution::strings_view(r0).push(sv[i as int]));
            }
        }
        i = i + 1;
    }
    proof {
        assert(sv.subrange(0, i as int) =~= sv);
    }
    r
}

fn alias_issues_exec(groups: &Vec<(String, Vec<String>)>, out: &mut Vec<Issue>)
    ensures
        issues_view(final(out)@) == issues_view(old(out)@) + alias_issues(groups_view(groups@)),
{
    let ghost gv = groups_view(groups@);
    let ghost start = issues_view(out@);
    let mut gi: usize = 0;
    while gi < groups.len()
        invariant
            gi <= groups@.len(),
            gv == groups_view(groups@),
            issues_view(out@) == start + alias_issues(gv.subrange(0, gi as int)),
        decreases groups@.len() - gi,
    {
        let g = &groups[gi];
        let ghost a0 = issues_view(out@);
        proof {
            assert(gv.subrange(0, gi + 1).drop_last() =~= gv.subrange(0, gi as int));
            assert(gv[gi as int] == (g.0@, crate::graph::resolution::strings_view(g.1@)));
        }
        if g.1.len() > 1 {
            let ghost ps = crate::graph::resolution::strings_view(g.1@);
            let mut j: usize = 0;
            proof {
                assert(issues_view(out@) =~= a0 + group_issues(g.0@, ps, 0));
            }
            while j < g.1.len()
                invariant
                    j <= g.1@.len(),
                    ps == crate::graph::resolution::strings_view(g.1@),
                    issues_view(out@) == a0 + group_issues(g.0@, ps, j as int),
                decreases g.1@.len() - j,
            {
                let p = &g.1[j];
                let os = others_exec(&g.1, p);
                let msg = concat(lit("Alias '"), g.0.as_str());
                let msg = concat(msg, "' also defined in: ");
                let msg = concat(msg, join_comma_exec(&os).as_str());
                proof {
                    assert(ps[j as int] == p@);
                }
                push_issue(
                    out,
                    Issue {
                        issue_type: IssueType::DuplicateAliases,
                        file: p.clone(),
                        line: None,
                        message: msg,
                        target: Some(g.0.clone()),
                        fixable: false,
                    },
                );
                j = j + 1;
            }
        }
        proof {
            assert(issues_view(out@) =~= start + alias_issues(gv.subrange(0, gi + 1)));
        }
        gi = gi + 1;
    }
    proof {
        assert(gv.subrange(0, gi as int) =~= gv);
    }
}

impl crate::health::HealthChecker {
    /// Run all enabled checks on the notes `checked` of a vault whose notes
    /// are `all`, with the vault's link graph `graph` (`LinkGraph::build` of
    /// `all`); `checked` holds the notes whose paths `notes_to_check` gives,
    /// so that a glob pattern limits the notes checked. The issues come note
    /// by note, then the orphans, then the duplicate aliases.
    pub fn run(&self, all: &[NoteSource], checked: &[NoteSource], graph: &LinkGraph) -> (r: Vec<Issue>)
        requires
            graph.wf(),
        ensures
            issues_view(r@) == run_issues(*self, all@, checked@, *graph),
    {
        let mut issues: Vec<Issue> = Vec::new();
        let mut groups: Vec<(String, Vec<String>)> = Vec::new();
        let mut i: usize = 0;
        while i < checked.len()
            invariant
                i <= checked@.len(),
                graph.wf(),
                issues_view(issues@) == notes_issues(*self, checked@.subrange(0, i as int), all@, *graph),
                groups_view(groups@) == alias_groups(checked@.subrange(0, i as int)),
            decreases checked@.len() - i,
        {
            let n = &checked[i];
            let ghost pre = checked@.subrange(0, i as int);
            proof {
                assert(checked@.subrange(0, i + 1).drop_last() =~= pre);
                assert(checked@.subrange(0, i + 1).last() == *n);
            }
            self.note_issues_exec(n, all, graph, &mut issues);
            match &n.loaded {
                Ok(c) => {
                    let als = listed_aliases_exec(c.as_str());
                    let ghost g0 = groups_view(groups@);
                    let ghost av = crate::graph::resolution::strings_view(als@);
                    let mut k: usize = 0;
                    while k < als.len()
                        invariant
                            k <= als@.len(),
                            av == crate::graph::resolution::strings_view(als@),
                            groups_view(groups@) == group_add_all(g0, av.subrange(0, k as int), n.path@),
                        decreases als@.len() - k,
                    {
                        proof {
                            assert(av.subrange(0, k + 1).drop_last() =~= av.subrange(0, k as int));
                            assert(av[k as int] == als@[k as int]@);
                        }
                        let lower = to_lowercase(als[k].as_str());
                        group_add_exec(&mut groups, lower, &n.path);
                        k = k + 1;
                    }
                    proof {
                        assert(av.subrange(0, k as int) =~= av);
                    }
                },
                Err(_) => {},
            }
            i = i + 1;
        }
        proof {
            assert(checked@.subrange(0, i as int) =~= checked@);
        }
        let ghost a1 = issues_view(issues@);
        if self.should_check(IssueType::Orphans) {
            let mut i: usize = 0;
            while i < checked.len()
                invariant
                    i <= checked@.len(),
                    graph.wf(),
                    issues_view(issues@) == a1 + orphan_issues(checked@.subrange(0, i as int), *graph),
                decreases checked@.len() - i,
            {
                let n = &checked[i];
                proof {
                    assert(checked@.subrange(0, i + 1).drop_last() =~= checked@.subrange(0, i as int));
                    assert(checked@.subrange(0, i + 1).last() == *n);
                }
                let incoming = graph.get_incoming(n.path.as_str());
                proof {
                    let cands = incoming_candidates(*graph, n.path@);
                    let rv = ilink_refs(incoming@);
                    if rv.len() > 0 {
                        assert(0 <= crate::graph::link_graph::first_key_from(cands, crate::graph::link_graph::ilink_key(rv[0]), 0));
                    }
                    if cands.len() > 0 {
                        assert(crate::graph::link_graph::key_in(rv, crate::graph::link_graph::ilink_key(cands[0])));
                    }
                }
                if incoming.len() == 0 {
                    push_issue(
                        &mut issues,
                        Issue {
                            issue_type: IssueType::Orphans,
                            file: n.path.clone(),
                            line: None,
                            message: lit("Note has no incoming links"),
                            target: None,
                            fixable: false,
                        },
                    );
                }
                i = i + 1;
            }
            proof {
                assert(checked@.subrange(0, i as int) =~= checked@);
            }
        }
        let ghost a2 = issues_view(issues@);
        if self.should_check(IssueType::DuplicateAliases) {
            alias_issues_exec(&groups, &mut issues);
        }
        proof {
            assert(issues_view(issues@) =~= run_issues(*self, all@, checked@, *graph));
        }
        issues
    }
}

// ---------------------------------------------------------------------------
// Only checked issue types are reported
// ---------------------------------------------------------------------------

/// Every issue has a type the checker checks.
pub open spec fn all_on(hc: crate::health::HealthChecker, s: Seq<IssueV>) -> bool {
    forall|k: int| 0 <= k < s.len() ==> on(hc, (#[trigger] s[k]).0)
}

/// Every issue has type `t`.
pub open spec fn all_typed(s: Seq<IssueV>, t: IssueType) -> bool {
    forall|k: int| 0 <= k < s.len() ==> (#[trigger] s[k]).0 == t
}

proof fn lemma_all_on_concat(hc: crate::health::HealthChecker, a: Seq<IssueV>, b: Seq<IssueV>)
    requires
        all_on(hc, a),
        all_on(hc, b),
    ensures
        all_on(hc, a + b),
{
    assert forall|k: int| 0 <= k < (a + b).len() implies on(hc, (#[trigger] (a + b)[k]).0) by {
        if k < a.len() {
            assert((a + b)[k] == a[k]);
        } else {
            assert((a + b)[k] == b[k - a.len()]);
        }
    }
}

proof fn lemma_typed_on(hc: crate::health::HealthChecker, s: Seq<IssueV>, t: IssueType)
    requires
        all_typed(s, t),
        on(hc, t),
    ensures
        all_on(hc, s),
{
    assert forall|k: int| 0 <= k < s.len() implies on(hc, (#[trigger] s[k]).0) by {
        assert(s[k].0 == t);
    }
}

proof fn lemma_typed_concat(a: Seq<IssueV>, b: Seq<IssueV>, t: IssueType)
    requires
        all_typed(a, t),
        all_typed(b, t),
    ensures
        all_typed(a + b, t),
{
    assert forall|k: int| 0 <= k < (a + b).len() implies (#[trigger] (a + b)[k]).0 == t by {
        if k < a.len() {
            assert((a + b)[k] == a[k]);
        } else {
            assert((a + b)[k] == b[k - a.len()]);
        }
    }
}

proof fn lemma_dup_typed(p: Seq<char>, bs: Seq<(Seq<char>, int, BlockType)>)
    ensures
        all_typed(dup_block_issues(p, bs), IssueType::DuplicateBlockIds),
    decreases bs.len(),
{
    if bs.len() > 0 {
        lemma_dup_typed(p, bs.drop_last());
        let b = bs.last();
        let f = first_id(bs.drop_last(), b.0, 0);
        let tail = if f >= 0 {
            seq![
                (
                    IssueType::DuplicateBlockIds,
                    p,
                    Some(b.1),
                    "Block ID '^"@ + b.0 + "' already used on line "@ + decimal(bs[f].1 as nat),
                    Some(b.0),
                    true,
                ),
            ]
        } else {
            Seq::<IssueV>::empty()
        };
        assert(all_typed(tail, IssueType::DuplicateBlockIds));
        lemma_typed_concat(dup_block_issues(p, bs.drop_last()), tail, IssueType::DuplicateBlockIds);
    }
}

proof fn lemma_links_on(
    hc: crate::health::HealthChecker,
    p: Seq<char>,
    infos: Seq<LinkInfo>,
    all: Seq<NoteSource>,
)
    ensures
        all_on(hc, links_issues(hc, p, infos, all)),
    decreases infos.len(),
{
    if infos.len() > 0 {
        lemma_links_on(hc, p, infos.drop_last(), all);
        let li = infos.last();
        match li.resolved_path {
            None => {},
            Some(res) => {
                lemma_all_on_concat(
                    hc,
                    heading_part(hc, p, li.link, res@, all),
                    block_part(hc, p, li.link, res@, all),
                );
            },
        }
        lemma_all_on_concat(hc, links_issues(hc, p, infos.drop_last(), all), link_issues(hc, p, li, all));
    }
}

proof fn lemma_note_on(hc: crate::health::HealthChecker, n: NoteSource, all: Seq<NoteSource>, g: LinkGraph)
    ensures
        all_on(hc, note_issues(hc, n, all, g)),
{
    let p = n.path@;
    match n.loaded {
        Err(e) => {},
        Ok(c) => {
            let c = c@;
            let a = if on(hc, IssueType::MissingFrontmatter) && !(spec_frontmatter_value(c) matches Ok(
                Some(_),
            )) {
                seq![
                    (
                        IssueType::MissingFrontmatter,
                        p,
                        None,
                        "Note has no frontmatter"@,
                        None,
                        true,
                    ),
                ]
            } else {
                Seq::empty()
            };
            let b = if on(hc, IssueType::EmptyNotes) && trim(spec_body(c)).len() == 0 {
                seq![(IssueType::EmptyNotes, p, None, "Note has no content"@, None, false)]
            } else {
                Seq::empty()
            };
            let d = if on(hc, IssueType::DuplicateBlockIds) {
                dup_block_issues(p, spec_block_ids(c))
            } else {
                Seq::empty()
            };
            if on(hc, IssueType::DuplicateBlockIds) {
                lemma_dup_typed(p, spec_block_ids(c));
                lemma_typed_on(hc, d, IssueType::DuplicateBlockIds);
            }
            assert(all_on(hc, a));
            assert(all_on(hc, b));
            assert(all_on(hc, d));
            lemma_all_on_concat(hc, a, b);
            lemma_all_on_concat(hc, a + b, d);
            lemma_links_on(hc, p, outgoing_of(g, p), all);
            lemma_all_on_concat(hc, a + b + d, links_issues(hc, p, outgoing_of(g, p), all));
        },
    }
}

proof fn lemma_notes_on(hc: crate::health::HealthChecker, checked: Seq<NoteSource>, all: Seq<NoteSource>, g: LinkGraph)
    ensures
        all_on(hc, notes_issues(hc, checked, all, g)),
    decreases checked.len(),
{
    if checked.len() > 0 {
        lemma_notes_on(hc, checked.drop_last(), all, g);
        lemma_note_on(hc, checked.last(), all, g);
        lemma_all_on_concat(hc, notes_issues(hc, checked.drop_last(), all, g), note_issues(hc, checked.last(), all, g));
    }
}

proof fn lemma_orphans_typed(checked: Seq<NoteSource>, g: LinkGraph)
    ensures
        all_typed(orphan_issues(checked, g), IssueType::Orphans),
    decreases checked.len(),
{
    if checked.len() > 0 {
        lemma_orphans_typed(checked.drop_last(), g);
        let tail = if incoming_candidates(g, checked.last().path@).len() == 0 {
            seq![
                (
                    IssueType::Orphans,
                    checked.last().path@,
                    None,
                    "Note has no incoming links"@,
                    None,
                    false,
                ),
            ]
        } else {
            Seq::<IssueV>::empty()
        };
        assert(all_typed(tail, IssueType::Orphans));
        lemma_typed_concat(orphan_issues(checked.drop_last(), g), tail, IssueType::Orphans);
    }
}

proof fn lemma_group_typed(a: Seq<char>, ps: Seq<Seq<char>>, upto: int)
    ensures
        all_typed(group_issues(a, ps, upto), IssueType::DuplicateAliases),
    decreases upto,
{
    if 0 < upto <= ps.len() {
        lemma_group_typed(a, ps, upto - 1);
        let p = ps[upto - 1];
        let tail = seq![
            (
                IssueType::DuplicateAliases,
                p,
                None,
                "Alias '"@ + a + "' also defined in: "@ + join_comma(others(ps, p)),
                Some(a),
                false,
            ),
        ];
        assert(all_typed(tail, IssueType::DuplicateAliases));
        lemma_typed_concat(group_issues(a, ps, upto - 1), tail, IssueType::DuplicateAliases);
    }
}

proof fn lemma_aliases_typed(gs: Groups)
    ensures
        all_typed(alias_issues(gs), IssueType::DuplicateAliases),
    decreases gs.len(),
{
    if gs.len() > 0 {
        lemma_aliases_typed(gs.drop_last());
        let g = gs.last();
        let tail = if g.1.len() > 1 {
            group_issues(g.0, g.1, g.1.len() as int)
        } else {
            Seq::<IssueV>::empty()
        };
        if g.1.len() > 1 {
            lemma_group_typed(g.0, g.1, g.1.len() as int);
        }
        assert(all_typed(tail, IssueType::DuplicateAliases));
        lemma_typed_concat(alias_issues(gs.drop_last()), tail, IssueType::DuplicateAliases);
    }
}

/// A health run reports only the issue types its checker checks: each is
/// in the `only` list, when there is one, and in no `ignore` list.
pub proof fn law_run_reports_checked_types(
    hc: crate::health::HealthChecker,
    all: Seq<NoteSource>,
    checked: Seq<NoteSource>,
    g: LinkGraph,
    k: int,
)
    requires
        0 <= k < run_issues(hc, all, checked, g).len(),
    ensures
        !hc.exclude_types@.contains(run_issues(hc, all, checked, g)[k].0),
        hc.include_view() matches Some(inc) ==> inc.contains(run_issues(hc, all, checked, g)[k].0),
{
    let a = notes_issues(hc, checked, all, g);
    let b = if on(hc, IssueType::Orphans) {
        orphan_issues(checked, g)
    } else {
        Seq::empty()
    };
    let d = if on(hc, IssueType::DuplicateAliases) {
        alias_issues(alias_groups(checked))
    } else {
        Seq::empty()
    };
    lemma_notes_on(hc, checked, all, g);
    if on(hc, IssueType::Orphans) {
        lemma_orphans_typed(checked, g);
        lemma_typed_on(hc, b, IssueType::Orphans);
    }
    if on(hc, IssueType::DuplicateAliases) {
        lemma_aliases_typed(alias_groups(checked));
        lemma_typed_on(hc, d, IssueType::DuplicateAliases);
    }
    assert(all_on(hc, b));
    assert(all_on(hc, d));
    lemma_all_on_concat(hc, a, b);
    lemma_all_on_concat(hc, a + b, d);
    assert(run_issues(hc, all, checked, g) == a + b + d);
    assert(on(hc, run_issues(hc, all, checked, g)[k].0));
}

} // verus!
