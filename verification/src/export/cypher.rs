//! Neo4j Cypher export: settings and the quoting of values and names.

use vstd::prelude::*;
use crate::graph::link_graph::{info_refs, LinkGraph, LinkInfo, NoteSource};
use crate::graph::resolution::strings_view;
use crate::parser::frontmatter::spec_frontmatter_value;
use crate::parser::heading::{headings_view, parse_headings, spec_headings};
use crate::parser::tag::{parse_tags, tag_occ};
use crate::str_map::StrMap;
use crate::text::{
    alphanumeric, chars_of, concat, decimal, decimal_string, int_string, int_text, is_alphanumeric,
    is_ascii_digit, lit, path_file_stem, push_char, push_str_chars,
};
use crate::types::context_text;
use crate::yaml::{yaml_as_i64, yaml_f64_text, yaml_tree, YamlV};

verus! {

/// Settings of a Cypher export.
#[derive(Debug, Clone)]
pub struct CypherOptions {
    /// Include tags as `Tag` nodes with `TAGGED` relations.
    pub include_tags: bool,
    /// Include headings as `Heading` nodes with `HAS_HEADING` relations.
    pub include_headings: bool,
    /// Include frontmatter properties on `Note` nodes.
    pub include_frontmatter: bool,
    /// Use `MERGE` instead of `CREATE`, for idempotent imports.
    pub use_merge: bool,
}

impl Default for CypherOptions {
    fn default() -> (r: CypherOptions)
        ensures
            !r.include_tags,
            !r.include_headings,
            !r.include_frontmatter,
            !r.use_merge,
    {
        CypherOptions {
            include_tags: false,
            include_headings: false,
            include_frontmatter: false,
            use_merge: false,
        }
    }
}

/// Counts of what a Cypher export wrote.
#[derive(Debug, Clone)]
pub struct ExportStats {
    /// Note nodes written.
    pub notes_created: usize,
    /// Link relations written.
    pub links_created: usize,
    /// Tag nodes written.
    pub tags_created: usize,
    /// Tag relations written.
    pub tag_relationships: usize,
    /// Heading nodes written.
    pub headings_created: usize,
}

impl Default for ExportStats {
    fn default() -> (r: ExportStats)
        ensures
            r.notes_created == 0,
            r.links_created == 0,
            r.tags_created == 0,
            r.tag_relationships == 0,
            r.headings_created == 0,
    {
        ExportStats {
            notes_created: 0,
            links_created: 0,
            tags_created: 0,
            tag_relationships: 0,
            headings_created: 0,
        }
    }
}

/// The escaped form of one character inside a Cypher string literal.
pub open spec fn escape_char(c: char) -> Seq<char> {
    if c == '\\' {
        seq!['\\', '\\']
    } else if c == '\'' {
        seq!['\\', '\'']
    } else if c == '"' {
        seq!['\\', '"']
    } else if c == '\n' {
        seq!['\\', 'n']
    } else if c == '\r' {
        seq!['\\', 'r']
    } else if c == '\t' {
        seq!['\\', 't']
    } else {
        seq![c]
    }
}

/// The escaped characters of `s`.
pub open spec fn escape_chars(s: Seq<char>) -> Seq<char>
    decreases s.len(),
{
    if s.len() == 0 {
        Seq::empty()
    } else {
        escape_chars(s.drop_last()) + escape_char(s.last())
    }
}

/// A single-quoted Cypher string literal holding `s`.
pub fn escape_string(s: &str) -> (r: String)
    ensures
        r@ == seq!['\''] + escape_chars(s@) + seq!['\''],
{
    let mut out = String::new();
    push_char(&mut out, '\'');
    let chars = crate::text::chars_of(s);
    let mut k: usize = 0;
    while k < chars.len()
        invariant
            k <= chars@.len(),
            chars@ == s@,
            out@ == seq!['\''] + escape_chars(chars@.subrange(0, k as int)),
        decreases chars@.len() - k,
    {
        let c = chars[k];
        if c == '\\' {
            push_char(&mut out, '\\');
            push_char(&mut out, '\\');
        } else if c == '\'' {
            push_char(&mut out, '\\');
            push_char(&mut out, '\'');
        } else if c == '"' {
            push_char(&mut out, '\\');
            push_char(&mut out, '"');
        } else if c == '\n' {
            push_char(&mut out, '\\');
            push_char(&mut out, 'n');
        } else if c == '\r' {
            push_char(&mut out, '\\');
            push_char(&mut out, 'r');
        } else if c == '\t' {
            push_char(&mut out, '\\');
            push_char(&mut out, 't');
        } else {
            push_char(&mut out, c);
        }
        proof {
            assert(chars@.subrange(0, k + 1).drop_last() == chars@.subrange(0, k as int));
            assert(out@ =~= seq!['\''] + escape_chars(chars@.subrange(0, k + 1)));
        }
        k = k + 1;
    }
    assert(chars@.subrange(0, k as int) == chars@);
    push_char(&mut out, '\'');
    out
}

/// `s` with every character that is neither alphanumeric nor `_` replaced
/// by `_`.
pub open spec fn underscored(s: Seq<char>) -> Seq<char> {
    s.map_values(|c: char| if is_alphanumeric(c) || c == '_' { c } else { '_' })
}

/// A property name that Neo4j accepts: other characters become `_`, and a
/// leading ASCII digit gets a `_` in front.
pub open spec fn spec_sanitize(name: Seq<char>) -> Seq<char> {
    let u = underscored(name);
    if u.len() > 0 && is_ascii_digit(u[0]) {
        seq!['_'] + u
    } else {
        u
    }
}

/// Make a property name acceptable to Neo4j.
pub fn sanitize_property_name(name: &str) -> (r: String)
    ensures
        r@ == spec_sanitize(name@),
{
    let chars = crate::text::chars_of(name);
    let mut u: Vec<char> = Vec::new();
    let mut k: usize = 0;
    while k < chars.len()
        invariant
            k <= chars@.len(),
            chars@ == name@,
            u@ == underscored(chars@.subrange(0, k as int)),
        decreases chars@.len() - k,
    {
        let c = chars[k];
        if alphanumeric(c) || c == '_' {
            u.push(c);
        } else {
            u.push('_');
        }
        proof {
            assert(u@ =~= underscored(chars@.subrange(0, k + 1)));
        }
        k = k + 1;
    }
    assert(chars@.subrange(0, k as int) == chars@);
    let mut out = String::new();
    if u.len() > 0 && '0' <= u[0] && u[0] <= '9' {
        push_char(&mut out, '_');
    }
    crate::text::push_str_chars(&mut out, u.as_slice());
    assert(out@ =~= spec_sanitize(name@));
    out
}


// ---------------------------------------------------------------------------
// The export
// ---------------------------------------------------------------------------

/// Texts joined with `sep` between them.
pub open spec fn join_sep(ps: Seq<Seq<char>>, sep: Seq<char>) -> Seq<char>
    decreases ps.len(),
{
    if ps.len() == 0 {
        Seq::empty()
    } else if ps.len() == 1 {
        ps[0]
    } else {
        join_sep(ps.drop_last(), sep) + sep + ps.last()
    }
}

/// Lines, each followed by a line feed.
pub open spec fn text_of_lines(ls: Seq<Seq<char>>) -> Seq<char>
    decreases ls.len(),
{
    if ls.len() == 0 {
        Seq::empty()
    } else {
        text_of_lines(ls.drop_last()) + ls.last() + seq!['\n']
    }
}

/// A quoted Cypher string.
pub open spec fn quoted(s: Seq<char>) -> Seq<char> {
    seq!['\''] + escape_chars(s) + seq!['\'']
}

/// The statement keyword: `MERGE` or `CREATE`.
pub open spec fn keyword(o: CypherOptions) -> Seq<char> {
    if o.use_merge {
        "MERGE"@
    } else {
        "CREATE"@
    }
}

/// The tag names of a note's content, in order.
pub open spec fn content_tags(c: Seq<char>) -> Seq<Seq<char>> {
    tag_occ(c).map_values(|m: (int, int)| c.subrange(m.0, m.1))
}

/// The tags of the loaded notes, each once, in order of first appearance.
pub open spec fn add_new(seen: Seq<Seq<char>>, ts: Seq<Seq<char>>) -> Seq<Seq<char>>
    decreases ts.len(),
{
    if ts.len() == 0 {
        seen
    } else {
        let s0 = add_new(seen, ts.drop_last());
        if s0.contains(ts.last()) {
            s0
        } else {
            s0.push(ts.last())
        }
    }
}

pub open spec fn all_tags(ns: Seq<NoteSource>) -> Seq<Seq<char>>
    decreases ns.len(),
{
    if ns.len() == 0 {
        Seq::empty()
    } else {
        let t = all_tags(ns.drop_last());
        match ns.last().loaded {
            Ok(c) => add_new(t, content_tags(c@)),
            Err(_) => t,
        }
    }
}

/// The name of a note: its file stem, or `unknown`.
pub open spec fn note_name(p: Seq<char>) -> Seq<char> {
    match path_file_stem(p) {
        Some(st) => st,
        None => "unknown"@,
    }
}

/// The property that a frontmatter entry gives a `Note` node: strings,
/// booleans and numbers under string keys other than `vaultiel`.
pub open spec fn entry_prop(e: (YamlV, YamlV)) -> Option<Seq<char>> {
    match e.0 {
        YamlV::Str(k) => if k == "vaultiel"@ {
            None
        } else {
            let name = spec_sanitize(k) + ": "@;
            match e.1 {
                YamlV::Str(v) => Some(name + quoted(v)),
                YamlV::Bool(b) => Some(name + if b {
                    "true"@
                } else {
                    "false"@
                }),
                YamlV::Number(t) => match yaml_as_i64(t) {
                    Some(i) => Some(name + int_text(i as int)),
                    None => match yaml_f64_text(t) {
                        Some(f) => Some(name + f),
                        None => None,
                    },
                },
                _ => None,
            }
        },
        _ => None,
    }
}

pub open spec fn entry_props(es: Seq<(YamlV, YamlV)>) -> Seq<Seq<char>>
    decreases es.len(),
{
    if es.len() == 0 {
        Seq::empty()
    } else {
        entry_props(es.drop_last()) + match entry_prop(es.last()) {
            Some(p) => seq![p],
            None => Seq::<Seq<char>>::empty(),
        }
    }
}

/// The frontmatter properties of a note's content.
pub open spec fn fm_props(c: Seq<char>) -> Seq<Seq<char>> {
    match spec_frontmatter_value(c) {
        Ok(Some(YamlV::Mapping(es))) => entry_props(es),
        _ => Seq::empty(),
    }
}

/// The properties of a `Note` node.
pub open spec fn note_props(o: CypherOptions, n: NoteSource) -> Seq<Seq<char>> {
    seq!["path: "@ + quoted(n.path@), "name: "@ + quoted(note_name(n.path@))] + if o.include_frontmatter {
        match n.loaded {
            Ok(c) => fm_props(c@),
            Err(_) => Seq::empty(),
        }
    } else {
        Seq::empty()
    }
}

pub open spec fn note_node_lines(o: CypherOptions, ns: Seq<NoteSource>) -> Seq<Seq<char>>
    decreases ns.len(),
{
    if ns.len() == 0 {
        Seq::empty()
    } else {
        note_node_lines(o, ns.drop_last()).push(
            keyword(o) + " (:Note {"@ + join_sep(note_props(o, ns.last()), ", "@) + "});"@,
        )
    }
}

/// The two lines of a heading: its node and its relation to the note.
pub open spec fn heading_lines(o: CypherOptions, p: Seq<char>, hs: Seq<(Seq<char>, int, int, Seq<char>)>) -> Seq<
    Seq<char>,
>
    decreases hs.len(),
{
    if hs.len() == 0 {
        Seq::empty()
    } else {
        let h = hs.last();
        let id = p + "#"@ + h.3;
        heading_lines(o, p, hs.drop_last()) + seq![
            keyword(o) + " (:Heading {id: "@ + quoted(id) + ", text: "@ + quoted(h.0) + ", level: "@
                + decimal(h.1 as nat) + ", slug: "@ + quoted(h.3) + "});"@,
            "MATCH (n:Note {path: "@ + quoted(p) + "}), (h:Heading {id: "@ + quoted(id) + "}) "@
                + keyword(o) + " (n)-[:HAS_HEADING]->(h);"@,
        ]
    }
}

pub open spec fn all_heading_lines(o: CypherOptions, ns: Seq<NoteSource>) -> Seq<Seq<char>>
    decreases ns.len(),
{
    if ns.len() == 0 {
        Seq::empty()
    } else {
        all_heading_lines(o, ns.drop_last()) + match ns.last().loaded {
            Ok(c) => heading_lines(o, ns.last().path@, spec_headings(c@)),
            Err(_) => Seq::empty(),
        }
    }
}

pub open spec fn heading_count(ns: Seq<NoteSource>) -> int
    decreases ns.len(),
{
    if ns.len() == 0 {
        0
    } else {
        heading_count(ns.drop_last()) + match ns.last().loaded {
            Ok(c) => spec_headings(c@).len() as int,
            Err(_) => 0,
        }
    }
}

pub open spec fn tag_rel_lines(o: CypherOptions, p: Seq<char>, ts: Seq<Seq<char>>) -> Seq<Seq<char>> {
    ts.map_values(
        |t: Seq<char>|
            "MATCH (n:Note {path: "@ + quoted(p) + "}), (t:Tag {name: "@ + quoted(t) + "}) "@ + keyword(o)
                + " (n)-[:TAGGED]->(t);"@,
    )
}

pub open spec fn all_tag_rel_lines(o: CypherOptions, ns: Seq<NoteSource>) -> Seq<Seq<char>>
    decreases ns.len(),
{
    if ns.len() == 0 {
        Seq::empty()
    } else {
        all_tag_rel_lines(o, ns.drop_last()) + match ns.last().loaded {
            Ok(c) => tag_rel_lines(o, ns.last().path@, content_tags(c@)),
            Err(_) => Seq::empty(),
        }
    }
}

/// The properties of a link relation.
pub open spec fn link_props(li: LinkInfo) -> Seq<Seq<char>> {
    let l = li.link;
    seq!["context: "@ + quoted(context_text(li.context))] + (if l.embed {
        seq!["embed: true"@]
    } else {
        Seq::empty()
    }) + (match l.alias {
        Some(a) => seq!["alias: "@ + quoted(a@)],
        None => Seq::empty(),
    }) + (match l.heading {
        Some(h) => seq!["heading: "@ + quoted(h@)],
        None => Seq::empty(),
    }) + (match l.block_id {
        Some(b) => seq!["blockId: "@ + quoted(b@)],
        None => Seq::empty(),
    })
}

/// The line of a link whose target resolves to `t`.
pub open spec fn link_line(o: CypherOptions, src: Seq<char>, li: LinkInfo, t: Seq<char>) -> Seq<char> {
    let props = link_props(li);
    "MATCH (a:Note {path: "@ + quoted(src) + "}), (b:Note {path: "@ + quoted(t) + "}) "@ + keyword(o)
        + " (a)-[:LINKS_TO {"@ + join_sep(props, ", "@) + "}]->(b);"@
}

/// The lines of the links of one note whose target resolves.
pub open spec fn note_link_lines(
    o: CypherOptions,
    src: Seq<char>,
    infos: Seq<LinkInfo>,
    resolved: Map<Seq<char>, String>,
) -> Seq<Seq<char>>
    decreases infos.len(),
{
    if infos.len() == 0 {
        Seq::empty()
    } else {
        let li = infos.last();
        note_link_lines(o, src, infos.drop_last(), resolved) + if resolved.contains_key(li.link.target@) {
            seq![link_line(o, src, li, resolved[li.link.target@]@)]
        } else {
            Seq::<Seq<char>>::empty()
        }
    }
}

pub open spec fn all_link_lines(
    o: CypherOptions,
    ns: Seq<NoteSource>,
    g: LinkGraph,
    resolved: Map<Seq<char>, String>,
) -> Seq<Seq<char>>
    decreases ns.len(),
{
    if ns.len() == 0 {
        Seq::empty()
    } else {
        all_link_lines(o, ns.drop_last(), g, resolved) + note_link_lines(
            o,
            ns.last().path@,
            crate::health::run::outgoing_of(g, ns.last().path@),
            resolved,
        )
    }
}

pub open spec fn header_section(root: Seq<char>, n: nat, o: CypherOptions) -> Seq<Seq<char>> {
    seq![
        "// Vaultiel Graph Export - Neo4j Cypher"@,
        "// Vault: "@ + root,
        "// Notes: "@ + decimal(n),
        Seq::empty(),
    ] + if o.use_merge {
        seq![
            "// Constraints (run once)"@,
            "CREATE CONSTRAINT note_path IF NOT EXISTS FOR (n:Note) REQUIRE n.path IS UNIQUE;"@,
        ] + (if o.include_tags {
            seq!["CREATE CONSTRAINT tag_name IF NOT EXISTS FOR (t:Tag) REQUIRE t.name IS UNIQUE;"@]
        } else {
            Seq::empty()
        }) + seq![Seq::empty()]
    } else {
        Seq::empty()
    }
}

pub open spec fn tag_node_line(o: CypherOptions, t: Seq<char>) -> Seq<char> {
    keyword(o) + " (:Tag {name: "@ + quoted(t) + "});"@
}

pub open spec fn tag_section(o: CypherOptions, tags: Seq<Seq<char>>) -> Seq<Seq<char>> {
    if o.include_tags && tags.len() > 0 {
        seq!["// Tag nodes"@] + tags.map_values(|t: Seq<char>| tag_node_line(o, t)) + seq![Seq::empty()]
    } else {
        Seq::empty()
    }
}

pub open spec fn note_section(o: CypherOptions, ns: Seq<NoteSource>) -> Seq<Seq<char>> {
    seq!["// Note nodes"@] + note_node_lines(o, ns) + seq![Seq::empty()]
}

pub open spec fn heading_section(o: CypherOptions, ns: Seq<NoteSource>) -> Seq<Seq<char>> {
    if o.include_headings {
        seq!["// Heading nodes and relationships"@] + all_heading_lines(o, ns) + seq![Seq::empty()]
    } else {
        Seq::empty()
    }
}

pub open spec fn tag_rel_section(o: CypherOptions, ns: Seq<NoteSource>) -> Seq<Seq<char>> {
    if o.include_tags {
        seq!["// Tag relationships"@] + all_tag_rel_lines(o, ns) + seq![Seq::empty()]
    } else {
        Seq::empty()
    }
}

pub open spec fn footer_section(n: nat, links: nat, tags: nat, headings: nat) -> Seq<Seq<char>> {
    seq![
        Seq::empty(),
        "// Export complete"@,
        "// Notes: "@ + decimal(n) + ", Links: "@ + decimal(links) + ", Tags: "@ + decimal(tags)
            + ", Headings: "@ + decimal(headings),
    ]
}

/// The lines of a Cypher export.
pub open spec fn cypher_lines(
    root: Seq<char>,
    ns: Seq<NoteSource>,
    g: LinkGraph,
    resolved: Map<Seq<char>, String>,
    o: CypherOptions,
) -> Seq<Seq<char>> {
    let tags = all_tags(ns);
    let links = all_link_lines(o, ns, g, resolved);
    let n_tags: nat = if o.include_tags {
        tags.len()
    } else {
        0
    };
    let n_headings: nat = if o.include_headings {
        heading_count(ns) as nat
    } else {
        0
    };
    header_section(root, ns.len(), o) + tag_section(o, tags) + note_section(o, ns) + heading_section(
        o,
        ns,
    ) + tag_rel_section(o, ns) + seq!["// Link relationships"@] + links + footer_section(
        ns.len(),
        links.len(),
        n_tags,
        n_headings,
    )
}


pub(crate) fn push_line(out: &mut Vec<String>, l: String)
    ensures
        strings_view(final(out)@) == strings_view(old(out)@).push(l@),
{
    let ghost o = strings_view(out@);
    out.push(l);
    proof {
        assert(strings_view(out@) =~= o.push(l@));
    }
}

/// Texts joined with `sep` between them.
pub fn join_strings(ps: &Vec<String>, sep: &str) -> (r: String)
    ensures
        r@ == join_sep(strings_view(ps@), sep@),
{
    let ghost sv = strings_view(ps@);
    let mut r = String::new();
    let mut i: usize = 0;
    while i < ps.len()
        invariant
            i <= ps@.len(),
            sv == strings_view(ps@),
            r@ == join_sep(sv.subrange(0, i as int), sep@),
        decreases ps@.len() - i,
    {
        proof {
            assert(sv.subrange(0, i + 1).drop_last() =~= sv.subrange(0, i as int));
            assert(sv[i as int] == ps@[i as int]@);
        }
        if i == 0 {
            r = ps[0].clone();
            proof {
                assert(sv.subrange(0, 1)[0] == sv[0]);
            }
        } else {
            r = concat(r, sep);
            r = concat(r, ps[i].as_str());
        }
        i = i + 1;
    }
    proof {
        assert(sv.subrange(0, i as int) =~= sv);
    }
    r
}

/// Lines, each followed by a line feed.
pub fn lines_text(ls: &Vec<String>) -> (r: String)
    ensures
        r@ == text_of_lines(strings_view(ls@)),
{
    let ghost sv = strings_view(ls@);
    let mut r = String::new();
    let mut i: usize = 0;
    while i < ls.len()
        invariant
            i <= ls@.len(),
            sv == strings_view(ls@),
            r@ == text_of_lines(sv.subrange(0, i as int)),
        decreases ls@.len() - i,
    {
        proof {
            assert(sv.subrange(0, i + 1).drop_last() =~= sv.subrange(0, i as int));
            assert(sv[i as int] == ls@[i as int]@);
        }
        r = concat(r, ls[i].as_str());
        push_char(&mut r, '\n');
        i = i + 1;
    }
    proof {
        assert(sv.subrange(0, i as int) =~= sv);
    }
    r
}

fn quote(s: &str) -> (r: String)
    ensures
        r@ == quoted(s@),
{
    escape_string(s)
}

fn keyword_exec(o: &CypherOptions) -> (r: &'static str)
    ensures
        r@ == keyword(*o),
{
    if o.use_merge {
        "MERGE"
    } else {
        "CREATE"
    }
}

/// The tag names of a note's content.
pub(crate) fn content_tags_list(c: &str) -> (r: Vec<String>)
    ensures
        strings_view(r@) == content_tags(c@),
{
    let tags = parse_tags(c);
    let mut r: Vec<String> = Vec::new();
    let mut k: usize = 0;
    while k < tags.len()
        invariant
            k <= tags@.len(),
            crate::parser::tag::tags_of(tags@, c@),
            strings_view(r@) == content_tags(c@).subrange(0, k as int),
        decreases tags@.len() - k,
    {
        let ghost r0 = strings_view(r@);
        proof {
            assert(crate::parser::tag::tag_describes(tags@[k as int], c@, tag_occ(c@)[k as int]));
        }
        r.push(tags[k].name.clone());
        proof {
            assert(content_tags(c@)[k as int] == tags@[k as int].name@);
            assert(strings_view(r@) =~= r0.push(tags@[k as int].name@));
            assert(strings_view(r@) =~= content_tags(c@).subrange(0, k + 1));
        }
        k = k + 1;
    }
    proof {
        assert(content_tags(c@).subrange(0, k as int) =~= content_tags(c@));
    }
    r
}

fn contains_string(v: &Vec<String>, t: &String) -> (r: bool)
    ensures
        r == strings_view(v@).contains(t@),
{
    let tc = chars_of(t.as_str());
    let mut k: usize = 0;
    while k < v.len()
        invariant
            k <= v@.len(),
            tc@ == t@,
            forall|m: int| 0 <= m < k ==> strings_view(v@)[m] != t@,
        decreases v@.len() - k,
    {
        if crate::text::same_chars(chars_of(v[k].as_str()).as_slice(), tc.as_slice()) {
            assert(strings_view(v@)[k as int] == t@);
            return true;
        }
        k = k + 1;
    }
    false
}

fn all_tags_exec(notes: &[NoteSource]) -> (r: Vec<String>)
    ensures
        strings_view(r@) == all_tags(notes@),
{
    let mut r: Vec<String> = Vec::new();
    let mut i: usize = 0;
    while i < notes.len()
        invariant
            i <= notes@.len(),
            strings_view(r@) == all_tags(notes@.subrange(0, i as int)),
        decreases notes@.len() - i,
    {
        let n = &notes[i];
        proof {
            assert(notes@.subrange(0, i + 1).drop_last() =~= notes@.subrange(0, i as int));
            assert(notes@.subrange(0, i + 1).last() == *n);
        }
        match &n.loaded {
            Ok(c) => {
                let ts = content_tags_list(c.as_str());
                let ghost seen0 = strings_view(r@);
                let ghost tv = strings_view(ts@);
                let mut k: usize = 0;
                while k < ts.len()
                    invariant
                        k <= ts@.len(),
                        tv == strings_view(ts@),
                        strings_view(r@) == add_new(seen0, tv.subrange(0, k as int)),
                    decreases ts@.len() - k,
                {
                    proof {
                        assert(tv.subrange(0, k + 1).drop_last() =~= tv.subrange(0, k as int));
                        assert(tv[k as int] == ts@[k as int]@);
                    }
                    if !contains_string(&r, &ts[k]) {
                        let ghost r0 = strings_view(r@);
                        r.push(ts[k].clone());
                        proof {
                            assert(strings_view(r@) =~= r0.push(tv[k as int]));
                        }
                    }
                    k = k + 1;
                }
                proof {
                    assert(tv.subrange(0, k as int) =~= tv);
                }
            },
            Err(_) => {},
        }
        i = i + 1;
    }
    proof {
        assert(notes@.subrange(0, i as int) =~= notes@);
    }
    r
}

fn entry_prop_exec(k: &serde_yaml::Value, v: &serde_yaml::Value) -> (r: Option<String>)
    ensures
        match entry_prop((yaml_tree(*k), yaml_tree(*v))) {
            Some(p) => r matches Some(x) && x@ == p,
            None => r is None,
        },
{
    let key = match crate::yaml::string_variant(k) {
        Some(key) => key,
        None => {
            return None;
        },
    };
    let kc = chars_of(key.as_str());
    let vc = chars_of("vaultiel");
    if crate::text::same_chars(kc.as_slice(), vc.as_slice()) {
        return None;
    }
    let name = concat(sanitize_property_name(key.as_str()), ": ");
    match crate::yaml::string_variant(v) {
        Some(sv) => {
            return Some(concat(name, quote(sv.as_str()).as_str()));
        },
        None => {},
    }
    match crate::yaml::bool_variant(v) {
        Some(b) => {
            return Some(concat(name, if b { "true" } else { "false" }));
        },
        None => {},
    }
    match crate::yaml::number_as_i64(v) {
        Some(i) => {
            return Some(concat(name, int_string(i).as_str()));
        },
        None => {},
    }
    match crate::yaml::number_f64_text(v) {
        Some(f) => Some(concat(name, f.as_str())),
        None => None,
    }
}

fn fm_props_exec(c: &str, out: &mut Vec<String>)
    ensures
        strings_view(final(out)@) == strings_view(old(out)@) + fm_props(c@),
{
    let ghost start = strings_view(out@);
    let fm = match crate::parser::frontmatter::parse_frontmatter(c) {
        Ok(Some(fm)) => fm,
        _ => {
            assert(strings_view(out@) =~= start + fm_props(c@));
            return ;
        },
    };
    let m = match crate::yaml::mapping_variant(&fm) {
        Some(m) => m,
        None => {
            assert(strings_view(out@) =~= start + fm_props(c@));
            return ;
        },
    };
    let ghost es = crate::yaml::mapping_entries(*m);
    let entries = crate::yaml::mapping_entries_vec(m);
    let mut j: usize = 0;
    proof {
        assert(entry_props(es.subrange(0, 0)) =~= Seq::<Seq<char>>::empty());
        assert(strings_view(out@) =~= start + entry_props(es.subrange(0, 0)));
    }
    while j < entries.len()
        invariant
            j <= entries@.len(),
            entries@.len() == es.len(),
            forall|k: int|
                0 <= k < es.len() ==> yaml_tree((#[trigger] entries@[k]).0) == es[k].0 && yaml_tree(
                    entries@[k].1,
                ) == es[k].1,
            strings_view(out@) == start + entry_props(es.subrange(0, j as int)),
        decreases entries@.len() - j,
    {
        let e = &entries[j];
        proof {
            assert(entries@[j as int] == *e);
            assert(es.subrange(0, j + 1).drop_last() =~= es.subrange(0, j as int));
            assert(es.subrange(0, j + 1).last() == es[j as int]);
            assert(es[j as int] == (yaml_tree(e.0), yaml_tree(e.1)));
        }
        let ghost o0 = strings_view(out@);
        match entry_prop_exec(&e.0, &e.1) {
            Some(p) => {
                push_line(out, p);
            },
            None => {},
        }
        proof {
            assert(strings_view(out@) =~= start + entry_props(es.subrange(0, j + 1)));
        }
        j = j + 1;
    }
    proof {
        assert(es.subrange(0, j as int) =~= es);
    }
}

fn heading_lines_exec(o: &CypherOptions, p: &String, c: &str, out: &mut Vec<String>)
    ensures
        strings_view(final(out)@) == strings_view(old(out)@) + heading_lines(*o, p@, spec_headings(c@)),
{
    let hs = parse_headings(c);
    let ghost hv = spec_headings(c@);
    let ghost start = strings_view(out@);
    let kw = keyword_exec(o);
    let mut k: usize = 0;
    proof {
        assert(strings_view(out@) =~= start + heading_lines(*o, p@, hv.subrange(0, 0)));
    }
    while k < hs.len()
        invariant
            k <= hs@.len(),
            headings_view(hs@) == hv,
            hv == spec_headings(c@),
            kw@ == keyword(*o),
            strings_view(out@) == start + heading_lines(*o, p@, hv.subrange(0, k as int)),
        decreases hs@.len() - k,
    {
        let h = &hs[k];
        proof {
            assert(hv[k as int] == crate::parser::heading::heading_view(hs@[k as int]));
            assert(hv.subrange(0, k + 1).drop_last() =~= hv.subrange(0, k as int));
        }
        let id = concat(concat(p.clone(), "#"), h.slug.as_str());
        let l1 = concat(lit(kw), " (:Heading {id: ");
        let l1 = concat(l1, quote(id.as_str()).as_str());
        let l1 = concat(l1, ", text: ");
        let l1 = concat(l1, quote(h.text.as_str()).as_str());
        let l1 = concat(l1, ", level: ");
        let l1 = concat(l1, decimal_string(h.level as usize).as_str());
        let l1 = concat(l1, ", slug: ");
        let l1 = concat(l1, quote(h.slug.as_str()).as_str());
        let l1 = concat(l1, "});");
        let l2 = concat(lit("MATCH (n:Note {path: "), quote(p.as_str()).as_str());
        let l2 = concat(l2, "}), (h:Heading {id: ");
        let l2 = concat(l2, quote(id.as_str()).as_str());
        let l2 = concat(l2, "}) ");
        let l2 = concat(l2, kw);
        let l2 = concat(l2, " (n)-[:HAS_HEADING]->(h);");
        push_line(out, l1);
        push_line(out, l2);
        proof {
            assert(strings_view(out@) =~= start + heading_lines(*o, p@, hv.subrange(0, k + 1)));
        }
        k = k + 1;
    }
    proof {
        assert(hv.subrange(0, k as int) =~= hv);
    }
}

fn link_line_exec(o: &CypherOptions, src: &String, li: &LinkInfo, t: &String) -> (r: String)
    ensures
        r@ == link_line(*o, src@, *li, t@),
{
    let l = &li.link;
    let mut props: Vec<String> = Vec::new();
    push_line(&mut props, concat(lit("context: "), quote(li.context.as_string().as_str()).as_str()));
    if l.embed {
        push_line(&mut props, lit("embed: true"));
    }
    match &l.alias {
        Some(a) => push_line(&mut props, concat(lit("alias: "), quote(a.as_str()).as_str())),
        None => {},
    }
    match &l.heading {
        Some(h) => push_line(&mut props, concat(lit("heading: "), quote(h.as_str()).as_str())),
        None => {},
    }
    match &l.block_id {
        Some(b) => push_line(&mut props, concat(lit("blockId: "), quote(b.as_str()).as_str())),
        None => {},
    }
    let kw = keyword_exec(o);
    let r = concat(lit("MATCH (a:Note {path: "), quote(src.as_str()).as_str());
    let r = concat(r, "}), (b:Note {path: ");
    let r = concat(r, quote(t.as_str()).as_str());
    let r = concat(r, "}) ");
    let r = concat(r, kw);
    let r = concat(r, " (a)-[:LINKS_TO {");
    let r = concat(r, join_strings(&props, ", ").as_str());
    let r = concat(r, "}]->(b);");
    proof {
        let ps = link_props(*li);
        assert(strings_view(props@) =~= ps);
    }
    r
}


proof fn lemma_heading_lines_len(o: CypherOptions, p: Seq<char>, hs: Seq<(Seq<char>, int, int, Seq<char>)>)
    ensures
        heading_lines(o, p, hs).len() == 2 * hs.len(),
    decreases hs.len(),
{
    if hs.len() > 0 {
        lemma_heading_lines_len(o, p, hs.drop_last());
    }
}

proof fn lemma_all_heading_lines_len(o: CypherOptions, ns: Seq<NoteSource>)
    ensures
        all_heading_lines(o, ns).len() == 2 * heading_count(ns),
    decreases ns.len(),
{
    if ns.len() > 0 {
        lemma_all_heading_lines_len(o, ns.drop_last());
        match ns.last().loaded {
            Ok(c) => lemma_heading_lines_len(o, ns.last().path@, spec_headings(c@)),
            Err(_) => {},
        }
    }
}

fn header_exec(root: &str, n: usize, o: &CypherOptions, out: &mut Vec<String>)
    ensures
        strings_view(final(out)@) == strings_view(old(out)@) + header_section(root@, n as nat, *o),
{
    let ghost start = strings_view(out@);
    push_line(out, lit("// Vaultiel Graph Export - Neo4j Cypher"));
    push_line(out, concat(lit("// Vault: "), root));
    push_line(out, concat(lit("// Notes: "), decimal_string(n).as_str()));
    push_line(out, String::new());
    if o.use_merge {
        push_line(out, lit("// Constraints (run once)"));
        push_line(
            out,
            lit("CREATE CONSTRAINT note_path IF NOT EXISTS FOR (n:Note) REQUIRE n.path IS UNIQUE;"),
        );
        if o.include_tags {
            push_line(
                out,
                lit("CREATE CONSTRAINT tag_name IF NOT EXISTS FOR (t:Tag) REQUIRE t.name IS UNIQUE;"),
            );
        }
        push_line(out, String::new());
    }
    proof {
        assert(strings_view(out@) =~= start + header_section(root@, n as nat, *o));
    }
}

fn tag_section_exec(o: &CypherOptions, tags: &Vec<String>, out: &mut Vec<String>)
    ensures
        strings_view(final(out)@) == strings_view(old(out)@) + tag_section(*o, strings_view(tags@)),
{
    let ghost start = strings_view(out@);
    let ghost tv = strings_view(tags@);
    let kw = keyword_exec(o);
    if o.include_tags && tags.len() > 0 {
        push_line(out, lit("// Tag nodes"));
        let ghost before = strings_view(out@);
        let mut k: usize = 0;
        while k < tags.len()
            invariant
                k <= tags@.len(),
                tv == strings_view(tags@),
                kw@ == keyword(*o),
                strings_view(out@) == before + tv.subrange(0, k as int).map_values(
                    |t: Seq<char>| tag_node_line(*o, t),
                ),
            decreases tags@.len() - k,
        {
            let line = concat(lit(kw), " (:Tag {name: ");
            let line = concat(line, quote(tags[k].as_str()).as_str());
            let line = concat(line, "});");
            push_line(out, line);
            proof {
                assert(tv[k as int] == tags@[k as int]@);
                assert(tv.subrange(0, k + 1).map_values(|t: Seq<char>| tag_node_line(*o, t))
                    =~= tv.subrange(0, k as int).map_values(|t: Seq<char>| tag_node_line(*o, t)).push(
                    tag_node_line(*o, tv[k as int]),
                ));
            }
            k = k + 1;
        }
        proof {
            assert(tv.subrange(0, k as int) =~= tv);
        }
        push_line(out, String::new());
    }
    proof {
        assert(strings_view(out@) =~= start + tag_section(*o, tv));
    }
}

fn note_section_exec(o: &CypherOptions, notes: &[NoteSource], out: &mut Vec<String>)
    ensures
        strings_view(final(out)@) == strings_view(old(out)@) + note_section(*o, notes@),
{
    let ghost start = strings_view(out@);
    let kw = keyword_exec(o);
    push_line(out, lit("// Note nodes"));
    let ghost before_notes = strings_view(out@);
    let mut i: usize = 0;
    while i < notes.len()
        invariant
            i <= notes@.len(),
            kw@ == keyword(*o),
            strings_view(out@) == before_notes + note_node_lines(*o, notes@.subrange(0, i as int)),
        decreases notes@.len() - i,
    {
        let n = &notes[i];
        proof {
            assert(notes@.subrange(0, i + 1).drop_last() =~= notes@.subrange(0, i as int));
            assert(notes@.subrange(0, i + 1).last() == *n);
        }
        let mut props: Vec<String> = Vec::new();
        push_line(&mut props, concat(lit("path: "), quote(n.path.as_str()).as_str()));
        let name = match crate::text::file_stem_of(n.path.as_str()) {
            Some(st) => st,
            None => lit("unknown"),
        };
        push_line(&mut props, concat(lit("name: "), quote(name.as_str()).as_str()));
        if o.include_frontmatter {
            match &n.loaded {
                Ok(c) => fm_props_exec(c.as_str(), &mut props),
                Err(_) => {},
            }
        }
        proof {
            assert(strings_view(props@) =~= note_props(*o, *n));
        }
        let line = concat(lit(kw), " (:Note {");
        let line = concat(line, join_strings(&props, ", ").as_str());
        let line = concat(line, "});");
        push_line(out, line);
        i = i + 1;
    }
    proof {
        assert(notes@.subrange(0, i as int) =~= notes@);
    }
    push_line(out, String::new());
    proof {
        assert(strings_view(out@) =~= start + note_section(*o, notes@));
    }
}

fn heading_section_exec(o: &CypherOptions, notes: &[NoteSource], out: &mut Vec<String>) -> (count: usize)
    ensures
        strings_view(final(out)@) == strings_view(old(out)@) + heading_section(*o, notes@),
        count == (if o.include_headings {
            heading_count(notes@)
        } else {
            0
        }),
{
    let ghost start = strings_view(out@);
    let mut count: usize = 0;
    if o.include_headings {
        push_line(out, lit("// Heading nodes and relationships"));
        let start_len = out.len();
        let ghost before = strings_view(out@);
        let mut i: usize = 0;
        while i < notes.len()
            invariant
                i <= notes@.len(),
                start_len == before.len(),
                strings_view(out@) == before + all_heading_lines(*o, notes@.subrange(0, i as int)),
            decreases notes@.len() - i,
        {
            let n = &notes[i];
            proof {
                assert(notes@.subrange(0, i + 1).drop_last() =~= notes@.subrange(0, i as int));
                assert(notes@.subrange(0, i + 1).last() == *n);
            }
            match &n.loaded {
                Ok(c) => heading_lines_exec(o, &n.path, c.as_str(), out),
                Err(_) => {},
            }
            proof {
                assert(strings_view(out@) =~= before + all_heading_lines(*o, notes@.subrange(0, i + 1)));
            }
            i = i + 1;
        }
        proof {
            assert(notes@.subrange(0, i as int) =~= notes@);
            lemma_all_heading_lines_len(*o, notes@);
        }
        count = (out.len() - start_len) / 2;
        push_line(out, String::new());
    }
    proof {
        assert(strings_view(out@) =~= start + heading_section(*o, notes@));
    }
    count
}

fn tag_rel_section_exec(o: &CypherOptions, notes: &[NoteSource], out: &mut Vec<String>) -> (count: usize)
    ensures
        strings_view(final(out)@) == strings_view(old(out)@) + tag_rel_section(*o, notes@),
        count == (if o.include_tags {
            all_tag_rel_lines(*o, notes@).len() as int
        } else {
            0
        }),
{
    let ghost start = strings_view(out@);
    let kw = keyword_exec(o);
    let mut count: usize = 0;
    if o.include_tags {
        push_line(out, lit("// Tag relationships"));
        let start_len = out.len();
        let ghost before = strings_view(out@);
        let mut i: usize = 0;
        while i < notes.len()
            invariant
                i <= notes@.len(),
                kw@ == keyword(*o),
                start_len == before.len(),
                strings_view(out@) == before + all_tag_rel_lines(*o, notes@.subrange(0, i as int)),
            decreases notes@.len() - i,
        {
            let n = &notes[i];
            proof {
                assert(notes@.subrange(0, i + 1).drop_last() =~= notes@.subrange(0, i as int));
                assert(notes@.subrange(0, i + 1).last() == *n);
            }
            match &n.loaded {
                Ok(c) => {
                    let ts = content_tags_list(c.as_str());
                    let ghost tsv = strings_view(ts@);
                    let ghost b2 = strings_view(out@);
                    let mut k: usize = 0;
                    while k < ts.len()
                        invariant
                            k <= ts@.len(),
                            tsv == strings_view(ts@),
                            kw@ == keyword(*o),
                            strings_view(out@) == b2 + tag_rel_lines(*o, n.path@, tsv.subrange(0, k as int)),
                        decreases ts@.len() - k,
                    {
                        let line = concat(lit("MATCH (n:Note {path: "), quote(n.path.as_str()).as_str());
                        let line = concat(line, "}), (t:Tag {name: ");
                        let line = concat(line, quote(ts[k].as_str()).as_str());
                        let line = concat(line, "}) ");
                        let line = concat(line, kw);
                        let line = concat(line, " (n)-[:TAGGED]->(t);");
                        push_line(out, line);
                        proof {
                            assert(tsv[k as int] == ts@[k as int]@);
                            assert(tag_rel_lines(*o, n.path@, tsv.subrange(0, k + 1)) =~= tag_rel_lines(
                                *o,
                                n.path@,
                                tsv.subrange(0, k as int),
                            ).push(
                                "MATCH (n:Note {path: "@ + quoted(n.path@) + "}), (t:Tag {name: "@ + quoted(
                                    tsv[k as int],
                                ) + "}) "@ + keyword(*o) + " (n)-[:TAGGED]->(t);"@,
                            ));
                        }
                        k = k + 1;
                    }
                    proof {
                        assert(tsv.subrange(0, k as int) =~= tsv);
                    }
                },
                Err(_) => {},
            }
            proof {
                assert(strings_view(out@) =~= before + all_tag_rel_lines(*o, notes@.subrange(0, i + 1)));
            }
            i = i + 1;
        }
        proof {
            assert(notes@.subrange(0, i as int) =~= notes@);
        }
        count = out.len() - start_len;
        push_line(out, String::new());
    }
    proof {
        assert(strings_view(out@) =~= start + tag_rel_section(*o, notes@));
    }
    count
}

fn link_section_exec(
    o: &CypherOptions,
    notes: &[NoteSource],
    graph: &LinkGraph,
    resolved: &StrMap<String>,
    out: &mut Vec<String>,
) -> (count: usize)
    requires
        graph.wf(),
        resolved.wf(),
    ensures
        strings_view(final(out)@) == strings_view(old(out)@) + all_link_lines(
            *o,
            notes@,
            *graph,
            resolved.view(),
        ),
        count == all_link_lines(*o, notes@, *graph, resolved.view()).len(),
{
    let links_start = out.len();
    let ghost before_links = strings_view(out@);
    let mut i: usize = 0;
    proof {
        assert(strings_view(out@) =~= before_links + all_link_lines(
            *o,
            notes@.subrange(0, 0),
            *graph,
            resolved.view(),
        ));
    }
    while i < notes.len()
        invariant
            i <= notes@.len(),
            graph.wf(),
            resolved.wf(),
            links_start == before_links.len(),
            strings_view(out@) == before_links + all_link_lines(
                *o,
                notes@.subrange(0, i as int),
                *graph,
                resolved.view(),
            ),
        decreases notes@.len() - i,
    {
        let n = &notes[i];
        proof {
            assert(notes@.subrange(0, i + 1).drop_last() =~= notes@.subrange(0, i as int));
            assert(notes@.subrange(0, i + 1).last() == *n);
        }
        let outgoing = graph.get_outgoing(n.path.as_str());
        let ghost infos = crate::health::run::outgoing_of(*graph, n.path@);
        let ghost b2 = strings_view(out@);
        let mut k: usize = 0;
        proof {
            assert(info_refs(outgoing@) == infos);
            assert(infos.subrange(0, 0) =~= Seq::<LinkInfo>::empty());
            assert(strings_view(out@) =~= b2 + note_link_lines(*o, n.path@, infos.subrange(0, 0), resolved.view()));
        }
        while k < outgoing.len()
            invariant
                k <= outgoing@.len(),
                resolved.wf(),
                info_refs(outgoing@) == infos,
                strings_view(out@) == b2 + note_link_lines(
                    *o,
                    n.path@,
                    infos.subrange(0, k as int),
                    resolved.view(),
                ),
            decreases outgoing@.len() - k,
        {
            let li = outgoing[k];
            proof {
                assert(infos[k as int] == *li);
                assert(infos.subrange(0, k + 1).drop_last() =~= infos.subrange(0, k as int));
            }
            match resolved.get(li.link.target.as_str()) {
                Some(t) => {
                    let line = link_line_exec(o, &n.path, li, t);
                    push_line(out, line);
                },
                None => {},
            }
            proof {
                assert(strings_view(out@) =~= b2 + note_link_lines(
                    *o,
                    n.path@,
                    infos.subrange(0, k + 1),
                    resolved.view(),
                ));
            }
            k = k + 1;
        }
        proof {
            assert(infos.subrange(0, k as int) =~= infos);
            assert(strings_view(out@) =~= before_links + all_link_lines(
                *o,
                notes@.subrange(0, i + 1),
                *graph,
                resolved.view(),
            ));
        }
        i = i + 1;
    }
    proof {
        assert(notes@.subrange(0, i as int) =~= notes@);
    }
    out.len() - links_start
}

/// Export the link graph of a vault as Neo4j Cypher statements.
///
/// `root` is the vault's root as displayed, `notes` the vault's notes as
/// loaded, `graph` their link graph, and `resolved` the note path each link
/// target resolves to in the vault (a target that resolves nowhere is
/// absent). Tags come in order of first appearance, headings and tag
/// relations note by note.
pub fn export_cypher(
    root: &str,
    notes: &[NoteSource],
    graph: &LinkGraph,
    resolved: &StrMap<String>,
    options: &CypherOptions,
) -> (r: (String, ExportStats))
    requires
        graph.wf(),
        resolved.wf(),
    ensures
        r.0@ == text_of_lines(cypher_lines(root@, notes@, *graph, resolved.view(), *options)),
        r.1.notes_created == notes@.len(),
        r.1.links_created == all_link_lines(*options, notes@, *graph, resolved.view()).len(),
        r.1.tags_created == (if options.include_tags {
            all_tags(notes@).len() as int
        } else {
            0
        }),
        r.1.tag_relationships == (if options.include_tags {
            all_tag_rel_lines(*options, notes@).len() as int
        } else {
            0
        }),
        r.1.headings_created == (if options.include_headings {
            heading_count(notes@)
        } else {
            0
        }),
{
    let o = options;
    let tags = all_tags_exec(notes);
    let mut out: Vec<String> = Vec::new();
    header_exec(root, notes.len(), o, &mut out);
    tag_section_exec(o, &tags, &mut out);
    let tags_created: usize = if o.include_tags {
        tags.len()
    } else {
        0
    };
    note_section_exec(o, notes, &mut out);
    let headings_created = heading_section_exec(o, notes, &mut out);
    let tag_relationships = tag_rel_section_exec(o, notes, &mut out);
    push_line(&mut out, lit("// Link relationships"));
    let ghost s6 = strings_view(out@);
    let links_created = link_section_exec(o, notes, graph, resolved, &mut out);
    let ghost s7 = strings_view(out@);
    push_line(&mut out, String::new());
    push_line(&mut out, lit("// Export complete"));
    let last = concat(lit("// Notes: "), decimal_string(notes.len()).as_str());
    let last = concat(last, ", Links: ");
    let last = concat(last, decimal_string(links_created).as_str());
    let last = concat(last, ", Tags: ");
    let last = concat(last, decimal_string(tags_created).as_str());
    let last = concat(last, ", Headings: ");
    let last = concat(last, decimal_string(headings_created).as_str());
    push_line(&mut out, last);
    proof {
        let links = all_link_lines(*o, notes@, *graph, resolved.view());
        let n_tags: nat = if o.include_tags {
            all_tags(notes@).len()
        } else {
            0
        };
        let n_headings: nat = if o.include_headings {
            heading_count(notes@) as nat
        } else {
            0
        };
        assert(strings_view(out@) =~= s7 + footer_section(notes@.len(), links.len(), n_tags, n_headings));
        assert(strings_view(out@) =~= cypher_lines(root@, notes@, *graph, resolved.view(), *o));
    }
    let text = lines_text(&out);
    (
        text,
        ExportStats {
            notes_created: notes.len(),
            links_created,
            tags_created,
            tag_relationships,
            headings_created,
        },
    )
}
} // verus!
