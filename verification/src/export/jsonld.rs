//! JSON-LD export: the document's nodes. Turning them into JSON text is
//! left to the caller.

use vstd::prelude::*;
use crate::export::cypher::{content_tags, push_line};
use crate::graph::link_graph::{info_refs, LinkGraph, LinkInfo, NoteSource};
use crate::graph::resolution::strings_view;
use crate::parser::frontmatter::spec_frontmatter_value;
use crate::parser::heading::{headings_view, parse_headings, spec_headings};
use crate::str_map::StrMap;
use crate::text::{chars_of, concat, lit, path_file_stem};
use crate::types::context_text;
use crate::yaml::{yaml_as_i64, yaml_f64_text, yaml_tree, YamlV};

verus! {

/// Settings of a JSON-LD export.
#[derive(Debug, Clone)]
pub struct JsonLdOptions {
    /// Include note tags.
    pub include_tags: bool,
    /// Include headings.
    pub include_headings: bool,
    /// Include frontmatter properties.
    pub include_frontmatter: bool,
    /// Base URI of the graph (e.g. `https://example.com/vault/`).
    pub base_uri: Option<String>,
    /// Pretty-print the JSON output.
    pub pretty: bool,
}

impl Default for JsonLdOptions {
    fn default() -> (r: JsonLdOptions)
        ensures
            !r.include_tags,
            !r.include_headings,
            !r.include_frontmatter,
            r.base_uri is None,
            !r.pretty,
    {
        JsonLdOptions {
            include_tags: false,
            include_headings: false,
            include_frontmatter: false,
            base_uri: None,
            pretty: false,
        }
    }
}

/// Counts of what a JSON-LD export wrote.
#[derive(Debug, Clone)]
pub struct ExportStats {
    /// Note nodes written.
    pub notes_created: usize,
    /// Link relations written.
    pub links_created: usize,
}

impl Default for ExportStats {
    fn default() -> (r: ExportStats)
        ensures
            r.notes_created == 0,
            r.links_created == 0,
    {
        ExportStats { notes_created: 0, links_created: 0 }
    }
}


// ---------------------------------------------------------------------------
// The document
// ---------------------------------------------------------------------------

/// A scalar frontmatter value as a JSON value: a string, a boolean, an
/// integer, or a float given by its decimal text.
#[derive(Debug, Clone)]
pub enum JsonScalar {
    Str(String),
    Bool(bool),
    Int(i64),
    Float(String),
}

/// A heading of a note node.
#[derive(Debug, Clone)]
pub struct JsonLdHeading {
    pub text: String,
    pub level: u32,
    pub slug: String,
}

/// A link of a note node.
#[derive(Debug, Clone)]
pub struct JsonLdLink {
    /// `@id` of the target note.
    pub target_id: String,
    /// The link's context (`body`, `task`, ...).
    pub context: String,
    pub embed: bool,
    pub alias: Option<String>,
    pub target_heading: Option<String>,
    pub target_block: Option<String>,
}

/// A note node of the graph. Its JSON object holds `@id`, `@type` (`Note`),
/// `path` and `name`, then the frontmatter properties in order (each
/// setting its key), then `tags`, `headings` and `linksTo` when present.
#[derive(Debug, Clone)]
pub struct JsonLdNode {
    pub id: String,
    pub path: String,
    pub name: String,
    pub properties: Vec<(String, JsonScalar)>,
    pub tags: Option<Vec<String>>,
    pub headings: Option<Vec<JsonLdHeading>>,
    pub links: Option<Vec<JsonLdLink>>,
}

/// A JSON scalar as plain values.
pub enum ScalarV {
    Str(Seq<char>),
    Bool(bool),
    Int(int),
    Float(Seq<char>),
}

pub open spec fn scalar_view(x: JsonScalar) -> ScalarV {
    match x {
        JsonScalar::Str(s) => ScalarV::Str(s@),
        JsonScalar::Bool(b) => ScalarV::Bool(b),
        JsonScalar::Int(i) => ScalarV::Int(i as int),
        JsonScalar::Float(f) => ScalarV::Float(f@),
    }
}

/// An uppercase hexadecimal digit.
pub open spec fn hex_digit(n: int) -> char {
    if n < 10 {
        (('0' as int) + n) as char
    } else {
        (('A' as int) + n - 10) as char
    }
}

/// `%` and the two hexadecimal digits of a byte.
pub open spec fn pct(b: int) -> Seq<char> {
    seq!['%', hex_digit(b / 16), hex_digit(b % 16)]
}

/// A character as `urlencoding` writes it: ASCII letters, digits and
/// `-._~` as they are; any other character as its UTF-8 bytes, each
/// percent-encoded.
pub open spec fn url_char(c: char) -> Seq<char> {
    let v = c as int;
    if crate::text::is_ascii_alnum(c) || c == '-' || c == '.' || c == '_' || c == '~' {
        seq![c]
    } else if v < 0x80 {
        pct(v)
    } else if v < 0x800 {
        pct(0xC0 + v / 64) + pct(0x80 + v % 64)
    } else if v < 0x10000 {
        pct(0xE0 + v / 4096) + pct(0x80 + (v / 64) % 64) + pct(0x80 + v % 64)
    } else {
        pct(0xF0 + v / 262144) + pct(0x80 + (v / 4096) % 64) + pct(0x80 + (v / 64) % 64) + pct(0x80 + v % 64)
    }
}

/// `urlencoding::encode` of a text: each character as [`url_char`] writes
/// it.
pub open spec fn url_encoded(s: Seq<char>) -> Seq<char>
    decreases s.len(),
{
    if s.len() == 0 {
        Seq::empty()
    } else {
        url_encoded(s.drop_last()) + url_char(s.last())
    }
}

/// `urlencoding::encode`.
#[verifier::external_body]
fn url_encode(s: &str) -> (r: String)
    ensures
        r@ == url_encoded(s@),
{
    urlencoding::encode(s).into_owned()
}

/// The base URI of the graph: the one given, or `file://ROOT/`.
pub open spec fn base_uri_of(o: JsonLdOptions, root: Seq<char>) -> Seq<char> {
    match o.base_uri {
        Some(b) => b@,
        None => "file://"@ + root + "/"@,
    }
}

/// The `@id` of a note.
pub open spec fn note_uri(base: Seq<char>, p: Seq<char>) -> Seq<char> {
    base + "note/"@ + url_encoded(p)
}

/// The JSON value of a frontmatter entry: string, boolean and number
/// values under string keys other than `vaultiel`.
pub open spec fn entry_json(e: (YamlV, YamlV)) -> Option<(Seq<char>, ScalarV)> {
    match e.0 {
        YamlV::Str(k) => if k == "vaultiel"@ {
            None
        } else {
            match e.1 {
                YamlV::Str(v) => Some((k, ScalarV::Str(v))),
                YamlV::Bool(b) => Some((k, ScalarV::Bool(b))),
                YamlV::Number(t) => match yaml_as_i64(t) {
                    Some(i) => Some((k, ScalarV::Int(i as int))),
                    None => match yaml_f64_text(t) {
                        Some(f) => Some((k, ScalarV::Float(f))),
                        None => None,
                    },
                },
                _ => None,
            }
        },
        _ => None,
    }
}

pub open spec fn entries_json(es: Seq<(YamlV, YamlV)>) -> Seq<(Seq<char>, ScalarV)>
    decreases es.len(),
{
    if es.len() == 0 {
        Seq::empty()
    } else {
        entries_json(es.drop_last()) + match entry_json(es.last()) {
            Some(p) => seq![p],
            None => Seq::<(Seq<char>, ScalarV)>::empty(),
        }
    }
}

/// The frontmatter properties of a note's content.
pub open spec fn fm_json(c: Seq<char>) -> Seq<(Seq<char>, ScalarV)> {
    match spec_frontmatter_value(c) {
        Ok(Some(YamlV::Mapping(es))) => entries_json(es),
        _ => Seq::empty(),
    }
}

pub open spec fn props_view(v: Seq<(String, JsonScalar)>) -> Seq<(Seq<char>, ScalarV)> {
    v.map_values(|p: (String, JsonScalar)| (p.0@, scalar_view(p.1)))
}

pub open spec fn opt_view(o: Option<String>) -> Option<Seq<char>> {
    match o {
        Some(t) => Some(t@),
        None => None,
    }
}

/// `jl` is the link object of the outgoing link `li` whose target
/// resolves to `t`.
pub open spec fn link_is(jl: JsonLdLink, base: Seq<char>, li: LinkInfo, t: Seq<char>) -> bool {
    &&& jl.target_id@ == note_uri(base, t)
    &&& jl.context@ == context_text(li.context)
    &&& jl.embed == li.link.embed
    &&& opt_view(jl.alias) == opt_view(li.link.alias)
    &&& opt_view(jl.target_heading) == opt_view(li.link.heading)
    &&& opt_view(jl.target_block) == opt_view(li.link.block_id)
}

/// The outgoing links whose targets resolve, with their targets.
pub open spec fn resolved_links(infos: Seq<LinkInfo>, resolved: Map<Seq<char>, String>) -> Seq<
    (LinkInfo, Seq<char>),
>
    decreases infos.len(),
{
    if infos.len() == 0 {
        Seq::empty()
    } else {
        let li = infos.last();
        resolved_links(infos.drop_last(), resolved) + if resolved.contains_key(li.link.target@) {
            seq![(li, resolved[li.link.target@]@)]
        } else {
            Seq::<(LinkInfo, Seq<char>)>::empty()
        }
    }
}

/// `n` is the node of the note `src`.
pub open spec fn node_is(
    n: JsonLdNode,
    o: JsonLdOptions,
    base: Seq<char>,
    src: NoteSource,
    g: LinkGraph,
    resolved: Map<Seq<char>, String>,
) -> bool {
    let p = src.path@;
    let rl = resolved_links(crate::health::run::outgoing_of(g, p), resolved);
    &&& n.id@ == note_uri(base, p)
    &&& n.path@ == p
    &&& n.name@ == (match path_file_stem(p) {
        Some(st) => st,
        None => "unknown"@,
    })
    &&& props_view(n.properties@) == (if o.include_frontmatter {
        match src.loaded {
            Ok(c) => fm_json(c@),
            Err(_) => Seq::empty(),
        }
    } else {
        Seq::empty()
    })
    &&& match n.tags {
        Some(ts) => o.include_tags && (src.loaded matches Ok(c) && strings_view(ts@) == content_tags(c@)
            && ts@.len() > 0),
        None => !(o.include_tags && (src.loaded matches Ok(c) && content_tags(c@).len() > 0)),
    }
    &&& match n.headings {
        Some(hs) => o.include_headings && (src.loaded matches Ok(c) && hs@.len() == spec_headings(c@).len()
            && hs@.len() > 0 && forall|k: int|
            0 <= k < hs@.len() ==> (#[trigger] hs@[k]).text@ == spec_headings(c@)[k].0 && hs@[k].level
                == spec_headings(c@)[k].1 && hs@[k].slug@ == spec_headings(c@)[k].3),
        None => !(o.include_headings && (src.loaded matches Ok(c) && spec_headings(c@).len() > 0)),
    }
    &&& match n.links {
        Some(ls) => ls@.len() == rl.len() && ls@.len() > 0 && forall|k: int|
            0 <= k < ls@.len() ==> link_is(#[trigger] ls@[k], base, rl[k].0, rl[k].1),
        None => rl.len() == 0,
    }
}

/// The number of resolved links of the notes.
pub open spec fn links_total(ns: Seq<NoteSource>, g: LinkGraph, resolved: Map<Seq<char>, String>) -> int
    decreases ns.len(),
{
    if ns.len() == 0 {
        0
    } else {
        links_total(ns.drop_last(), g, resolved) + resolved_links(
            crate::health::run::outgoing_of(g, ns.last().path@),
            resolved,
        ).len()
    }
}

proof fn lemma_links_total_prefix(ns: Seq<NoteSource>, g: LinkGraph, resolved: Map<Seq<char>, String>, i: int)
    requires
        0 <= i <= ns.len(),
    ensures
        0 <= links_total(ns.subrange(0, i), g, resolved) <= links_total(ns, g, resolved),
    decreases ns.len(),
{
    if i < ns.len() {
        assert(ns.drop_last().subrange(0, i) =~= ns.subrange(0, i));
        lemma_links_total_prefix(ns.drop_last(), g, resolved, i);
    } else {
        assert(ns.subrange(0, i) =~= ns);
        lemma_links_total_nonneg(ns, g, resolved);
    }
}

proof fn lemma_links_total_nonneg(ns: Seq<NoteSource>, g: LinkGraph, resolved: Map<Seq<char>, String>)
    ensures
        0 <= links_total(ns, g, resolved),
    decreases ns.len(),
{
    if ns.len() > 0 {
        lemma_links_total_nonneg(ns.drop_last(), g, resolved);
    }
}

fn scalar_of(k: &serde_yaml::Value, v: &serde_yaml::Value) -> (r: Option<(String, JsonScalar)>)
    ensures
        match entry_json((yaml_tree(*k), yaml_tree(*v))) {
            Some(p) => r matches Some(x) && x.0@ == p.0 && scalar_view(x.1) == p.1,
            None => r is None,
        },
{
    let key = match crate::yaml::string_variant(k) {
        Some(key) => key,
        None => {
            return None;
        },
    };
    let kc = chars_of(key.as_str());
    let vc = chars_of("vaultiel");
    if crate::text::same_chars(kc.as_slice(), vc.as_slice()) {
        return None;
    }
    match crate::yaml::string_variant(v) {
        Some(sv) => {
            return Some((key.clone(), JsonScalar::Str(sv.clone())));
        },
        None => {},
    }
    match crate::yaml::bool_variant(v) {
        Some(b) => {
            return Some((key.clone(), JsonScalar::Bool(b)));
        },
        None => {},
    }
    match crate::yaml::number_as_i64(v) {
        Some(i) => {
            return Some((key.clone(), JsonScalar::Int(i)));
        },
        None => {},
    }
    match crate::yaml::number_f64_text(v) {
        Some(f) => Some((key.clone(), JsonScalar::Float(f))),
        None => None,
    }
}

fn fm_json_exec(c: &str) -> (r: Vec<(String, JsonScalar)>)
    ensures
        props_view(r@) == fm_json(c@),
{
    let mut out: Vec<(String, JsonScalar)> = Vec::new();
    let fm = match crate::parser::frontmatter::parse_frontmatter(c) {
        Ok(Some(fm)) => fm,
        _ => {
            assert(props_view(out@) =~= fm_json(c@));
            return out;
        },
    };
    let m = match crate::yaml::mapping_variant(&fm) {
        Some(m) => m,
        None => {
            assert(props_view(out@) =~= fm_json(c@));
            return out;
        },
    };
    let ghost es = crate::yaml::mapping_entries(*m);
    let entries = crate::yaml::mapping_entries_vec(m);
    let mut j: usize = 0;
    proof {
        assert(entries_json(es.subrange(0, 0)) =~= Seq::<(Seq<char>, ScalarV)>::empty());
        assert(props_view(out@) =~= entries_json(es.subrange(0, 0)));
    }
    while j < entries.len()
        invariant
            j <= entries@.len(),
            entries@.len() == es.len(),
            forall|k: int|
                0 <= k < es.len() ==> yaml_tree((#[trigger] entries@[k]).0) == es[k].0 && yaml_tree(
                    entries@[k].1,
                ) == es[k].1,
            props_view(out@) == entries_json(es.subrange(0, j as int)),
        decreases entries@.len() - j,
    {
        let e = &entries[j];
        proof {
            assert(entries@[j as int] == *e);
            assert(es.subrange(0, j + 1).drop_last() =~= es.subrange(0, j as int));
            assert(es.subrange(0, j + 1).last() == es[j as int]);
            assert(es[j as int] == (yaml_tree(e.0), yaml_tree(e.1)));
        }
        let ghost o0 = props_view(out@);
        match scalar_of(&e.0, &e.1) {
            Some(p) => {
                out.push(p);
                proof {
                    assert(props_view(out@) =~= o0.push((p.0@, scalar_view(p.1))));
                }
            },
            None => {},
        }
        proof {
            assert(props_view(out@) =~= entries_json(es.subrange(0, j + 1)));
        }
        j = j + 1;
    }
    proof {
        assert(es.subrange(0, j as int) =~= es);
    }
    out
}

/// The node of one note, with the number of its links.
fn note_node(
    n: &NoteSource,
    o: &JsonLdOptions,
    base: &String,
    graph: &LinkGraph,
    resolved: &StrMap<String>,
) -> (r: (JsonLdNode, usize))
    requires
        graph.wf(),
        resolved.wf(),
    ensures
        node_is(r.0, *o, base@, *n, *graph, resolved.view()),
        r.1 == resolved_links(crate::health::run::outgoing_of(*graph, n.path@), resolved.view()).len(),
{
    let id = concat(concat(base.clone(), "note/"), url_encode(n.path.as_str()).as_str());
    let name = match crate::text::file_stem_of(n.path.as_str()) {
        Some(st) => st,
        None => lit("unknown"),
    };
    let properties = if o.include_frontmatter {
        match &n.loaded {
            Ok(c) => fm_json_exec(c.as_str()),
            Err(_) => Vec::new(),
        }
    } else {
        Vec::new()
    };
    proof {
        assert(props_view(properties@) =~= (if o.include_frontmatter {
            match n.loaded {
                Ok(c) => fm_json(c@),
                Err(_) => Seq::empty(),
            }
        } else {
            Seq::empty()
        }));
    }
    let mut tags: Option<Vec<String>> = None;
    let mut headings: Option<Vec<JsonLdHeading>> = None;
    match &n.loaded {
        Ok(c) => {
            if o.include_tags {
                let ts = crate::export::cypher::content_tags_list(c.as_str());
                if ts.len() > 0 {
                    tags = Some(ts);
                }
            }
            if o.include_headings {
                let hs = parse_headings(c.as_str());
                let ghost hv = spec_headings(c@);
                let mut out: Vec<JsonLdHeading> = Vec::new();
                let mut k: usize = 0;
                while k < hs.len()
                    invariant
                        k <= hs@.len(),
                        headings_view(hs@) == hv,
                        out@.len() == k,
                        forall|q: int|
                            0 <= q < k ==> (#[trigger] out@[q]).text@ == hv[q].0 && out@[q].level == hv[q].1
                                && out@[q].slug@ == hv[q].3,
                    decreases hs@.len() - k,
                {
                    let h = &hs[k];
                    proof {
                        assert(hv[k as int] == crate::parser::heading::heading_view(hs@[k as int]));
                    }
                    let ghost before = out@;
                    out.push(JsonLdHeading { text: h.text.clone(), level: h.level as u32, slug: h.slug.clone() });
                    proof {
                        assert forall|q: int| 0 <= q < k + 1 implies (#[trigger] out@[q]).text@ == hv[q].0
                            && out@[q].level == hv[q].1 && out@[q].slug@ == hv[q].3 by {
                            if q < k {
                                assert(out@[q] == before[q]);
                            }
                        }
                    }
                    k = k + 1;
                }
                if out.len() > 0 {
                    headings = Some(out);
                }
            }
        },
        Err(_) => {},
    }
    let outgoing = graph.get_outgoing(n.path.as_str());
    let ghost infos = crate::health::run::outgoing_of(*graph, n.path@);
    let mut links: Vec<JsonLdLink> = Vec::new();
    let mut k: usize = 0;
    proof {
        assert(info_refs(outgoing@) == infos);
        assert(infos.subrange(0, 0) =~= Seq::<LinkInfo>::empty());
    }
    while k < outgoing.len()
        invariant
            k <= outgoing@.len(),
            resolved.wf(),
            info_refs(outgoing@) == infos,
            links@.len() == resolved_links(infos.subrange(0, k as int), resolved.view()).len(),
            forall|q: int|
                0 <= q < links@.len() ==> link_is(
                    #[trigger] links@[q],
                    base@,
                    resolved_links(infos.subrange(0, k as int), resolved.view())[q].0,
                    resolved_links(infos.subrange(0, k as int), resolved.view())[q].1,
                ),
        decreases outgoing@.len() - k,
    {
        let li = outgoing[k];
        let ghost pre = resolved_links(infos.subrange(0, k as int), resolved.view());
        proof {
            assert(infos[k as int] == *li);
            assert(infos.subrange(0, k + 1).drop_last() =~= infos.subrange(0, k as int));
            assert(infos.subrange(0, k + 1).last() == *li);
        }
        match resolved.get(li.link.target.as_str()) {
            Some(t) => {
                let target_id = concat(concat(base.clone(), "note/"), url_encode(t.as_str()).as_str());
                let l = &li.link;
                let jl = JsonLdLink {
                    target_id,
                    context: li.context.as_string(),
                    embed: l.embed,
                    alias: match &l.alias {
                        Some(a) => Some(a.clone()),
                        None => None,
                    },
                    target_heading: match &l.heading {
                        Some(h) => Some(h.clone()),
                        None => None,
                    },
                    target_block: match &l.block_id {
                        Some(b) => Some(b.clone()),
                        None => None,
                    },
                };
                let ghost before = links@;
                links.push(jl);
                proof {
                    let post = resolved_links(infos.subrange(0, k + 1), resolved.view());
                    assert(post == pre + seq![(*li, t@)]);
                    assert forall|q: int| 0 <= q < links@.len() implies link_is(
                        #[trigger] links@[q],
                        base@,
                        post[q].0,
                        post[q].1,
                    ) by {
                        if q < before.len() {
                            assert(links@[q] == before[q]);
                            assert(post[q] == pre[q]);
                        }
                    }
                }
            },
            None => {
                proof {
                    assert(resolved_links(infos.subrange(0, k + 1), resolved.view()) =~= pre);
                }
            },
        }
        k = k + 1;
    }
    proof {
        assert(infos.subrange(0, k as int) =~= infos);
    }
    let nl = links.len();
    let links = if links.len() > 0 {
        Some(links)
    } else {
        None
    };
    (JsonLdNode { id, path: n.path.clone(), name, properties, tags, headings, links }, nl)
}

/// Build the note nodes of a JSON-LD export of a vault: one per note, in
/// order, with the counts of what it holds.
///
/// `root` is the vault's root, `notes` the vault's notes as loaded, `graph`
/// their link graph, and `resolved` the note path each link target
/// resolves to in the vault (a target that resolves nowhere is absent).
pub fn export_jsonld(
    root: &str,
    notes: &[NoteSource],
    graph: &LinkGraph,
    resolved: &StrMap<String>,
    options: &JsonLdOptions,
) -> (r: (Vec<JsonLdNode>, ExportStats))
    requires
        graph.wf(),
        resolved.wf(),
        links_total(notes@, *graph, resolved.view()) <= usize::MAX,
    ensures
        r.0@.len() == notes@.len(),
        forall|k: int|
            0 <= k < notes@.len() ==> node_is(
                #[trigger] r.0@[k],
                *options,
                base_uri_of(*options, root@),
                notes@[k],
                *graph,
                resolved.view(),
            ),
        r.1.notes_created == notes@.len(),
        r.1.links_created == links_total(notes@, *graph, resolved.view()),
{
    let base = match &options.base_uri {
        Some(b) => b.clone(),
        None => concat(concat(lit("file://"), root), "/"),
    };
    let mut nodes: Vec<JsonLdNode> = Vec::new();
    let mut links_created: usize = 0;
    let mut i: usize = 0;
    while i < notes.len()
        invariant
            i <= notes@.len(),
            graph.wf(),
            resolved.wf(),
            base@ == base_uri_of(*options, root@),
            nodes@.len() == i,
            forall|k: int|
                0 <= k < i ==> node_is(#[trigger] nodes@[k], *options, base@, notes@[k], *graph, resolved.view()),
            links_created == links_total(notes@.subrange(0, i as int), *graph, resolved.view()),
            links_total(notes@, *graph, resolved.view()) <= usize::MAX,
        decreases notes@.len() - i,
    {
        let n = &notes[i];
        let (node, nl) = note_node(n, options, &base, graph, resolved);
        proof {
            assert(notes@.subrange(0, i + 1).drop_last() =~= notes@.subrange(0, i as int));
            assert(notes@.subrange(0, i + 1).last() == *n);
        }
        proof {
            lemma_links_total_prefix(notes@, *graph, resolved.view(), i + 1);
        }
        links_created = links_created + nl;
        let ghost before = nodes@;
        nodes.push(node);
        proof {
            assert forall|k: int| 0 <= k < i + 1 implies node_is(
                #[trigger] nodes@[k],
                *options,
                base@,
                notes@[k],
                *graph,
                resolved.view(),
            ) by {
                if k < i {
                    assert(nodes@[k] == before[k]);
                }
            }
        }
        i = i + 1;
    }
    proof {
        assert(notes@.subrange(0, i as int) =~= notes@);
    }
    (nodes, ExportStats { notes_created: notes.len(), links_created })
}

/// One term of the JSON-LD `@context`: its name, the IRI it stands for, and
/// the type its values are coerced to (`@id` for references), if any.
#[derive(Debug, Clone)]
pub struct ContextTerm {
    pub term: String,
    pub iri: String,
    pub type_: Option<String>,
}

/// A context term as plain values.
pub open spec fn term_view(t: ContextTerm) -> (Seq<char>, Seq<char>, Option<Seq<char>>) {
    (t.term@, t.iri@, opt_view(t.type_))
}

/// The vocabulary of the export: each term, in order.
pub open spec fn context_terms() -> Seq<(Seq<char>, Seq<char>, Option<Seq<char>>)> {
    seq![
        ("@vocab"@, "https://vaultiel.dev/schema/"@, None),
        ("Note"@, "https://vaultiel.dev/schema/Note"@, None),
        ("Link"@, "https://vaultiel.dev/schema/Link"@, None),
        ("Heading"@, "https://vaultiel.dev/schema/Heading"@, None),
        ("path"@, "https://vaultiel.dev/schema/path"@, Some("@id"@)),
        ("name"@, "https://vaultiel.dev/schema/name"@, None),
        ("tags"@, "https://vaultiel.dev/schema/tags"@, None),
        ("headings"@, "https://vaultiel.dev/schema/headings"@, None),
        ("linksTo"@, "https://vaultiel.dev/schema/linksTo"@, Some("@id"@)),
        ("target"@, "https://vaultiel.dev/schema/target"@, Some("@id"@)),
        ("context"@, "https://vaultiel.dev/schema/context"@, None),
        ("alias"@, "https://vaultiel.dev/schema/alias"@, None),
        ("embed"@, "https://vaultiel.dev/schema/embed"@, None),
        ("targetHeading"@, "https://vaultiel.dev/schema/targetHeading"@, None),
        ("targetBlock"@, "https://vaultiel.dev/schema/targetBlock"@, None),
        ("text"@, "https://vaultiel.dev/schema/text"@, None),
        ("level"@, "https://vaultiel.dev/schema/level"@, None),
        ("slug"@, "https://vaultiel.dev/schema/slug"@, None)
    ]
}

/// The `@context` of the JSON-LD document: the export's vocabulary.
pub fn jsonld_context() -> (r: Vec<ContextTerm>)
    ensures
        r@.map_values(|t: ContextTerm| term_view(t)) == context_terms(),
{
    let mut r: Vec<ContextTerm> = Vec::new();
    r.push(ContextTerm { term: lit("@vocab"), iri: lit("https://vaultiel.dev/schema/"), type_: None });
    r.push(ContextTerm { term: lit("Note"), iri: lit("https://vaultiel.dev/schema/Note"), type_: None });
    r.push(ContextTerm { term: lit("Link"), iri: lit("https://vaultiel.dev/schema/Link"), type_: None });
    r.push(ContextTerm { term: lit("Heading"), iri: lit("https://vaultiel.dev/schema/Heading"), type_: None });
    r.push(ContextTerm { term: lit("path"), iri: lit("https://vaultiel.dev/schema/path"), type_: Some(lit("@id")) });
    r.push(ContextTerm { term: lit("name"), iri: lit("https://vaultiel.dev/schema/name"), type_: None });
    r.push(ContextTerm { term: lit("tags"), iri: lit("https://vaultiel.dev/schema/tags"), type_: None });
    r.push(ContextTerm { term: lit("headings"), iri: lit("https://vaultiel.dev/schema/headings"), type_: None });
    r.push(ContextTerm { term: lit("linksTo"), iri: lit("https://vaultiel.dev/schema/linksTo"), type_: Some(lit("@id")) });
    r.push(ContextTerm { term: lit("target"), iri: lit("https://vaultiel.dev/schema/target"), type_: Some(lit("@id")) });
    r.push(ContextTerm { term: lit("context"), iri: lit("https://vaultiel.dev/schema/context"), type_: None });
    r.push(ContextTerm { term: lit("alias"), iri: lit("https://vaultiel.dev/schema/alias"), type_: None });
    r.push(ContextTerm { term: lit("embed"), iri: lit("https://vaultiel.dev/schema/embed"), type_: None });
    r.push(ContextTerm { term: lit("targetHeading"), iri: lit("https://vaultiel.dev/schema/targetHeading"), type_: None });
    r.push(ContextTerm { term: lit("targetBlock"), iri: lit("https://vaultiel.dev/schema/targetBlock"), type_: None });
    r.push(ContextTerm { term: lit("text"), iri: lit("https://vaultiel.dev/schema/text"), type_: None });
    r.push(ContextTerm { term: lit("level"), iri: lit("https://vaultiel.dev/schema/level"), type_: None });
    r.push(ContextTerm { term: lit("slug"), iri: lit("https://vaultiel.dev/schema/slug"), type_: None });
    assert(r@.map_values(|t: ContextTerm| term_view(t)) =~= context_terms());
    r
}

} // verus!
