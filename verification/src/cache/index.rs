//! The vault cache: what was parsed from each note, kept by path.
//!
//! Reading files and their modification times is the caller's part; the
//! cache takes a note's path, time, size and content and indexes them.

use vstd::prelude::*;
use crate::cache::types::{
    count_of, counts_after_adding, counts_after_removal, lemma_name_count_le, name_count,
    BlockIndex, CacheMeta, CachedBlockId, CachedHeading, CachedLink, CachedNote, CachedTag,
    CachedTask, HeadingIndex, LinkIndex, NoteIndex, TagIndex, TaskIndex,
};
use crate::config::TaskConfig;
use crate::graph::link_graph::{aliases_value, str_items};
use crate::parser::block_id::{parse_block_ids, spec_block_ids};
use crate::parser::frontmatter::{parse_frontmatter, spec_frontmatter_value};
use crate::parser::heading::{parse_headings, spec_headings};
use crate::parser::tag::{parse_tags, tag_occ, tags_of};
use crate::parser::task::{parse_tasks, tasks_of, Task};
use crate::parser::wikilink::{links_of, parse_all_links};
use crate::text::{file_stem_of, lit, path_file_stem};
use crate::types::{BlockType, Link, LinkContext, Tag};
use crate::yaml::{
    untag, value_as_sequence, value_as_str, value_get, yaml_json, yaml_json_text, yaml_tree,
    YamlV,
};

verus! {

/// The text of an optional string.
pub open spec fn opt_str(o: Option<String>) -> Option<Seq<char>> {
    match o {
        Some(t) => Some(t@),
        None => None,
    }
}

/// The name under which a block type is cached.
pub open spec fn block_type_name(t: BlockType) -> Seq<char> {
    match t {
        BlockType::Paragraph => "paragraph"@,
        BlockType::ListItem => "listitem"@,
        BlockType::Heading => "heading"@,
        BlockType::Blockquote => "blockquote"@,
        BlockType::Table => "table"@,
        BlockType::CodeBlock => "codeblock"@,
    }
}

/// The name a note is cached under: the stem of its path, or empty.
pub open spec fn cached_name(path: Seq<char>) -> Seq<char> {
    match path_file_stem(path) {
        Some(s) => s,
        None => Seq::empty(),
    }
}

/// The frontmatter a note is cached with: its JSON text (`null` when JSON
/// refuses it), or none without valid frontmatter.
pub open spec fn cached_frontmatter(c: Seq<char>) -> Option<Seq<char>> {
    match spec_frontmatter_value(c) {
        Ok(Some(v)) => Some(
            match yaml_json(v) {
                Some(t) => t,
                None => "null"@,
            },
        ),
        _ => None,
    }
}

/// The aliases a note is cached with: the strings of its `aliases` list.
pub open spec fn cached_aliases(c: Seq<char>) -> Seq<Seq<char>> {
    match aliases_value(c) {
        Some(a) => match untag(a) {
            YamlV::List(items) => str_items(items),
            _ => Seq::empty(),
        },
        None => Seq::empty(),
    }
}

/// The cached record of a note.
pub open spec fn note_cached(n: CachedNote, path: Seq<char>, mtime: u64, size: u64, c: Seq<char>) -> bool {
    &&& n.path@ == path
    &&& n.mtime == mtime
    &&& n.size == size
    &&& n.name@ == cached_name(path)
    &&& opt_str(n.frontmatter) == cached_frontmatter(c)
    &&& n.aliases@.map_values(|s: String| s@) == cached_aliases(c)
}

/// A cached link records a parsed link of the note at `path`, in the body.
pub open spec fn link_cached(c: CachedLink, l: Link, path: Seq<char>) -> bool {
    &&& c.from@ == path
    &&& c.target@ == l.target@
    &&& c.line == l.line
    &&& c.context is Body
    &&& opt_str(c.alias) == opt_str(l.alias)
    &&& opt_str(c.heading) == opt_str(l.heading)
    &&& opt_str(c.block_id) == opt_str(l.block_id)
    &&& c.is_embed == l.embed
}

/// The cached links are the note's links, in order.
pub open spec fn links_cached(cs: Seq<CachedLink>, path: Seq<char>, c: Seq<char>) -> bool {
    exists|ls: Seq<Link>|
        #![trigger links_of(ls, c, None)]
        links_of(ls, c, None) && cs.len() == ls.len() && forall|k: int|
            0 <= k < cs.len() ==> link_cached(#[trigger] cs[k], ls[k], path)
}

/// A cached tag records a parsed tag of the note at `path`.
pub open spec fn tag_cached(c: CachedTag, t: Tag, path: Seq<char>) -> bool {
    c.name@ == t.name@ && c.note@ == path && c.line == t.line
}

/// The cached tags are the note's tags, in order.
pub open spec fn tags_cached(cs: Seq<CachedTag>, path: Seq<char>, c: Seq<char>) -> bool {
    exists|ts: Seq<Tag>|
        #![trigger tags_of(ts, c)]
        tags_of(ts, c) && cs.len() == ts.len() && forall|k: int|
            0 <= k < cs.len() ==> tag_cached(#[trigger] cs[k], ts[k], path)
}

/// The cached block IDs are the note's block IDs, in order.
pub open spec fn blocks_cached(cs: Seq<CachedBlockId>, path: Seq<char>, c: Seq<char>) -> bool {
    let bs = spec_block_ids(c);
    &&& cs.len() == bs.len()
    &&& forall|k: int|
        0 <= k < cs.len() ==> (#[trigger] cs[k]).id@ == bs[k].0 && cs[k].line == bs[k].1
            && cs[k].block_type@ == block_type_name(bs[k].2) && cs[k].note@ == path
}

/// The cached headings are the note's headings, in order.
pub open spec fn headings_cached(cs: Seq<CachedHeading>, path: Seq<char>, c: Seq<char>) -> bool {
    let hs = spec_headings(c);
    &&& cs.len() == hs.len()
    &&& forall|k: int|
        0 <= k < cs.len() ==> (#[trigger] cs[k]).text@ == hs[k].0 && cs[k].level == hs[k].1
            && cs[k].line == hs[k].2 && cs[k].slug@ == hs[k].3 && cs[k].note@ == path
}

/// The value of a task's metadata field.
pub open spec fn task_meta(t: Task, k: Seq<char>) -> Option<Seq<char>> {
    if t.metadata.view().contains_key(k) {
        Some(t.metadata.view()[k]@)
    } else {
        None
    }
}

/// A cached task records a parsed task of the note at `path`; its dates
/// and priority are the metadata fields of those names.
pub open spec fn task_cached(c: CachedTask, t: Task, path: Seq<char>) -> bool {
    &&& c.note@ == path
    &&& c.line == t.location.line
    &&& c.raw@ == t.raw@
    &&& c.symbol@ == t.symbol@
    &&& c.description@ == t.description@
    &&& c.indent == t.indent
    &&& c.parent_line == t.parent_line
    &&& opt_str(c.scheduled) == task_meta(t, "scheduled"@)
    &&& opt_str(c.due) == task_meta(t, "due"@)
    &&& opt_str(c.done) == task_meta(t, "done"@)
    &&& opt_str(c.priority) == task_meta(t, "priority"@)
    &&& c.tags@.map_values(|s: String| s@) == t.tags@.map_values(|s: String| s@)
    &&& opt_str(c.block_id) == opt_str(t.block_id)
}

/// The cached tasks are the note's tasks, in order.
pub open spec fn tasks_cached(cs: Seq<CachedTask>, path: Seq<char>, c: Seq<char>, config: TaskConfig) -> bool {
    exists|ts: Seq<Task>|
        #![trigger tasks_of(ts, c, path, config.fields@)]
        tasks_of(ts, c, path, config.fields@) && cs.len() == ts.len() && forall|k: int|
            0 <= k < cs.len() ==> task_cached(#[trigger] cs[k], ts[k], path)
}

/// The vault cache.
pub struct VaultCache {
    /// Directory the cache lives in.
    pub cache_dir: String,
    /// Cache metadata.
    pub meta: CacheMeta,
    /// Note index.
    pub notes: NoteIndex,
    /// Link index.
    pub links: LinkIndex,
    /// Tag index.
    pub tags: TagIndex,
    /// Block ID index.
    pub blocks: BlockIndex,
    /// Heading index.
    pub headings: HeadingIndex,
    /// Task index.
    pub tasks: TaskIndex,
    /// Whether the cache changed since it was loaded or saved.
    pub dirty: bool,
}

fn clone_opt(o: &Option<String>) -> (r: Option<String>)
    ensures
        opt_str(r) == opt_str(*o),
{
    match o {
        Some(s) => Some(s.clone()),
        None => None,
    }
}

fn clone_strings(v: &Vec<String>) -> (r: Vec<String>)
    ensures
        r@.map_values(|s: String| s@) == v@.map_values(|s: String| s@),
{
    let mut r: Vec<String> = Vec::new();
    let mut i: usize = 0;
    while i < v.len()
        invariant
            i <= v@.len(),
            r@.len() == i,
            forall|k: int| 0 <= k < i ==> (#[trigger] r@[k])@ == v@[k]@,
        decreases v@.len() - i,
    {
        r.push(v[i].clone());
        i = i + 1;
    }
    assert(r@.map_values(|s: String| s@) =~= v@.map_values(|s: String| s@));
    r
}

fn block_type_text(t: BlockType) -> (r: String)
    ensures
        r@ == block_type_name(t),
{
    match t {
        BlockType::Paragraph => lit("paragraph"),
        BlockType::ListItem => lit("listitem"),
        BlockType::Heading => lit("heading"),
        BlockType::Blockquote => lit("blockquote"),
        BlockType::Table => lit("table"),
        BlockType::CodeBlock => lit("codeblock"),
    }
}

fn meta_field(t: &Task, k: &str) -> (r: Option<String>)
    requires
        t.metadata.wf(),
    ensures
        opt_str(r) == task_meta(*t, k@),
{
    match t.metadata.get(k) {
        Some(v) => Some(v.clone()),
        None => None,
    }
}

/// The aliases of a note's `aliases` list.
fn frontmatter_aliases(content: &str) -> (r: Vec<String>)
    ensures
        r@.map_values(|s: String| s@) == cached_aliases(content@),
{
    let mut out: Vec<String> = Vec::new();
    let fm = match parse_frontmatter(content) {
        Ok(Some(fm)) => fm,
        _ => {
            assert(out@.map_values(|s: String| s@) =~= cached_aliases(content@));
            return out;
        },
    };
    let a = match value_get(&fm, "aliases") {
        Some(a) => a,
        None => {
            assert(out@.map_values(|s: String| s@) =~= cached_aliases(content@));
            return out;
        },
    };
    assert(aliases_value(content@) == Some(yaml_tree(*a)));
    match value_as_sequence(a) {
        Some(items) => {
            let ghost vitems = untag(yaml_tree(*a))->List_0;
            let mut i: usize = 0;
            assert(vitems.subrange(0, 0) =~= Seq::<YamlV>::empty());
            assert(out@.map_values(|s: String| s@) =~= str_items(vitems.subrange(0, 0)));
            while i < items.len()
                invariant
                    i <= items@.len(),
                    items@.len() == vitems.len(),
                    forall|j: int| 0 <= j < vitems.len() ==> yaml_tree(#[trigger] items@[j]) == vitems[j],
                    out@.map_values(|s: String| s@) == str_items(vitems.subrange(0, i as int)),
                decreases items@.len() - i,
            {
                let ghost pre = vitems.subrange(0, i as int);
                assert(vitems.subrange(0, i + 1).drop_last() =~= pre);
                assert(vitems.subrange(0, i + 1).last() == vitems[i as int]);
                assert(yaml_tree(items@[i as int]) == vitems[i as int]);
                match value_as_str(&items[i]) {
                    Some(x) => {
                        out.push(x.to_string());
                        assert(out@.map_values(|s: String| s@) =~= str_items(pre) + seq![x@]);
                    },
                    None => {},
                }
                i = i + 1;
            }
            assert(vitems.subrange(0, vitems.len() as int) =~= vitems);
            out
        },
        None => {
            assert(out@.map_values(|s: String| s@) =~= cached_aliases(content@));
            out
        },
    }
}

fn cache_links(path: &str, content: &str) -> (r: Vec<CachedLink>)
    ensures
        links_cached(r@, path@, content@),
{
    let ls = parse_all_links(content);
    let mut out: Vec<CachedLink> = Vec::new();
    let mut i: usize = 0;
    while i < ls.len()
        invariant
            i <= ls@.len(),
            out@.len() == i,
            forall|k: int| 0 <= k < i ==> link_cached(#[trigger] out@[k], ls@[k], path@),
        decreases ls@.len() - i,
    {
        let l = &ls[i];
        out.push(
            CachedLink {
                from: path.to_string(),
                target: l.target.clone(),
                line: l.line,
                context: LinkContext::Body,
                alias: clone_opt(&l.alias),
                heading: clone_opt(&l.heading),
                block_id: clone_opt(&l.block_id),
                is_embed: l.embed,
            },
        );
        i = i + 1;
    }
    assert(links_of(ls@, content@, None));
    out
}

fn cache_tags(path: &str, content: &str) -> (r: Vec<CachedTag>)
    ensures
        tags_cached(r@, path@, content@),
        r@.len() == tag_occ(content@).len(),
{
    let ts = parse_tags(content);
    let mut out: Vec<CachedTag> = Vec::new();
    let mut i: usize = 0;
    while i < ts.len()
        invariant
            i <= ts@.len(),
            out@.len() == i,
            forall|k: int| 0 <= k < i ==> tag_cached(#[trigger] out@[k], ts@[k], path@),
        decreases ts@.len() - i,
    {
        out.push(CachedTag { name: ts[i].name.clone(), note: path.to_string(), line: ts[i].line });
        i = i + 1;
    }
    assert(tags_of(ts@, content@));
    out
}

fn cache_blocks(path: &str, content: &str) -> (r: Vec<CachedBlockId>)
    ensures
        blocks_cached(r@, path@, content@),
{
    let bs = parse_block_ids(content);
    let ghost sb = spec_block_ids(content@);
    let mut out: Vec<CachedBlockId> = Vec::new();
    let mut i: usize = 0;
    while i < bs.len()
        invariant
            i <= bs@.len(),
            sb == spec_block_ids(content@),
            crate::parser::block_id::blocks_view(bs@) == sb,
            out@.len() == i,
            forall|k: int|
                0 <= k < i ==> (#[trigger] out@[k]).id@ == sb[k].0 && out@[k].line == sb[k].1
                    && out@[k].block_type@ == block_type_name(sb[k].2) && out@[k].note@ == path@,
        decreases bs@.len() - i,
    {
        assert(sb[i as int] == crate::parser::block_id::block_view(bs@[i as int]));
        out.push(
            CachedBlockId {
                id: bs[i].id.clone(),
                note: path.to_string(),
                line: bs[i].line,
                block_type: block_type_text(bs[i].block_type),
            },
        );
        i = i + 1;
    }
    out
}

fn cache_headings(path: &str, content: &str) -> (r: Vec<CachedHeading>)
    ensures
        headings_cached(r@, path@, content@),
{
    let hs = parse_headings(content);
    let ghost sh = spec_headings(content@);
    let mut out: Vec<CachedHeading> = Vec::new();
    let mut i: usize = 0;
    while i < hs.len()
        invariant
            i <= hs@.len(),
            sh == spec_headings(content@),
            crate::parser::heading::headings_view(hs@) == sh,
            out@.len() == i,
            forall|k: int|
                0 <= k < i ==> (#[trigger] out@[k]).text@ == sh[k].0 && out@[k].level == sh[k].1
                    && out@[k].line == sh[k].2 && out@[k].slug@ == sh[k].3 && out@[k].note@ == path@,
        decreases hs@.len() - i,
    {
        assert(sh[i as int] == crate::parser::heading::heading_view(hs@[i as int]));
        out.push(
            CachedHeading {
                text: hs[i].text.clone(),
                level: hs[i].level,
                note: path.to_string(),
                line: hs[i].line,
                slug: hs[i].slug.clone(),
            },
        );
        i = i + 1;
    }
    out
}

fn cache_tasks(path: &str, content: &str, config: &TaskConfig) -> (r: Vec<CachedTask>)
    ensures
        tasks_cached(r@, path@, content@, *config),
{
    let ts = parse_tasks(content, path, config);
    let ghost lv = crate::text::lines(content@);
    let ghost ti = crate::parser::task::task_indices(content@, lv, lv.len() as int);
    let mut out: Vec<CachedTask> = Vec::new();
    let mut i: usize = 0;
    while i < ts.len()
        invariant
            i <= ts@.len(),
            tasks_of(ts@, content@, path@, config.fields@),
            lv == crate::text::lines(content@),
            ti == crate::parser::task::task_indices(content@, lv, lv.len() as int),
            out@.len() == i,
            forall|k: int| 0 <= k < i ==> task_cached(#[trigger] out@[k], ts@[k], path@),
        decreases ts@.len() - i,
    {
        let t = &ts[i];
        assert(crate::parser::task::task_line_is(ts@[i as int], lv[ti[i as int]], ti[i as int] + 1, path@, config.fields@));
        out.push(
            CachedTask {
                note: path.to_string(),
                line: t.location.line,
                raw: t.raw.clone(),
                symbol: t.symbol.clone(),
                description: t.description.clone(),
                indent: t.indent,
                parent_line: t.parent_line,
                scheduled: meta_field(t, "scheduled"),
                due: meta_field(t, "due"),
                done: meta_field(t, "done"),
                priority: meta_field(t, "priority"),
                tags: clone_strings(&t.tags),
                block_id: clone_opt(&t.block_id),
            },
        );
        i = i + 1;
    }
    out
}

impl VaultCache {
    /// Every index is well formed.
    pub open spec fn wf(&self) -> bool {
        &&& self.notes.wf()
        &&& self.links.wf()
        &&& self.tags.wf()
        &&& self.blocks.wf()
        &&& self.headings.wf()
        &&& self.tasks.wf()
    }

    /// Whether the cache changed since it was loaded or saved.
    pub open spec fn is_dirty(&self) -> bool {
        self.dirty
    }

    /// The directory the cache lives in.
    pub open spec fn dir(&self) -> Seq<char> {
        self.cache_dir@
    }

    /// An empty cache for the vault at `vault_root`, kept in `cache_dir`.
    pub fn new(cache_dir: String, vault_root: String) -> (r: VaultCache)
        ensures
            r.wf(),
            r.dir() == cache_dir@,
            r.meta.vault_path@ == vault_root@,
            r.meta.indexed_notes == 0,
            r.meta.last_full_index is None,
            r.notes.notes.view().len() == 0,
            r.links.by_source.view().len() == 0,
            r.tags.by_note.view().len() == 0,
            r.tags.counts.view().len() == 0,
            r.blocks.by_note.view().len() == 0,
            r.headings.by_note.view().len() == 0,
            r.tasks.by_note.view().len() == 0,
            !r.is_dirty(),
    {
        VaultCache {
            cache_dir,
            meta: CacheMeta::new(vault_root),
            notes: NoteIndex::new(),
            links: LinkIndex::new(),
            tags: TagIndex::new(),
            blocks: BlockIndex::new(),
            headings: HeadingIndex::new(),
            tasks: TaskIndex::new(),
            dirty: false,
        }
    }

    /// The directory the cache lives in.
    pub fn cache_dir(&self) -> (r: &str)
        ensures
            r@ == self.dir(),
    {
        self.cache_dir.as_str()
    }

    /// Whether the cache changed since it was loaded or saved.
    pub fn dirty(&self) -> (r: bool)
        ensures
            r == self.is_dirty(),
    {
        self.dirty
    }

    /// Mark the cache as saved.
    pub fn mark_saved(&mut self)
        ensures
            *final(self) == (VaultCache { dirty: false, ..*old(self) }),
    {
        self.dirty = false;
    }

    /// Whether any note is indexed.
    pub fn has_data(&self) -> (r: bool)
        requires
            self.wf(),
        ensures
            r == (self.notes.notes.view().len() > 0),
    {
        !self.notes.is_empty()
    }

    /// Whether a note must be (re)indexed: it is not cached, or its file's
    /// modification time (seconds since the epoch, when the file could be
    /// read) differs from the cached one. An unreadable file is stale.
    pub fn is_note_stale(&self, path: &str, actual_mtime: Option<u64>) -> (r: bool)
        requires
            self.wf(),
        ensures
            r == match actual_mtime {
                Some(m) => !self.notes.notes.view().contains_key(path@)
                    || self.notes.notes.view()[path@].mtime != m,
                None => true,
            },
    {
        match self.notes.get(path) {
            Some(n) => match actual_mtime {
                Some(m) => n.is_stale(m),
                None => true,
            },
            None => true,
        }
    }

    /// Index a note from its path, modification time (seconds since the
    /// epoch), size in bytes and content: its record, links (as body links),
    /// tags, block IDs, headings and tasks replace whatever the cache held
    /// for that path, and the cache becomes dirty.
    pub fn index_note(&mut self, path: &str, mtime: u64, size: u64, content: &str, config: &TaskConfig)
        requires
            old(self).wf(),
            forall|n: Seq<char>|
                count_of(old(self).tags.counts.view(), n) + tag_occ(content@).len() <= usize::MAX,
        ensures
            final(self).wf(),
            final(self).is_dirty(),
            final(self).dir() == old(self).dir(),
            final(self).meta == old(self).meta,
            final(self).notes.notes.view().dom() == old(self).notes.notes.view().dom().insert(path@),
            forall|p: Seq<char>| #![trigger final(self).notes.notes.view()[p]]
                p != path@ && old(self).notes.notes.view().contains_key(p)
                    ==> final(self).notes.notes.view()[p] == old(self).notes.notes.view()[p],
            note_cached(final(self).notes.notes.view()[path@], path@, mtime, size, content@),
            final(self).links.by_source.view() == old(self).links.by_source.view().insert(
                path@,
                final(self).links.by_source.view()[path@],
            ),
            links_cached(final(self).links.by_source.view()[path@]@, path@, content@),
            final(self).tags.by_note.view() == old(self).tags.by_note.view().insert(
                path@,
                final(self).tags.by_note.view()[path@],
            ),
            tags_cached(final(self).tags.by_note.view()[path@]@, path@, content@),
            final(self).tags.counts.view() == counts_after_adding(
                counts_after_removal(old(self).tags.counts.view(), old(self).tags.tags_at(path@)),
                final(self).tags.by_note.view()[path@]@,
            ),
            final(self).blocks.by_note.view() == old(self).blocks.by_note.view().insert(
                path@,
                final(self).blocks.by_note.view()[path@],
            ),
            blocks_cached(final(self).blocks.by_note.view()[path@]@, path@, content@),
            final(self).headings.by_note.view() == old(self).headings.by_note.view().insert(
                path@,
                final(self).headings.by_note.view()[path@],
            ),
            headings_cached(final(self).headings.by_note.view()[path@]@, path@, content@),
            final(self).tasks.by_note.view() == old(self).tasks.by_note.view().insert(
                path@,
                final(self).tasks.by_note.view()[path@],
            ),
            tasks_cached(final(self).tasks.by_note.view()[path@]@, path@, content@, *config),
    {
        let name = match file_stem_of(path) {
            Some(s) => s,
            None => String::new(),
        };
        let frontmatter = match parse_frontmatter(content) {
            Ok(Some(fm)) => match yaml_json_text(&fm) {
                Some(t) => Some(t),
                None => Some(lit("null")),
            },
            _ => None,
        };
        let aliases = frontmatter_aliases(content);
        let note = CachedNote {
            path: path.to_string(),
            mtime,
            size,
            name,
            frontmatter,
            aliases,
        };
        assert(note_cached(note, path@, mtime, size, content@));
        self.notes.insert(note);

        let links = cache_links(path, content);
        self.links.set_outgoing(path.to_string(), links);

        let tags = cache_tags(path, content);
        proof {
            assert forall|n: Seq<char>|
                count_of(self.tags.counts.view(), n) + name_count(tags@, n) <= usize::MAX by {
                lemma_name_count_le(tags@, n);
            }
        }
        self.tags.set_tags(path.to_string(), tags);

        let blocks = cache_blocks(path, content);
        self.blocks.set_blocks(path.to_string(), blocks);

        let headings = cache_headings(path, content);
        self.headings.set_headings(path.to_string(), headings);

        let tasks = cache_tasks(path, content, config);
        self.tasks.set_tasks(path.to_string(), tasks);

        self.dirty = true;
    }

    /// Forget a note: its record and everything indexed from it; the cache
    /// becomes dirty.
    pub fn remove_note(&mut self, path: &str)
        requires
            old(self).wf(),
        ensures
            final(self).wf(),
            final(self).is_dirty(),
            final(self).dir() == old(self).dir(),
            final(self).meta == old(self).meta,
            final(self).notes.notes.view() == old(self).notes.notes.view().remove(path@),
            final(self).links.by_source.view() == old(self).links.by_source.view().remove(path@),
            final(self).tags.by_note.view() == old(self).tags.by_note.view().remove(path@),
            final(self).tags.counts.view() == counts_after_removal(
                old(self).tags.counts.view(),
                old(self).tags.tags_at(path@),
            ),
            final(self).blocks.by_note.view() == old(self).blocks.by_note.view().remove(path@),
            final(self).headings.by_note.view() == old(self).headings.by_note.view().remove(path@),
            final(self).tasks.by_note.view() == old(self).tasks.by_note.view().remove(path@),
    {
        let _ = self.notes.remove(path);
        self.links.remove(path);
        self.tags.remove(path);
        self.blocks.remove(path);
        self.headings.remove(path);
        self.tasks.remove(path);
        self.dirty = true;
    }
}

} // verus!
