//! Types of the vault cache: the cached records and the per-note indices.

use vstd::prelude::*;
use crate::str_map::StrMap;
use crate::text::lit;
use crate::types::LinkContext;

verus! {

/// Version of the cache format.
pub const CACHE_VERSION: u32 = 1;

/// Metadata about the cache as a whole.
#[derive(Debug, Clone)]
pub struct CacheMeta {
    /// Version of the cache format.
    pub version: u32,
    /// Path of the vault that was cached.
    pub vault_path: String,
    /// When the last full index was built (RFC 3339), if ever.
    pub last_full_index: Option<String>,
    /// Number of indexed notes.
    pub indexed_notes: usize,
    /// Version of the library that wrote the cache.
    pub vaultiel_version: String,
}

impl CacheMeta {
    /// Fresh metadata for a vault that has not been indexed yet.
    pub fn new(vault_path: String) -> (r: CacheMeta)
        ensures
            r.version == CACHE_VERSION,
            r.vault_path@ == vault_path@,
            r.last_full_index is None,
            r.indexed_notes == 0,
            r.vaultiel_version@ == "0.1.0"@,
    {
        CacheMeta {
            version: CACHE_VERSION,
            vault_path,
            last_full_index: None,
            indexed_notes: 0,
            vaultiel_version: lit("0.1.0"),
        }
    }
}

/// Cached metadata of one note.
#[derive(Debug, Clone)]
pub struct CachedNote {
    /// Path relative to the vault root.
    pub path: String,
    /// Modification time, in seconds since the Unix epoch.
    pub mtime: u64,
    /// File size in bytes.
    pub size: u64,
    /// Note name (file stem).
    pub name: String,
    /// Parsed frontmatter as JSON text, if any.
    pub frontmatter: Option<String>,
    /// Aliases from the frontmatter.
    pub aliases: Vec<String>,
}

impl CachedNote {
    /// Whether the file changed since it was cached, given its modification
    /// time in seconds since the Unix epoch (0 for a time before the epoch).
    pub fn is_stale(&self, actual_secs: u64) -> (r: bool)
        ensures
            r == (self.mtime != actual_secs),
    {
        self.mtime != actual_secs
    }
}

/// A cached link.
#[derive(Debug, Clone)]
pub struct CachedLink {
    /// Source note path.
    pub from: String,
    /// Link target as written.
    pub target: String,
    /// Line number.
    pub line: usize,
    /// Where the link appears.
    pub context: LinkContext,
    /// Display alias.
    pub alias: Option<String>,
    /// Heading reference.
    pub heading: Option<String>,
    /// Block reference.
    pub block_id: Option<String>,
    /// Whether the link is an embed.
    pub is_embed: bool,
}

/// A cached tag.
#[derive(Debug, Clone)]
pub struct CachedTag {
    /// Tag name, with `#`.
    pub name: String,
    /// Note path.
    pub note: String,
    /// Line number.
    pub line: usize,
}

/// A cached block ID.
#[derive(Debug, Clone)]
pub struct CachedBlockId {
    /// The ID, without `^`.
    pub id: String,
    /// Note path.
    pub note: String,
    /// Line number.
    pub line: usize,
    /// Block type name.
    pub block_type: String,
}

/// A cached heading.
#[derive(Debug, Clone)]
pub struct CachedHeading {
    /// Heading text.
    pub text: String,
    /// Level (1-6).
    pub level: u8,
    /// Note path.
    pub note: String,
    /// Line number.
    pub line: usize,
    /// URL-friendly slug.
    pub slug: String,
}

/// A cached task.
#[derive(Debug, Clone)]
pub struct CachedTask {
    /// Note path.
    pub note: String,
    /// Line number.
    pub line: usize,
    /// The raw line.
    pub raw: String,
    /// Checkbox symbol, e.g. `[ ]`.
    pub symbol: String,
    /// Description.
    pub description: String,
    /// Indentation level.
    pub indent: usize,
    /// Line of the parent task, if any.
    pub parent_line: Option<usize>,
    /// Scheduled date.
    pub scheduled: Option<String>,
    /// Due date.
    pub due: Option<String>,
    /// Done date.
    pub done: Option<String>,
    /// Priority.
    pub priority: Option<String>,
    /// Tags.
    pub tags: Vec<String>,
    /// Block ID.
    pub block_id: Option<String>,
}

/// Index of cached notes by path.
#[derive(Debug, Clone)]
pub struct NoteIndex {
    /// Notes by path.
    pub notes: StrMap<CachedNote>,
}

impl NoteIndex {
    pub open spec fn wf(&self) -> bool {
        self.notes.wf()
    }

    /// An empty index.
    pub fn new() -> (r: NoteIndex)
        ensures
            r.wf(),
            r.notes.view() == Map::<Seq<char>, CachedNote>::empty(),
    {
        NoteIndex { notes: StrMap::new() }
    }

    /// The cached note at `path`.
    pub fn get(&self, path: &str) -> (r: Option<&CachedNote>)
        requires
            self.wf(),
        ensures
            match r {
                Some(n) => self.notes.view().contains_key(path@) && *n == self.notes.view()[path@],
                None => !self.notes.view().contains_key(path@),
            },
    {
        self.notes.get(path)
    }

    /// Add or replace a note, keyed by its path.
    pub fn insert(&mut self, note: CachedNote)
        requires
            old(self).wf(),
        ensures
            final(self).wf(),
            final(self).notes.view() == old(self).notes.view().insert(note.path@, note),
    {
        let key = note.path.clone();
        self.notes.insert(key, note);
    }

    /// Remove the note at `path`, handing it back.
    pub fn remove(&mut self, path: &str) -> (r: Option<CachedNote>)
        requires
            old(self).wf(),
        ensures
            final(self).wf(),
            final(self).notes.view() == old(self).notes.view().remove(path@),
            match r {
                Some(n) => old(self).notes.view().contains_key(path@) && n == old(
                    self,
                ).notes.view()[path@],
                None => !old(self).notes.view().contains_key(path@),
            },
    {
        self.notes.remove(path)
    }

    /// Number of cached notes.
    pub fn len(&self) -> (r: usize)
        requires
            self.wf(),
        ensures
            r == self.notes.view().len(),
    {
        self.notes.len()
    }

    /// Whether no note is cached.
    pub fn is_empty(&self) -> (r: bool)
        requires
            self.wf(),
        ensures
            r == (self.notes.view().len() == 0),
    {
        self.notes.is_empty()
    }
}

impl Default for NoteIndex {
    fn default() -> (r: NoteIndex)
        ensures
            r.wf(),
            r.notes.view() == Map::<Seq<char>, CachedNote>::empty(),
    {
        NoteIndex::new()
    }
}

/// The values held for `path`, or none.
pub open spec fn values_at<T>(m: Map<Seq<char>, Vec<T>>, path: Seq<char>) -> Seq<T> {
    if m.contains_key(path) {
        m[path]@
    } else {
        Seq::empty()
    }
}

/// Index of outgoing links by source note.
#[derive(Debug, Clone)]
pub struct LinkIndex {
    /// Links by source path.
    pub by_source: StrMap<Vec<CachedLink>>,
}

impl LinkIndex {
    pub open spec fn wf(&self) -> bool {
        self.by_source.wf()
    }

    /// An empty index.
    pub fn new() -> (r: LinkIndex)
        ensures
            r.wf(),
            r.by_source.view() == Map::<Seq<char>, Vec<CachedLink>>::empty(),
    {
        LinkIndex { by_source: StrMap::new() }
    }

    /// The outgoing links of a note (none for an unknown note).
    pub fn get_outgoing(&self, path: &str) -> (r: &[CachedLink])
        requires
            self.wf(),
        ensures
            r@ == values_at(self.by_source.view(), path@),
    {
        match self.by_source.get(path) {
            Some(v) => v.as_slice(),
            None => &[],
        }
    }

    /// Set the outgoing links of a note.
    pub fn set_outgoing(&mut self, path: String, links: Vec<CachedLink>)
        requires
            old(self).wf(),
        ensures
            final(self).wf(),
            final(self).by_source.view() == old(self).by_source.view().insert(path@, links),
    {
        self.by_source.insert(path, links);
    }

    /// Forget the links of a note.
    pub fn remove(&mut self, path: &str)
        requires
            old(self).wf(),
        ensures
            final(self).wf(),
            final(self).by_source.view() == old(self).by_source.view().remove(path@),
    {
        self.by_source.remove(path);
    }
}

impl Default for LinkIndex {
    fn default() -> (r: LinkIndex)
        ensures
            r.wf(),
            r.by_source.view() == Map::<Seq<char>, Vec<CachedLink>>::empty(),
    {
        LinkIndex::new()
    }
}

/// Index of block IDs by note.
#[derive(Debug, Clone)]
pub struct BlockIndex {
    /// Block IDs by note path.
    pub by_note: StrMap<Vec<CachedBlockId>>,
}

impl BlockIndex {
    pub open spec fn wf(&self) -> bool {
        self.by_note.wf()
    }

    /// An empty index.
    pub fn new() -> (r: BlockIndex)
        ensures
            r.wf(),
            r.by_note.view() == Map::<Seq<char>, Vec<CachedBlockId>>::empty(),
    {
        BlockIndex { by_note: StrMap::new() }
    }

    /// Set the block IDs of a note.
    pub fn set_blocks(&mut self, path: String, blocks: Vec<CachedBlockId>)
        requires
            old(self).wf(),
        ensures
            final(self).wf(),
            final(self).by_note.view() == old(self).by_note.view().insert(path@, blocks),
    {
        self.by_note.insert(path, blocks);
    }

    /// Forget the block IDs of a note.
    pub fn remove(&mut self, path: &str)
        requires
            old(self).wf(),
        ensures
            final(self).wf(),
            final(self).by_note.view() == old(self).by_note.view().remove(path@),
    {
        self.by_note.remove(path);
    }

    /// The block IDs of a note (none for an unknown note).
    pub fn get_blocks(&self, path: &str) -> (r: &[CachedBlockId])
        requires
            self.wf(),
        ensures
            r@ == values_at(self.by_note.view(), path@),
    {
        match self.by_note.get(path) {
            Some(v) => v.as_slice(),
            None => &[],
        }
    }
}

impl Default for BlockIndex {
    fn default() -> (r: BlockIndex)
        ensures
            r.wf(),
            r.by_note.view() == Map::<Seq<char>, Vec<CachedBlockId>>::empty(),
    {
        BlockIndex::new()
    }
}

/// Index of headings by note.
#[derive(Debug, Clone)]
pub struct HeadingIndex {
    /// Headings by note path.
    pub by_note: StrMap<Vec<CachedHeading>>,
}

impl HeadingIndex {
    pub open spec fn wf(&self) -> bool {
        self.by_note.wf()
    }

    /// An empty index.
    pub fn new() -> (r: HeadingIndex)
        ensures
            r.wf(),
            r.by_note.view() == Map::<Seq<char>, Vec<CachedHeading>>::empty(),
    {
        HeadingIndex { by_note: StrMap::new() }
    }

    /// Set the headings of a note.
    pub fn set_headings(&mut self, path: String, headings: Vec<CachedHeading>)
        requires
            old(self).wf(),
        ensures
            final(self).wf(),
            final(self).by_note.view() == old(self).by_note.view().insert(path@, headings),
    {
        self.by_note.insert(path, headings);
    }

    /// Forget the headings of a note.
    pub fn remove(&mut self, path: &str)
        requires
            old(self).wf(),
        ensures
            final(self).wf(),
            final(self).by_note.view() == old(self).by_note.view().remove(path@),
    {
        self.by_note.remove(path);
    }

    /// The headings of a note (none for an unknown note).
    pub fn get_headings(&self, path: &str) -> (r: &[CachedHeading])
        requires
            self.wf(),
        ensures
            r@ == values_at(self.by_note.view(), path@),
    {
        match self.by_note.get(path) {
            Some(v) => v.as_slice(),
            None => &[],
        }
    }
}

impl Default for HeadingIndex {
    fn default() -> (r: HeadingIndex)
        ensures
            r.wf(),
            r.by_note.view() == Map::<Seq<char>, Vec<CachedHeading>>::empty(),
    {
        HeadingIndex::new()
    }
}

/// Index of tasks by note.
#[derive(Debug, Clone)]
pub struct TaskIndex {
    /// Tasks by note path.
    pub by_note: StrMap<Vec<CachedTask>>,
}

impl TaskIndex {
    pub open spec fn wf(&self) -> bool {
        self.by_note.wf()
    }

    /// An empty index.
    pub fn new() -> (r: TaskIndex)
        ensures
            r.wf(),
            r.by_note.view() == Map::<Seq<char>, Vec<CachedTask>>::empty(),
    {
        TaskIndex { by_note: StrMap::new() }
    }

    /// Set the tasks of a note.
    pub fn set_tasks(&mut self, path: String, tasks: Vec<CachedTask>)
        requires
            old(self).wf(),
        ensures
            final(self).wf(),
            final(self).by_note.view() == old(self).by_note.view().insert(path@, tasks),
    {
        self.by_note.insert(path, tasks);
    }

    /// Forget the tasks of a note.
    pub fn remove(&mut self, path: &str)
        requires
            old(self).wf(),
        ensures
            final(self).wf(),
            final(self).by_note.view() == old(self).by_note.view().remove(path@),
    {
        self.by_note.remove(path);
    }

    /// The tasks of a note (none for an unknown note).
    pub fn get_tasks(&self, path: &str) -> (r: &[CachedTask])
        requires
            self.wf(),
        ensures
            r@ == values_at(self.by_note.view(), path@),
    {
        match self.by_note.get(path) {
            Some(v) => v.as_slice(),
            None => &[],
        }
    }
}

impl Default for TaskIndex {
    fn default() -> (r: TaskIndex)
        ensures
            r.wf(),
            r.by_note.view() == Map::<Seq<char>, Vec<CachedTask>>::empty(),
    {
        TaskIndex::new()
    }
}

/// Summary of the cache state.
#[derive(Debug, Clone)]
pub struct CacheStatus {
    /// Vault path.
    pub vault: String,
    /// Cache directory.
    pub cache_path: String,
    /// Number of indexed notes.
    pub indexed_notes: usize,
    /// Last full index time.
    pub last_full_index: Option<String>,
    /// Number of notes changed since indexing.
    pub stale_notes: usize,
    /// Cache size in bytes.
    pub cache_size_bytes: u64,
    /// Cache format version.
    pub cache_version: u32,
    /// Version of the library that wrote the cache.
    pub vaultiel_version: String,
}

/// Number of tags named `n` in `tags`.
pub open spec fn name_count(tags: Seq<CachedTag>, n: Seq<char>) -> nat
    decreases tags.len(),
{
    if tags.len() == 0 {
        0
    } else {
        name_count(tags.drop_last(), n) + if tags.last().name@ == n {
            1nat
        } else {
            0nat
        }
    }
}

/// `c - k`, but not below zero.
pub open spec fn sat_sub(c: usize, k: nat) -> usize {
    if c >= k {
        (c - k) as usize
    } else {
        0
    }
}

/// The counts after the tags `removed` were taken away, one at a time with
/// a saturating decrement; names without a count are left alone.
pub open spec fn counts_after_removal(
    counts: Map<Seq<char>, usize>,
    removed: Seq<CachedTag>,
) -> Map<Seq<char>, usize> {
    Map::new(|n: Seq<char>| counts.contains_key(n), |n: Seq<char>| sat_sub(counts[n], name_count(removed, n)))
}

/// The count held for `n`, zero when there is none.
pub open spec fn count_of(counts: Map<Seq<char>, usize>, n: Seq<char>) -> int {
    if counts.contains_key(n) {
        counts[n] as int
    } else {
        0
    }
}

/// The counts after the tags `added` were counted in, one at a time.
pub open spec fn counts_after_adding(
    counts: Map<Seq<char>, usize>,
    added: Seq<CachedTag>,
) -> Map<Seq<char>, usize> {
    Map::new(
        |n: Seq<char>| counts.contains_key(n) || name_count(added, n) > 0,
        |n: Seq<char>| (count_of(counts, n) + name_count(added, n)) as usize,
    )
}

/// A name occurs at most once per tag.
pub proof fn lemma_name_count_le(tags: Seq<CachedTag>, n: Seq<char>)
    ensures
        name_count(tags, n) <= tags.len(),
    decreases tags.len(),
{
    if tags.len() > 0 {
        lemma_name_count_le(tags.drop_last(), n);
    }
}

proof fn lemma_name_count_push(tags: Seq<CachedTag>, t: CachedTag, n: Seq<char>)
    ensures
        name_count(tags.push(t), n) == name_count(tags, n) + if t.name@ == n {
            1nat
        } else {
            0nat
        },
{
    assert(tags.push(t).drop_last() == tags);
}

/// Decrement the count of each tag in `tags`, not below zero.
fn uncount(counts: &mut StrMap<usize>, tags: &[CachedTag])
    requires
        old(counts).wf(),
    ensures
        final(counts).wf(),
        final(counts).view() == counts_after_removal(old(counts).view(), tags@),
{
    let ghost c0 = counts.view();
    let mut j: usize = 0;
    proof {
        assert(counts.view() =~= counts_after_removal(c0, tags@.subrange(0, 0)));
    }
    while j < tags.len()
        invariant
            counts.wf(),
            c0 == old(counts).view(),
            j <= tags@.len(),
            counts.view() == counts_after_removal(c0, tags@.subrange(0, j as int)),
        decreases tags@.len() - j,
    {
        let t = &tags[j];
        let ghost before = counts.view();
        proof {
            assert(tags@.subrange(0, j + 1) == tags@.subrange(0, j as int).push(tags@[j as int]));
        }
        match counts.get(t.name.as_str()) {
            Some(c) => {
                let v = if *c >= 1 {
                    *c - 1
                } else {
                    0
                };
                counts.insert(t.name.clone(), v);
            },
            None => {},
        }
        proof {
            assert forall|n: Seq<char>| #[trigger] counts.view().contains_key(n) implies counts.view()[n]
                == counts_after_removal(c0, tags@.subrange(0, j + 1))[n] by {
                lemma_name_count_push(tags@.subrange(0, j as int), tags@[j as int], n);
            }
            assert(counts.view() =~= counts_after_removal(c0, tags@.subrange(0, j + 1)));
        }
        j = j + 1;
    }
    proof {
        assert(tags@.subrange(0, j as int) == tags@);
    }
}

/// Increment the count of each tag in `tags`.
fn count_in(counts: &mut StrMap<usize>, tags: &[CachedTag])
    requires
        old(counts).wf(),
        forall|n: Seq<char>| count_of(old(counts).view(), n) + name_count(tags@, n) <= usize::MAX,
    ensures
        final(counts).wf(),
        final(counts).view() == counts_after_adding(old(counts).view(), tags@),
{
    let ghost c0 = counts.view();
    let mut j: usize = 0;
    proof {
        assert forall|n: Seq<char>| #[trigger] name_count(tags@.subrange(0, 0), n) == 0 by {}
        assert(counts.view() =~= counts_after_adding(c0, tags@.subrange(0, 0)));
    }
    while j < tags.len()
        invariant
            counts.wf(),
            c0 == old(counts).view(),
            j <= tags@.len(),
            forall|n: Seq<char>| count_of(c0, n) + name_count(tags@, n) <= usize::MAX,
            counts.view() == counts_after_adding(c0, tags@.subrange(0, j as int)),
        decreases tags@.len() - j,
    {
        let t = &tags[j];
        let ghost pre = tags@.subrange(0, j as int);
        proof {
            assert(tags@.subrange(0, j + 1) == pre.push(tags@[j as int]));
            lemma_name_count_push(pre, tags@[j as int], t.name@);
            lemma_prefix_count(tags@, j as int + 1, t.name@);
        }
        let v: usize = match counts.get(t.name.as_str()) {
            Some(c) => *c + 1,
            None => 1,
        };
        counts.insert(t.name.clone(), v);
        proof {
            let post = tags@.subrange(0, j + 1);
            assert forall|n: Seq<char>| #[trigger] counts.view().contains_key(n)
                <==> counts_after_adding(c0, post).contains_key(n) by {
                lemma_name_count_push(pre, tags@[j as int], n);
            }
            assert forall|n: Seq<char>| #[trigger] counts.view().contains_key(n) implies counts.view()[n]
                == counts_after_adding(c0, post)[n] by {
                lemma_name_count_push(pre, tags@[j as int], n);
                lemma_prefix_count(tags@, j as int + 1, n);
            }
            assert(counts.view() =~= counts_after_adding(c0, post));
        }
        j = j + 1;
    }
    proof {
        assert(tags@.subrange(0, j as int) == tags@);
    }
}

proof fn lemma_prefix_count(tags: Seq<CachedTag>, k: int, n: Seq<char>)
    requires
        0 <= k <= tags.len(),
    ensures
        name_count(tags.subrange(0, k), n) <= name_count(tags, n),
    decreases tags.len() - k,
{
    if k < tags.len() {
        lemma_prefix_count(tags, k + 1, n);
        assert(tags.subrange(0, k + 1).drop_last() == tags.subrange(0, k));
    } else {
        assert(tags.subrange(0, k) == tags);
    }
}


/// Index of tags by note, with the number of uses of each tag.
#[derive(Debug, Clone)]
pub struct TagIndex {
    /// Tags by note path.
    pub by_note: StrMap<Vec<CachedTag>>,
    /// Number of uses of each tag name.
    pub counts: StrMap<usize>,
}

impl TagIndex {
    pub open spec fn wf(&self) -> bool {
        self.by_note.wf() && self.counts.wf()
    }

    /// The tags that the index holds for `path`.
    pub open spec fn tags_at(&self, path: Seq<char>) -> Seq<CachedTag> {
        values_at(self.by_note.view(), path)
    }

    /// An empty index.
    pub fn new() -> (r: TagIndex)
        ensures
            r.wf(),
            r.by_note.view() == Map::<Seq<char>, Vec<CachedTag>>::empty(),
            r.counts.view() == Map::<Seq<char>, usize>::empty(),
    {
        TagIndex { by_note: StrMap::new(), counts: StrMap::new() }
    }

    /// Replace the tags of a note, updating the counts: the counts of the
    /// note's old tags go down (not below zero), those of the new ones up.
    pub fn set_tags(&mut self, path: String, tags: Vec<CachedTag>)
        requires
            old(self).wf(),
            forall|n: Seq<char>| count_of(old(self).counts.view(), n) + name_count(tags@, n) <= usize::MAX,
        ensures
            final(self).wf(),
            final(self).by_note.view() == old(self).by_note.view().insert(path@, tags),
            final(self).counts.view() == counts_after_adding(
                counts_after_removal(old(self).counts.view(), old(self).tags_at(path@)),
                tags@,
            ),
    {
        match self.by_note.get(path.as_str()) {
            Some(v) => uncount(&mut self.counts, v.as_slice()),
            None => {
                assert(counts_after_removal(self.counts.view(), Seq::empty()) =~= self.counts.view());
            },
        }
        count_in(&mut self.counts, tags.as_slice());
        self.by_note.insert(path, tags);
    }

    /// Forget the tags of a note, lowering their counts (not below zero).
    pub fn remove(&mut self, path: &str)
        requires
            old(self).wf(),
        ensures
            final(self).wf(),
            final(self).by_note.view() == old(self).by_note.view().remove(path@),
            final(self).counts.view() == counts_after_removal(
                old(self).counts.view(),
                old(self).tags_at(path@),
            ),
    {
        match self.by_note.remove(path) {
            Some(tags) => uncount(&mut self.counts, tags.as_slice()),
            None => {
                assert(counts_after_removal(self.counts.view(), Seq::empty()) =~= self.counts.view());
            },
        }
    }

    /// The tags of a note (none for an unknown note).
    pub fn get_tags(&self, path: &str) -> (r: &[CachedTag])
        requires
            self.wf(),
        ensures
            r@ == self.tags_at(path@),
    {
        match self.by_note.get(path) {
            Some(v) => v.as_slice(),
            None => &[],
        }
    }
}

impl Default for TagIndex {
    fn default() -> (r: TagIndex)
        ensures
            r.wf(),
            r.by_note.view() == Map::<Seq<char>, Vec<CachedTag>>::empty(),
            r.counts.view() == Map::<Seq<char>, usize>::empty(),
    {
        TagIndex::new()
    }
}

// ---------------------------------------------------------------------------
// Tag counts follow the tag lists
// ---------------------------------------------------------------------------

/// Uses of the tag name `n` over the notes `ps` of an index.
pub open spec fn total_uses(m: Map<Seq<char>, Vec<CachedTag>>, ps: Seq<Seq<char>>, n: Seq<char>) -> int
    decreases ps.len(),
{
    if ps.len() == 0 {
        0
    } else {
        total_uses(m, ps.drop_last(), n) + name_count(values_at(m, ps.last()), n)
    }
}

/// `ps` lists the notes of the index, each once.
pub open spec fn lists_notes(idx: TagIndex, ps: Seq<Seq<char>>) -> bool {
    ps.no_duplicates() && forall|p: Seq<char>| ps.contains(p) <==> idx.by_note.view().contains_key(p)
}

/// Every count is the number of uses of its name over the notes `ps`.
pub open spec fn counts_agree(idx: TagIndex, ps: Seq<Seq<char>>) -> bool {
    forall|n: Seq<char>| #[trigger] count_of(idx.counts.view(), n) == total_uses(idx.by_note.view(), ps, n)
}

proof fn lemma_uses_elsewhere(
    m: Map<Seq<char>, Vec<CachedTag>>,
    ps: Seq<Seq<char>>,
    q: Seq<char>,
    v: Vec<CachedTag>,
    n: Seq<char>,
)
    requires
        !ps.contains(q),
    ensures
        total_uses(m.insert(q, v), ps, n) == total_uses(m, ps, n),
    decreases ps.len(),
{
    if ps.len() > 0 {
        assert(!ps.drop_last().contains(q)) by {
            if ps.drop_last().contains(q) {
                let j = choose|j: int| 0 <= j < ps.drop_last().len() && ps.drop_last()[j] == q;
                assert(ps[j] == q);
            }
        }
        lemma_uses_elsewhere(m, ps.drop_last(), q, v, n);
        assert(ps.last() != q) by {
            assert(ps[ps.len() - 1] == ps.last());
        }
        assert(values_at(m.insert(q, v), ps.last()) == values_at(m, ps.last()));
    }
}

proof fn lemma_uses_replaced(
    m: Map<Seq<char>, Vec<CachedTag>>,
    ps: Seq<Seq<char>>,
    q: Seq<char>,
    v: Vec<CachedTag>,
    n: Seq<char>,
)
    requires
        ps.contains(q),
        ps.no_duplicates(),
    ensures
        total_uses(m.insert(q, v), ps, n) == total_uses(m, ps, n) - name_count(values_at(m, q), n)
            + name_count(v@, n),
        total_uses(m, ps, n) >= name_count(values_at(m, q), n),
    decreases ps.len(),
{
    let rest = ps.drop_last();
    assert(rest.no_duplicates()) by {
        assert forall|i: int, j: int| 0 <= i < rest.len() && 0 <= j < rest.len() && i != j implies rest[i]
            != rest[j] by {
            assert(rest[i] == ps[i] && rest[j] == ps[j]);
        }
    }
    lemma_uses_nonneg(m, rest, n);
    if ps.last() == q {
        assert(!rest.contains(q)) by {
            if rest.contains(q) {
                let j = choose|j: int| 0 <= j < rest.len() && rest[j] == q;
                assert(ps[j] == ps[ps.len() - 1]);
            }
        }
        lemma_uses_elsewhere(m, rest, q, v, n);
        assert(values_at(m.insert(q, v), q) == v@);
    } else {
        assert(rest.contains(q)) by {
            let j = choose|j: int| 0 <= j < ps.len() && ps[j] == q;
            assert(j != ps.len() - 1);
            assert(rest[j] == q);
        }
        lemma_uses_replaced(m, rest, q, v, n);
        assert(values_at(m.insert(q, v), ps.last()) == values_at(m, ps.last()));
    }
}

proof fn lemma_uses_nonneg(m: Map<Seq<char>, Vec<CachedTag>>, ps: Seq<Seq<char>>, n: Seq<char>)
    ensures
        total_uses(m, ps, n) >= 0,
    decreases ps.len(),
{
    if ps.len() > 0 {
        lemma_uses_nonneg(m, ps.drop_last(), n);
    }
}

/// Setting a note's tags keeps every count equal to the number of uses of
/// its name over all the notes' tag lists (the note joins the list of notes
/// when it is new).
pub proof fn law_set_tags_keeps_counts(
    old_idx: TagIndex,
    new_idx: TagIndex,
    path: Seq<char>,
    tags: Vec<CachedTag>,
    ps: Seq<Seq<char>>,
)
    requires
        lists_notes(old_idx, ps),
        counts_agree(old_idx, ps),
        forall|n: Seq<char>| count_of(old_idx.counts.view(), n) + name_count(tags@, n) <= usize::MAX,
        new_idx.by_note.view() == old_idx.by_note.view().insert(path, tags),
        new_idx.counts.view() == counts_after_adding(
            counts_after_removal(old_idx.counts.view(), old_idx.tags_at(path)),
            tags@,
        ),
    ensures
        lists_notes(new_idx, if ps.contains(path) { ps } else { ps.push(path) }),
        counts_agree(new_idx, if ps.contains(path) { ps } else { ps.push(path) }),
{
    let m = old_idx.by_note.view();
    let ps2 = if ps.contains(path) { ps } else { ps.push(path) };
    if !ps.contains(path) {
        assert(ps2.no_duplicates()) by {
            assert forall|i: int, j: int| 0 <= i < ps2.len() && 0 <= j < ps2.len() && i != j implies ps2[i]
                != ps2[j] by {
                if i == ps.len() {
                    assert(ps2[j] == ps[j]);
                } else if j == ps.len() {
                    assert(ps2[i] == ps[i]);
                } else {
                    assert(ps2[i] == ps[i] && ps2[j] == ps[j]);
                }
            }
        }
        assert forall|p: Seq<char>| ps2.contains(p) <==> new_idx.by_note.view().contains_key(p) by {
            if ps2.contains(p) && p != path {
                let j = choose|j: int| 0 <= j < ps2.len() && ps2[j] == p;
                assert(j < ps.len());
                assert(ps[j] == p);
            }
            if p == path {
                assert(ps2[ps.len() as int] == path);
            } else if ps.contains(p) {
                let j = choose|j: int| 0 <= j < ps.len() && ps[j] == p;
                assert(ps2[j] == p);
            }
        }
    }
    assert forall|n: Seq<char>| #[trigger] count_of(new_idx.counts.view(), n) == total_uses(
        new_idx.by_note.view(),
        ps2,
        n,
    ) by {
        let old_n = name_count(values_at(m, path), n);
        assert(old_idx.tags_at(path) == values_at(m, path));
        if ps.contains(path) {
            lemma_uses_replaced(m, ps, path, tags, n);
        } else {
            lemma_uses_elsewhere(m, ps, path, tags, n);
            assert(!m.contains_key(path));
            assert(values_at(m, path) == Seq::<CachedTag>::empty());
            assert(ps2.drop_last() == ps);
            assert(values_at(m.insert(path, tags), path) == tags@);
        }
        assert(count_of(old_idx.counts.view(), n) == total_uses(m, ps, n));
    }
}

} // verus!
