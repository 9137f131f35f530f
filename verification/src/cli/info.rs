//! Vault statistics: how many notes, links, distinct tags, tasks, orphans
//! and broken links a vault holds.

use vstd::prelude::*;
use crate::config::TaskConfig;
use crate::graph::link_graph::{ilink_refs, LinkGraph, NoteSource};
use crate::health::run::{incoming_candidates, outgoing_of};
use crate::health::Issue;
use crate::parser::tag::{parse_tags, tag_occ};
use crate::parser::task::{parse_tasks, task_indices};
use crate::str_map::StrMap;
use crate::text::{byte_len, lemma_utf8_len_bounds, lines, lit, parent_of, path_parent};
use crate::graph::link_graph::{ilink_key, key_in, key_lt, lemma_key_lt_order, sorted_firsts, IncomingLink};

verus! {

/// Counts over a whole vault.
#[derive(Debug, Clone, Copy, PartialEq, Eq, Structural)]
pub struct VaultCounts {
    /// Number of notes.
    pub note_count: usize,
    /// Number of outgoing links, over all notes.
    pub link_count: usize,
    /// Number of distinct tag names.
    pub tag_count: usize,
    /// Number of tasks, over all notes that loaded.
    pub task_count: usize,
    /// Number of notes without incoming links.
    pub orphan_count: usize,
    /// Number of broken links.
    pub broken_link_count: usize,
}

/// Outgoing links of the notes `ns`, counted.
pub open spec fn links_total(g: LinkGraph, ns: Seq<NoteSource>) -> int
    decreases ns.len(),
{
    if ns.len() == 0 {
        0
    } else {
        links_total(g, ns.drop_last()) + outgoing_of(g, ns.last().path@).len()
    }
}

/// Notes of `ns` without incoming links, counted.
pub open spec fn orphans_total(g: LinkGraph, ns: Seq<NoteSource>) -> int
    decreases ns.len(),
{
    if ns.len() == 0 {
        0
    } else {
        orphans_total(g, ns.drop_last()) + if incoming_candidates(g, ns.last().path@).len() == 0 {
            1int
        } else {
            0int
        }
    }
}

/// The number of task lines of a note's content.
pub open spec fn task_lines(c: Seq<char>) -> int {
    task_indices(c, lines(c), lines(c).len() as int).len() as int
}

/// Tasks of the notes of `ns` that loaded, counted.
pub open spec fn tasks_total(ns: Seq<NoteSource>) -> int
    decreases ns.len(),
{
    if ns.len() == 0 {
        0
    } else {
        tasks_total(ns.drop_last()) + match ns.last().loaded {
            Ok(c) => task_lines(c@),
            Err(_) => 0int,
        }
    }
}

/// The first `k` tag names of a note's content.
pub open spec fn tag_names_upto(c: Seq<char>, k: int) -> Set<Seq<char>> {
    Set::new(|n: Seq<char>| exists|i: int| 0 <= i < k && n == #[trigger] c.subrange(tag_occ(c)[i].0, tag_occ(c)[i].1))
}

/// The distinct tag names of the notes of `ns` that loaded.
pub open spec fn tag_names(ns: Seq<NoteSource>) -> Set<Seq<char>>
    decreases ns.len(),
{
    if ns.len() == 0 {
        Set::empty()
    } else {
        tag_names(ns.drop_last()) + match ns.last().loaded {
            Ok(c) => tag_names_upto(c@, tag_occ(c@).len() as int),
            Err(_) => Set::empty(),
        }
    }
}

/// The counts of a vault with notes `ns`, link graph `g` and broken-link
/// issues `broken`.
pub open spec fn counts_of(ns: Seq<NoteSource>, g: LinkGraph, broken: Seq<Issue>) -> (int, int, int, int, int, int) {
    (
        ns.len() as int,
        links_total(g, ns),
        tag_names(ns).len() as int,
        tasks_total(ns),
        orphans_total(g, ns),
        broken.len() as int,
    )
}

/// The counts as a tuple.
pub open spec fn counts_view(c: VaultCounts) -> (int, int, int, int, int, int) {
    (
        c.note_count as int,
        c.link_count as int,
        c.tag_count as int,
        c.task_count as int,
        c.orphan_count as int,
        c.broken_link_count as int,
    )
}

fn add_tag_names(content: &str, names: &mut StrMap<bool>)
    requires
        old(names).wf(),
    ensures
        final(names).wf(),
        final(names).view().dom() == old(names).view().dom() + tag_names_upto(
            content@,
            tag_occ(content@).len() as int,
        ),
{
    let tags = parse_tags(content);
    let ghost c = content@;
    let ghost d0 = names.view().dom();
    let mut i: usize = 0;
    assert(d0 + tag_names_upto(c, 0) =~= d0);
    while i < tags.len()
        invariant
            i <= tags@.len(),
            names.wf(),
            c == content@,
            crate::parser::tag::tags_of(tags@, c),
            names.view().dom() == d0 + tag_names_upto(c, i as int),
        decreases tags@.len() - i,
    {
        let t = &tags[i];
        assert(crate::parser::tag::tag_describes(tags@[i as int], c, tag_occ(c)[i as int]));
        names.insert(t.name.clone(), true);
        assert forall|n: Seq<char>| #[trigger] names.view().dom().contains(n) <==> (d0 + tag_names_upto(
            c,
            i + 1,
        )).contains(n) by {
            if n == t.name@ {
                assert(n == c.subrange(tag_occ(c)[i as int].0, tag_occ(c)[i as int].1));
                assert(tag_names_upto(c, i + 1).contains(n));
            }
            if tag_names_upto(c, i + 1).contains(n) && !tag_names_upto(c, i as int).contains(n) {
                let j = choose|j: int| 0 <= j < i + 1 && n == #[trigger] c.subrange(tag_occ(c)[j].0, tag_occ(c)[j].1);
                assert(j == i);
            }
        }
        assert(names.view().dom() =~= d0 + tag_names_upto(c, i + 1));
        i = i + 1;
    }
}

/// Counts the notes, links, distinct tags, tasks (with `config`), orphans
/// and broken links (`broken`, the broken-link issues of a health run) of a
/// vault with notes `notes` and link graph `graph`.
pub fn vault_counts(notes: &[NoteSource], graph: &LinkGraph, broken: &[Issue], config: &TaskConfig) -> (r: VaultCounts)
    requires
        graph.wf(),
        links_total(*graph, notes@) <= usize::MAX,
        tasks_total(notes@) <= usize::MAX,
    ensures
        counts_view(r) == counts_of(notes@, *graph, broken@),
{
    let mut link_count: usize = 0;
    let mut task_count: usize = 0;
    let mut orphan_count: usize = 0;
    let mut names: StrMap<bool> = StrMap::new();
    let mut i: usize = 0;
    while i < notes.len()
        invariant
            i <= notes@.len(),
            graph.wf(),
            names.wf(),
            links_total(*graph, notes@) <= usize::MAX,
            tasks_total(notes@) <= usize::MAX,
            link_count == links_total(*graph, notes@.subrange(0, i as int)),
            task_count == tasks_total(notes@.subrange(0, i as int)),
            orphan_count == orphans_total(*graph, notes@.subrange(0, i as int)),
            orphan_count <= i,
            names.view().dom() == tag_names(notes@.subrange(0, i as int)),
        decreases notes@.len() - i,
    {
        let n = &notes[i];
        let ghost pre = notes@.subrange(0, i as int);
        assert(notes@.subrange(0, i + 1).drop_last() =~= pre);
        assert(notes@.subrange(0, i + 1).last() == *n);
        proof {
            lemma_links_prefix(*graph, notes@, i + 1);
            lemma_tasks_prefix(notes@, i + 1);
        }
        let out = graph.get_outgoing(n.path.as_str());
        assert(out@.len() == outgoing_of(*graph, n.path@).len());
        link_count = link_count + out.len();
        let incoming = graph.get_incoming(n.path.as_str());
        proof {
            let cands = incoming_candidates(*graph, n.path@);
            let rv = ilink_refs(incoming@);
            if rv.len() > 0 {
                assert(0 <= crate::graph::link_graph::first_key_from(cands, crate::graph::link_graph::ilink_key(rv[0]), 0));
            }
            if cands.len() > 0 {
                assert(crate::graph::link_graph::key_in(rv, crate::graph::link_graph::ilink_key(cands[0])));
            }
        }
        if incoming.len() == 0 {
            orphan_count = orphan_count + 1;
        }
        match &n.loaded {
            Ok(c) => {
                let ts = parse_tasks(c.as_str(), n.path.as_str(), config);
                task_count = task_count + ts.len();
                add_tag_names(c.as_str(), &mut names);
            },
            Err(_) => {
                assert(names.view().dom() =~= tag_names(notes@.subrange(0, i + 1)));
            },
        }
        i = i + 1;
    }
    assert(notes@.subrange(0, notes@.len() as int) =~= notes@);
    let tag_count = names.len();
    VaultCounts {
        note_count: notes.len(),
        link_count,
        tag_count,
        task_count,
        orphan_count,
        broken_link_count: broken.len(),
    }
}

proof fn lemma_links_prefix(g: LinkGraph, ns: Seq<NoteSource>, k: int)
    requires
        0 <= k <= ns.len(),
    ensures
        links_total(g, ns.subrange(0, k)) <= links_total(g, ns),
    decreases ns.len() - k,
{
    if k < ns.len() {
        lemma_links_prefix(g, ns, k + 1);
        assert(ns.subrange(0, k + 1).drop_last() =~= ns.subrange(0, k));
    } else {
        assert(ns.subrange(0, k) =~= ns);
    }
}

proof fn lemma_tasks_prefix(ns: Seq<NoteSource>, k: int)
    requires
        0 <= k <= ns.len(),
    ensures
        tasks_total(ns.subrange(0, k)) <= tasks_total(ns),
    decreases ns.len() - k,
{
    if k < ns.len() {
        lemma_tasks_prefix(ns, k + 1);
        assert(ns.subrange(0, k + 1).drop_last() =~= ns.subrange(0, k));
    } else {
        assert(ns.subrange(0, k) =~= ns);
    }
}


// ---------------------------------------------------------------------------
// Extended statistics
// ---------------------------------------------------------------------------

/// A tag and how many times it occurs in the vault.
#[derive(Debug, Clone, PartialEq, Eq)]
pub struct TagCount {
    pub tag: String,
    pub count: usize,
}

/// A note and how many links point to it.
#[derive(Debug, Clone, PartialEq, Eq)]
pub struct LinkedNote {
    pub note: String,
    pub incoming: usize,
}

/// Extended statistics of a vault: notes per folder, the most used tags and
/// the most linked notes.
#[derive(Debug, Clone)]
pub struct DetailedStats {
    /// Number of notes in each folder (`.` for the vault root).
    pub notes_by_folder: StrMap<usize>,
    /// Up to ten tags, most used first.
    pub top_tags: Vec<TagCount>,
    /// Up to ten notes with incoming links, most linked first.
    pub top_linked: Vec<LinkedNote>,
}

/// How many entries the top lists keep.
pub const TOP_LIMIT: usize = 10;

/// The folder of a note: its parent path, or `.` when it has none.
pub open spec fn folder_of(p: Seq<char>) -> Seq<char> {
    match path_parent(p) {
        Some(x) => if x.len() == 0 { "."@ } else { x },
        None => "."@,
    }
}

/// Notes of `ns` in folder `f`, counted.
pub open spec fn folder_total(ns: Seq<NoteSource>, f: Seq<char>) -> int
    decreases ns.len(),
{
    if ns.len() == 0 {
        0
    } else {
        folder_total(ns.drop_last(), f) + if folder_of(ns.last().path@) == f { 1int } else { 0int }
    }
}

/// Notes per folder, as a map.
pub open spec fn folder_map(ns: Seq<NoteSource>) -> Map<Seq<char>, int> {
    Map::new(|f: Seq<char>| folder_total(ns, f) > 0, |f: Seq<char>| folder_total(ns, f))
}

/// The name of tag occurrence `i` of a content.
pub open spec fn tag_name(c: Seq<char>, i: int) -> Seq<char> {
    c.subrange(tag_occ(c)[i].0, tag_occ(c)[i].1)
}

/// Occurrences of tag `n` among the first `k` tags of a content.
pub open spec fn tag_hits(c: Seq<char>, k: int, n: Seq<char>) -> int
    decreases k,
{
    if k <= 0 {
        0
    } else {
        tag_hits(c, k - 1, n) + if tag_name(c, k - 1) == n { 1int } else { 0int }
    }
}

/// Occurrences of tag `n` in the notes of `ns` that loaded.
pub open spec fn tag_total(ns: Seq<NoteSource>, n: Seq<char>) -> int
    decreases ns.len(),
{
    if ns.len() == 0 {
        0
    } else {
        tag_total(ns.drop_last(), n) + match ns.last().loaded {
            Ok(c) => tag_hits(c@, tag_occ(c@).len() as int, n),
            Err(_) => 0int,
        }
    }
}

/// Tag occurrences of the notes of `ns` that loaded, counted.
pub open spec fn tags_occ_total(ns: Seq<NoteSource>) -> int
    decreases ns.len(),
{
    if ns.len() == 0 {
        0
    } else {
        tags_occ_total(ns.drop_last()) + match ns.last().loaded {
            Ok(c) => tag_occ(c@).len() as int,
            Err(_) => 0int,
        }
    }
}

/// Tag counts, as a map over the tags that occur.
pub open spec fn tag_count_map(ns: Seq<NoteSource>) -> Map<Seq<char>, int> {
    Map::new(|n: Seq<char>| tag_total(ns, n) > 0, |n: Seq<char>| tag_total(ns, n))
}

/// The number of distinct links pointing to the note at `p`.
pub open spec fn incoming_count(g: LinkGraph, p: Seq<char>) -> int {
    incoming_candidates(g, p).map_values(|il: IncomingLink| ilink_key(il)).to_set().len() as int
}

/// Incoming-link counts of the notes of `ns` that have any, as a map.
pub open spec fn linked_map(g: LinkGraph, ns: Seq<NoteSource>) -> Map<Seq<char>, int> {
    Map::new(
        |p: Seq<char>| (exists|i: int| 0 <= i < ns.len() && #[trigger] ns[i].path@ == p) && incoming_count(g, p) > 0,
        |p: Seq<char>| incoming_count(g, p),
    )
}

/// `r` lists up to `limit` entries of `m`, each once with its value, in
/// non-increasing order of value; an entry left out has a value no larger
/// than the last listed one, and is left out only when `limit` entries are
/// listed.
pub open spec fn is_top_list(m: Map<Seq<char>, int>, r: Seq<(Seq<char>, int)>, limit: int) -> bool {
    &&& r.len() <= limit
    &&& forall|i: int| 0 <= i < r.len() ==> m.contains_key((#[trigger] r[i]).0) && m[r[i].0] == r[i].1
    &&& forall|i: int, j: int| 0 <= i < j < r.len() ==> (#[trigger] r[i]).0 != (#[trigger] r[j]).0 && r[i].1 >= r[j].1
    &&& forall|k: Seq<char>|
        #![trigger m.contains_key(k)]
        m.contains_key(k) && !(exists|i: int| 0 <= i < r.len() && (#[trigger] r[i]).0 == k) ==> r.len() == limit && r.len()
            > 0 && m[k] <= r.last().1
}

/// Tag counts as plain values.
pub open spec fn tag_counts_view(v: Seq<TagCount>) -> Seq<(Seq<char>, int)> {
    v.map_values(|t: TagCount| (t.tag@, t.count as int))
}

/// Linked notes as plain values.
pub open spec fn linked_view(v: Seq<LinkedNote>) -> Seq<(Seq<char>, int)> {
    v.map_values(|t: LinkedNote| (t.note@, t.incoming as int))
}

/// Entries as plain values.
pub open spec fn entries_view(v: Seq<(String, usize)>) -> Seq<(Seq<char>, int)> {
    v.map_values(|t: (String, usize)| (t.0@, t.1 as int))
}

/// The entries have distinct keys.
pub open spec fn keys_distinct(v: Seq<(Seq<char>, int)>) -> bool {
    forall|i: int, j: int| 0 <= i < j < v.len() ==> (#[trigger] v[i]).0 != (#[trigger] v[j]).0
}

/// The first `limit` entries by value, largest first (the first of equal
/// values first), by repeated selection of the largest remaining entry.
fn top_entries(items: &Vec<(String, usize)>, limit: usize) -> (r: Vec<(String, usize)>)
    requires
        keys_distinct(entries_view(items@)),
        limit > 0,
    ensures
        is_top_list(
            Map::new(
                |k: Seq<char>| exists|j: int| 0 <= j < items@.len() && (#[trigger] items@[j]).0@ == k,
                |k: Seq<char>| entries_view(items@)[choose|j: int| 0 <= j < items@.len() && (#[trigger] items@[j]).0@ == k].1,
            ),
            entries_view(r@),
            limit as int,
        ),
{
    let ghost iv = entries_view(items@);
    let n = items.len();
    let mut taken: Vec<bool> = Vec::new();
    let mut t: usize = 0;
    while t < n
        invariant
            t <= n == items@.len(),
            taken@.len() == t,
            forall|j: int| 0 <= j < t ==> !(#[trigger] taken@[j]),
        decreases n - t,
    {
        taken.push(false);
        t = t + 1;
    }
    let mut r: Vec<(String, usize)> = Vec::new();
    let ghost mut idx: Seq<int> = Seq::empty();
    while r.len() < limit
        invariant
            n == items@.len(),
            iv == entries_view(items@),
            keys_distinct(iv),
            taken@.len() == n,
            r@.len() <= limit,
            idx.len() == r@.len(),
            forall|i: int| 0 <= i < idx.len() ==> 0 <= #[trigger] idx[i] < n && taken@[idx[i]],
            forall|i: int| 0 <= i < idx.len() ==> entries_view(r@)[i] == iv[#[trigger] idx[i]],
            forall|i: int, j: int| 0 <= i < j < idx.len() ==> #[trigger] idx[i] != #[trigger] idx[j],
            forall|j: int| 0 <= j < n && #[trigger] taken@[j] ==> exists|i: int| 0 <= i < idx.len() && idx[i] == j,
            forall|i: int, j: int| 0 <= i < j < r@.len() ==> (#[trigger] r@[i]).1 >= (#[trigger] r@[j]).1,
            limit > 0,
            forall|j: int| 0 <= j < n && !(#[trigger] taken@[j]) ==> r@.len() == 0 || items@[j].1 <= r@.last().1,
        ensures
            r@.len() <= limit,
            idx.len() == r@.len(),
            taken@.len() == n,
            forall|i: int| 0 <= i < idx.len() ==> 0 <= #[trigger] idx[i] < n && taken@[idx[i]],
            forall|i: int| 0 <= i < idx.len() ==> entries_view(r@)[i] == iv[#[trigger] idx[i]],
            forall|i: int, j: int| 0 <= i < j < idx.len() ==> #[trigger] idx[i] != #[trigger] idx[j],
            forall|j: int| 0 <= j < n && #[trigger] taken@[j] ==> exists|i: int| 0 <= i < idx.len() && idx[i] == j,
            forall|i: int, j: int| 0 <= i < j < r@.len() ==> (#[trigger] r@[i]).1 >= (#[trigger] r@[j]).1,
            forall|j: int| 0 <= j < n && !(#[trigger] taken@[j]) ==> r@.len() == limit && r@.len() > 0 && items@[j].1
                <= r@.last().1,
        decreases limit - r@.len(),
    {
        // The largest untaken entry, the first of equal ones.
        let mut best: Option<usize> = None;
        let mut j: usize = 0;
        while j < n
            invariant
                j <= n == items@.len(),
                taken@.len() == n,
                match best {
                    Some(b) => b < j && !taken@[b as int] && forall|x: int|
                        0 <= x < j && !(#[trigger] taken@[x]) ==> items@[x].1 <= items@[b as int].1,
                    None => forall|x: int| 0 <= x < j ==> #[trigger] taken@[x],
                },
            decreases n - j,
        {
            if !taken[j] {
                match best {
                    Some(b) => {
                        if items[j].1 > items[b].1 {
                            best = Some(j);
                        }
                    },
                    None => {
                        best = Some(j);
                    },
                }
            }
            j = j + 1;
        }
        match best {
            None => {
                break;
            },
            Some(b) => {
                let ghost r0 = r@;
                let ghost t0 = taken@;
                let ghost idx0 = idx;
                let e = (items[b].0.clone(), items[b].1);
                r.push(e);
                taken.set(b, true);
                proof {
                    idx = idx.push(b as int);
                    assert(entries_view(r@)[r@.len() - 1] == iv[b as int]);
                    assert forall|i: int| 0 <= i < idx.len() implies entries_view(r@)[i] == iv[#[trigger] idx[i]] by {
                        if i < r0.len() {
                            assert(entries_view(r@)[i] == entries_view(r0)[i]);
                        }
                    }
                    assert forall|j2: int| 0 <= j2 < n && #[trigger] taken@[j2] implies exists|i: int|
                        0 <= i < idx.len() && idx[i] == j2 by {
                        if j2 != b {
                            assert(t0[j2]);
                            let i = choose|i: int| 0 <= i < idx0.len() && idx0[i] == j2;
                            assert(idx[i] == j2);
                        } else {
                            assert(idx[idx.len() - 1] == j2);
                        }
                    }
                    assert forall|i: int, j2: int| 0 <= i < j2 < r@.len() implies (#[trigger] r@[i]).1 >= (
                    #[trigger] r@[j2]).1 by {
                        if j2 == r@.len() - 1 && i < r0.len() {
                            assert(r@[i] == r0[i]);
                            assert(r0.len() > 0 && items@[b as int].1 <= r0.last().1);
                            assert(r0[i].1 >= r0.last().1 || i == r0.len() - 1);
                        }
                    }
                }
            },
        }
    }
    proof {
        let m = Map::new(
            |k: Seq<char>| exists|j: int| 0 <= j < items@.len() && (#[trigger] items@[j]).0@ == k,
            |k: Seq<char>| entries_view(items@)[choose|j: int| 0 <= j < items@.len() && (#[trigger] items@[j]).0@ == k].1,
        );
        let rv = entries_view(r@);
        assert forall|i: int| 0 <= i < rv.len() implies m.contains_key((#[trigger] rv[i]).0) && m[rv[i].0] == rv[i].1 by {
            let j = idx[i];
            assert(rv[i] == iv[j]);
            assert(items@[j].0@ == rv[i].0);
            let c = choose|c: int| 0 <= c < items@.len() && (#[trigger] items@[c]).0@ == rv[i].0;
            if c != j {
                assert(iv[c].0 == iv[j].0);
            }
        }
        assert forall|i: int, j2: int| 0 <= i < j2 < rv.len() implies (#[trigger] rv[i]).0 != (#[trigger] rv[j2]).0 && rv[i].1
            >= rv[j2].1 by {
            assert(idx[i] != idx[j2]);
            assert(rv[i] == iv[idx[i]] && rv[j2] == iv[idx[j2]]);
            assert(r@[i].1 >= r@[j2].1);
        }
        assert forall|k: Seq<char>|
            #![trigger m.contains_key(k)]
            m.contains_key(k) && !(exists|i: int| 0 <= i < rv.len() && (#[trigger] rv[i]).0 == k) implies rv.len() == limit
                && rv.len() > 0 && m[k] <= rv.last().1 by {
            let j = choose|j: int| 0 <= j < items@.len() && (#[trigger] items@[j]).0@ == k;
            if taken@[j] {
                let i = choose|i: int| 0 <= i < idx.len() && idx[i] == j;
                assert(rv[i] == iv[j]);
                assert(rv[i].0 == k);
            }
            assert(rv.last() == entries_view(r@)[rv.len() - 1]);
        }
    }
    r
}

/// The map `m` holds the keys of `w`, each with its value.
pub open spec fn counts_match(m: Map<Seq<char>, usize>, w: Map<Seq<char>, int>) -> bool {
    &&& forall|k: Seq<char>| #[trigger] m.contains_key(k) <==> w.contains_key(k)
    &&& forall|k: Seq<char>| #[trigger] m.contains_key(k) ==> m[k] as int == w[k]
}

/// The entries of a map of counts, as a map over integers (those with a
/// positive count only, with `positive_only`).
pub open spec fn int_counts(m: Map<Seq<char>, usize>, positive_only: bool) -> Map<Seq<char>, int> {
    Map::new(|k: Seq<char>| m.contains_key(k) && (!positive_only || m[k] > 0), |k: Seq<char>| m[k] as int)
}

/// The top entries of a map of counts.
fn top_of(m: &StrMap<usize>, positive_only: bool) -> (r: Vec<(String, usize)>)
    requires
        m.wf(),
    ensures
        is_top_list(int_counts(m.view(), positive_only), entries_view(r@), TOP_LIMIT as int),
{
    let keys = m.keys();
    let mut items: Vec<(String, usize)> = Vec::new();
    let mut i: usize = 0;
    while i < keys.len()
        invariant
            i <= keys@.len(),
            m.wf(),
            forall|a: int, b: int| 0 <= a < b < keys@.len() ==> (#[trigger] keys@[a])@ != (#[trigger] keys@[b])@,
            forall|a: int| 0 <= a < keys@.len() ==> m.view().contains_key(#[trigger] keys@[a]@),
            keys_distinct(entries_view(items@)),
            forall|x: int| 0 <= x < items@.len() ==> exists|y: int| 0 <= y < i && (#[trigger] items@[x]).0@ == keys@[y]@,
            forall|x: int| 0 <= x < items@.len() ==> int_counts(m.view(), positive_only).contains_key((#[trigger] items@[x]).0@)
                && items@[x].1 == m.view()[items@[x].0@],
            forall|y: int| 0 <= y < i && int_counts(m.view(), positive_only).contains_key((#[trigger] keys@[y])@) ==> exists|x: int|
                0 <= x < items@.len() && items@[x].0@ == keys@[y]@,
        decreases keys@.len() - i,
    {
        let k = &keys[i];
        let v = match m.get(k.as_str()) {
            Some(v) => *v,
            None => 0,
        };
        let ghost before = items@;
        if !positive_only || v > 0 {
            items.push((k.clone(), v));
            proof {
                assert forall|x: int, z: int| 0 <= x < z < items@.len() implies (#[trigger] entries_view(items@)[x]).0 != (
                #[trigger] entries_view(items@)[z]).0 by {
                    assert(entries_view(items@)[x].0 == items@[x].0@);
                    assert(entries_view(items@)[z].0 == items@[z].0@);
                    if z == items@.len() - 1 {
                        let y = choose|y: int| 0 <= y < i && (#[trigger] items@[x]).0@ == keys@[y]@;
                        assert(keys@[y]@ != keys@[i as int]@);
                    } else {
                        assert(entries_view(before)[x].0 != entries_view(before)[z].0);
                    }
                }
                assert forall|x: int| 0 <= x < items@.len() implies exists|y: int| 0 <= y < i + 1 && (#[trigger] items@[x]).0@
                    == keys@[y]@ by {
                    if x < before.len() {
                        assert(items@[x] == before[x]);
                    } else {
                        assert(items@[x].0@ == keys@[i as int]@);
                    }
                }
                assert forall|y: int| 0 <= y < i + 1 && int_counts(m.view(), positive_only).contains_key((#[trigger] keys@[y])@) implies exists|x: int|
                    0 <= x < items@.len() && items@[x].0@ == keys@[y]@ by {
                    if y < i {
                        let x = choose|x: int| 0 <= x < before.len() && before[x].0@ == keys@[y]@;
                        assert(items@[x] == before[x]);
                    } else {
                        assert(items@[items@.len() - 1].0@ == keys@[y]@);
                    }
                }
            }
        } else {
            proof {
                assert(!int_counts(m.view(), positive_only).contains_key(keys@[i as int]@));
                assert forall|x: int| 0 <= x < items@.len() implies exists|y: int| 0 <= y < i + 1 && (#[trigger] items@[x]).0@
                    == keys@[y]@ by {
                    let y = choose|y: int| 0 <= y < i && (#[trigger] items@[x]).0@ == keys@[y]@;
                }
            }
        }
        i = i + 1;
    }
    let r = top_entries(&items, TOP_LIMIT);
    proof {
        let mi = Map::new(
            |k: Seq<char>| exists|j: int| 0 <= j < items@.len() && (#[trigger] items@[j]).0@ == k,
            |k: Seq<char>| entries_view(items@)[choose|j: int| 0 <= j < items@.len() && (#[trigger] items@[j]).0@ == k].1,
        );
        let w = int_counts(m.view(), positive_only);
        assert forall|k: Seq<char>| #[trigger] mi.contains_key(k) <==> w.contains_key(k) by {
            if w.contains_key(k) {
                let y = choose|y: int| 0 <= y < keys@.len() && keys@[y]@ == k;
                assert(w.contains_key(keys@[y]@));
            }
        }
        assert forall|k: Seq<char>| #[trigger] mi.contains_key(k) implies mi[k] == w[k] by {
            let j = choose|j: int| 0 <= j < items@.len() && (#[trigger] items@[j]).0@ == k;
            assert(entries_view(items@)[j].1 == items@[j].1);
        }
        assert(mi =~= w);
    }
    r
}

/// The folder of a note, as `folder_of` says.
fn folder_name(path: &str) -> (r: String)
    ensures
        r@ == folder_of(path@),
{
    match parent_of(path) {
        Some(p) => {
            let n = byte_len(p.as_str());
            proof {
                lemma_utf8_len_bounds(p@);
            }
            if n == 0 {
                lit(".")
            } else {
                p
            }
        },
        None => lit("."),
    }
}

/// Notes per folder.
fn folder_counts(notes: &[NoteSource]) -> (r: StrMap<usize>)
    ensures
        r.wf(),
        counts_match(r.view(), folder_map(notes@)),
{
    let mut m: StrMap<usize> = StrMap::new();
    let mut i: usize = 0;
    while i < notes.len()
        invariant
            i <= notes@.len(),
            m.wf(),
            forall|k: Seq<char>| #[trigger] m.view().contains_key(k) <==> folder_total(notes@.subrange(0, i as int), k) > 0,
            forall|k: Seq<char>| #[trigger] m.view().contains_key(k) ==> m.view()[k] as int == folder_total(
                notes@.subrange(0, i as int),
                k,
            ),
            forall|k: Seq<char>| 0 <= #[trigger] folder_total(notes@.subrange(0, i as int), k) <= i,
        decreases notes@.len() - i,
    {
        let ghost pre = notes@.subrange(0, i as int);
        let ghost post = notes@.subrange(0, i + 1);
        assert(post.drop_last() =~= pre);
        let f = folder_name(notes[i].path.as_str());
        let cur: usize = match m.get(f.as_str()) {
            Some(v) => *v,
            None => 0,
        };
        assert(folder_total(pre, f@) <= i);
        assert(cur as int == folder_total(pre, f@));
        m.insert(f, cur + 1);
        proof {
            assert forall|k: Seq<char>| 0 <= #[trigger] folder_total(post, k) <= i + 1 by {
                assert(folder_total(pre, k) <= i);
            }
            assert forall|k: Seq<char>| #[trigger] m.view().contains_key(k) <==> folder_total(post, k) > 0 by {
                assert(folder_total(pre, k) >= 0);
            }
        }
        i = i + 1;
    }
    proof {
        assert(notes@.subrange(0, notes@.len() as int) =~= notes@);
    }
    m
}

proof fn lemma_tag_hits_bounds(c: Seq<char>, k: int, n: Seq<char>)
    ensures
        0 <= tag_hits(c, k, n),
        k >= 0 ==> tag_hits(c, k, n) <= k,
    decreases k,
{
    if k > 0 {
        lemma_tag_hits_bounds(c, k - 1, n);
    }
}

proof fn lemma_tag_total_bounds(ns: Seq<NoteSource>, n: Seq<char>)
    ensures
        0 <= tag_total(ns, n) <= tags_occ_total(ns),
    decreases ns.len(),
{
    if ns.len() > 0 {
        lemma_tag_total_bounds(ns.drop_last(), n);
        match ns.last().loaded {
            Ok(c) => lemma_tag_hits_bounds(c@, tag_occ(c@).len() as int, n),
            Err(_) => {},
        }
    }
}

proof fn lemma_occ_prefix(ns: Seq<NoteSource>, k: int)
    requires
        0 <= k <= ns.len(),
    ensures
        tags_occ_total(ns.subrange(0, k)) <= tags_occ_total(ns),
    decreases ns.len() - k,
{
    if k < ns.len() {
        lemma_occ_prefix(ns, k + 1);
        assert(ns.subrange(0, k + 1).drop_last() =~= ns.subrange(0, k));
    } else {
        assert(ns.subrange(0, k) =~= ns);
    }
}

/// Adds the tag occurrences of one content to the counts.
fn count_tags_of(content: &str, m: &mut StrMap<usize>, Ghost(base): Ghost<Seq<NoteSource>>, Ghost(limit): Ghost<int>)
    requires
        old(m).wf(),
        tags_occ_total(base) + tag_occ(content@).len() <= limit <= usize::MAX,
        forall|k: Seq<char>| #[trigger] old(m).view().contains_key(k) <==> tag_total(base, k) > 0,
        forall|k: Seq<char>| #[trigger] old(m).view().contains_key(k) ==> old(m).view()[k] as int == tag_total(base, k),
    ensures
        final(m).wf(),
        forall|k: Seq<char>| #[trigger] final(m).view().contains_key(k) <==> tag_total(base, k) + tag_hits(
            content@,
            tag_occ(content@).len() as int,
            k,
        ) > 0,
        forall|k: Seq<char>| #[trigger] final(m).view().contains_key(k) ==> final(m).view()[k] as int == tag_total(base, k)
            + tag_hits(content@, tag_occ(content@).len() as int, k),
{
    let tags = parse_tags(content);
    let ghost c = content@;
    let mut i: usize = 0;
    while i < tags.len()
        invariant
            i <= tags@.len(),
            m.wf(),
            c == content@,
            crate::parser::tag::tags_of(tags@, c),
            tags_occ_total(base) + tag_occ(c).len() <= limit <= usize::MAX,
            forall|k: Seq<char>| #[trigger] m.view().contains_key(k) <==> tag_total(base, k) + tag_hits(c, i as int, k) > 0,
            forall|k: Seq<char>| #[trigger] m.view().contains_key(k) ==> m.view()[k] as int == tag_total(base, k) + tag_hits(
                c,
                i as int,
                k,
            ),
        decreases tags@.len() - i,
    {
        let t = &tags[i];
        assert(crate::parser::tag::tag_describes(tags@[i as int], c, tag_occ(c)[i as int]));
        assert(t.name@ == tag_name(c, i as int));
        let cur: usize = match m.get(t.name.as_str()) {
            Some(v) => *v,
            None => 0,
        };
        proof {
            lemma_tag_total_bounds(base, t.name@);
            lemma_tag_hits_bounds(c, i as int, t.name@);
            if m.view().contains_key(t.name@) {
                assert(cur as int == tag_total(base, t.name@) + tag_hits(c, i as int, t.name@));
            } else {
                assert(tag_total(base, t.name@) + tag_hits(c, i as int, t.name@) == 0);
            }
        }
        m.insert(t.name.clone(), cur + 1);
        proof {
            assert forall|k: Seq<char>| #[trigger] m.view().contains_key(k) <==> tag_total(base, k) + tag_hits(c, i + 1, k) > 0 by {
                lemma_tag_total_bounds(base, k);
                lemma_tag_hits_bounds(c, i as int, k);
            }
        }
        i = i + 1;
    }
}

/// Tag occurrences per tag name, over the notes that loaded.
pub fn tag_counts(notes: &[NoteSource]) -> (r: StrMap<usize>)
    requires
        tags_occ_total(notes@) <= usize::MAX,
    ensures
        r.wf(),
        counts_match(r.view(), tag_count_map(notes@)),
{
    let mut m: StrMap<usize> = StrMap::new();
    let mut i: usize = 0;
    while i < notes.len()
        invariant
            i <= notes@.len(),
            m.wf(),
            tags_occ_total(notes@) <= usize::MAX,
            forall|k: Seq<char>| #[trigger] m.view().contains_key(k) <==> tag_total(notes@.subrange(0, i as int), k) > 0,
            forall|k: Seq<char>| #[trigger] m.view().contains_key(k) ==> m.view()[k] as int == tag_total(
                notes@.subrange(0, i as int),
                k,
            ),
        decreases notes@.len() - i,
    {
        let ghost pre = notes@.subrange(0, i as int);
        let ghost post = notes@.subrange(0, i + 1);
        assert(post.drop_last() =~= pre);
        proof {
            lemma_occ_prefix(notes@, i + 1);
        }
        match &notes[i].loaded {
            Ok(c) => {
                count_tags_of(c.as_str(), &mut m, Ghost(pre), Ghost(tags_occ_total(notes@)));
            },
            Err(_) => {},
        }
        i = i + 1;
    }
    proof {
        assert(notes@.subrange(0, notes@.len() as int) =~= notes@);
    }
    m
}

/// The number of entries that `get_incoming` lists is the number of
/// distinct keys among the candidates.
proof fn lemma_sorted_firsts_len(r: Seq<IncomingLink>, cands: Seq<IncomingLink>)
    requires
        sorted_firsts(r, cands),
    ensures
        r.len() == cands.map_values(|il: IncomingLink| ilink_key(il)).to_set().len(),
{
    let rk = r.map_values(|il: IncomingLink| ilink_key(il));
    let ck = cands.map_values(|il: IncomingLink| ilink_key(il));
    assert forall|i: int, j: int| 0 <= i < rk.len() && 0 <= j < rk.len() && i != j implies rk[i] != rk[j] by {
        lemma_key_lt_order(rk[i], rk[j], rk[i]);
        if i < j {
            assert(key_lt(ilink_key(r[i]), ilink_key(r[j])));
        } else {
            assert(key_lt(ilink_key(r[j]), ilink_key(r[i])));
        }
    }
    assert(rk.no_duplicates());
    rk.unique_seq_to_set();
    assert forall|k: (Seq<char>, int, int)| rk.to_set().contains(k) <==> ck.to_set().contains(k) by {
        if rk.to_set().contains(k) {
            let i = choose|i: int| 0 <= i < rk.len() && rk[i] == k;
            let f = crate::graph::link_graph::first_key_from(cands, ilink_key(r[i]), 0);
            crate::graph::link_graph::lemma_first_key_found(cands, ilink_key(r[i]), 0);
            assert(0 <= f && cands[f] == r[i]);
            assert(ck[f] == k);
        }
        if ck.to_set().contains(k) {
            let c = choose|c: int| 0 <= c < ck.len() && ck[c] == k;
            assert(key_in(r, ilink_key(cands[c])));
            let i = choose|i: int| 0 <= i < r.len() && ilink_key(#[trigger] r[i]) == ilink_key(cands[c]);
            assert(rk[i] == k);
        }
    }
    assert(rk.to_set() =~= ck.to_set());
}

/// Incoming-link counts per note path.
fn incoming_counts(notes: &[NoteSource], graph: &LinkGraph) -> (r: StrMap<usize>)
    requires
        graph.wf(),
    ensures
        r.wf(),
        forall|p: Seq<char>| #[trigger] r.view().contains_key(p) <==> exists|i: int| 0 <= i < notes@.len() && #[trigger] notes@[i].path@ == p,
        forall|p: Seq<char>| #[trigger] r.view().contains_key(p) ==> r.view()[p] as int == incoming_count(*graph, p),
{
    let mut m: StrMap<usize> = StrMap::new();
    let mut i: usize = 0;
    while i < notes.len()
        invariant
            i <= notes@.len(),
            m.wf(),
            graph.wf(),
            forall|p: Seq<char>| #[trigger] m.view().contains_key(p) <==> exists|j: int| 0 <= j < i && #[trigger] notes@[j].path@ == p,
            forall|p: Seq<char>| #[trigger] m.view().contains_key(p) ==> m.view()[p] as int == incoming_count(*graph, p),
        decreases notes@.len() - i,
    {
        let n = &notes[i];
        let incoming = graph.get_incoming(n.path.as_str());
        proof {
            lemma_sorted_firsts_len(crate::graph::link_graph::ilink_refs(incoming@), incoming_candidates(*graph, n.path@));
        }
        m.insert(n.path.clone(), incoming.len());
        proof {
            assert forall|p: Seq<char>| #[trigger] m.view().contains_key(p) <==> exists|j: int| 0 <= j < i + 1 && #[trigger] notes@[j].path@ == p by {
                if p == n.path@ {
                    assert(notes@[i as int].path@ == p);
                }
            }
        }
        i = i + 1;
    }
    m
}

/// Extended statistics of a vault with notes `notes` and link graph
/// `graph`: the notes per folder, up to ten most used tags and up to ten
/// most linked notes (each list largest first; among equal counts the order
/// is not fixed).
pub fn detailed_stats(notes: &[NoteSource], graph: &LinkGraph) -> (r: DetailedStats)
    requires
        graph.wf(),
        tags_occ_total(notes@) <= usize::MAX,
    ensures
        r.notes_by_folder.wf(),
        counts_match(r.notes_by_folder.view(), folder_map(notes@)),
        is_top_list(tag_count_map(notes@), tag_counts_view(r.top_tags@), TOP_LIMIT as int),
        is_top_list(linked_map(*graph, notes@), linked_view(r.top_linked@), TOP_LIMIT as int),
{
    let notes_by_folder = folder_counts(notes);
    let tags = tag_counts(notes);
    let tag_top = top_of(&tags, false);
    proof {
        assert(int_counts(tags.view(), false) =~= tag_count_map(notes@));
    }
    let links = incoming_counts(notes, graph);
    let link_top = top_of(&links, true);
    proof {
        assert(int_counts(links.view(), true) =~= linked_map(*graph, notes@));
    }
    let mut top_tags: Vec<TagCount> = Vec::new();
    let mut i: usize = 0;
    while i < tag_top.len()
        invariant
            i <= tag_top@.len(),
            top_tags@.len() == i,
            tag_counts_view(top_tags@) == entries_view(tag_top@).subrange(0, i as int),
        decreases tag_top@.len() - i,
    {
        let ghost before = top_tags@;
        let tag = tag_top[i].0.clone();
        top_tags.push(TagCount { tag, count: tag_top[i].1 });
        assert forall|x: int| 0 <= x < i + 1 implies #[trigger] tag_counts_view(top_tags@)[x] == entries_view(tag_top@)[x] by {
            if x < i {
                assert(top_tags@[x] == before[x]);
                assert(tag_counts_view(before)[x] == entries_view(tag_top@).subrange(0, i as int)[x]);
            }
        }
        assert(tag_counts_view(top_tags@) =~= entries_view(tag_top@).subrange(0, i + 1));
        i = i + 1;
    }
    assert(entries_view(tag_top@).subrange(0, tag_top@.len() as int) =~= entries_view(tag_top@));
    let mut top_linked: Vec<LinkedNote> = Vec::new();
    let mut i: usize = 0;
    while i < link_top.len()
        invariant
            i <= link_top@.len(),
            top_linked@.len() == i,
            linked_view(top_linked@) == entries_view(link_top@).subrange(0, i as int),
        decreases link_top@.len() - i,
    {
        let ghost before = top_linked@;
        let note = link_top[i].0.clone();
        top_linked.push(LinkedNote { note, incoming: link_top[i].1 });
        assert forall|x: int| 0 <= x < i + 1 implies #[trigger] linked_view(top_linked@)[x] == entries_view(link_top@)[x] by {
            if x < i {
                assert(top_linked@[x] == before[x]);
                assert(linked_view(before)[x] == entries_view(link_top@).subrange(0, i as int)[x]);
            }
        }
        assert(linked_view(top_linked@) =~= entries_view(link_top@).subrange(0, i + 1));
        i = i + 1;
    }
    assert(entries_view(link_top@).subrange(0, link_top@.len() as int) =~= entries_view(link_top@));
    DetailedStats { notes_by_folder, top_tags, top_linked }
}

} // verus!
