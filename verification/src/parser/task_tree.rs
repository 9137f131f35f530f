//! Task hierarchies: tasks grouped by file, each top-level task with the
//! tasks that name it as their parent.

use vstd::prelude::*;
use crate::config::{EmojiFieldDef, TaskConfig};
use crate::parser::task::{
    marker_end, processed, spec_indent, strip_block, task_layout, task_line_is, HierarchicalTask, Task,
    TaskChild, TaskTextItem,
};
use crate::text::{lines, skip_ws};

verus! {

/// The tasks grouped by file: files in order of first appearance, each
/// with its tasks in order.
pub open spec fn group_by_file(ts: Seq<Task>) -> Seq<(Seq<char>, Seq<Task>)>
    decreases ts.len(),
{
    if ts.len() == 0 {
        Seq::empty()
    } else {
        let g = group_by_file(ts.drop_last());
        let t = ts.last();
        match group_index(g, t.location.file@, 0) {
            Some(k) => g.update(k, (g[k].0, g[k].1.push(t))),
            None => g.push((t.location.file@, seq![t])),
        }
    }
}

/// The first group, from `i` on, of file `f`.
pub open spec fn group_index(g: Seq<(Seq<char>, Seq<Task>)>, f: Seq<char>, i: int) -> Option<int>
    decreases g.len() - i,
{
    if i < 0 || i >= g.len() {
        None
    } else if g[i].0 == f {
        Some(i)
    } else {
        group_index(g, f, i + 1)
    }
}

/// The last top-level entry, before `n`, of the task on line `l`.
pub open spec fn top_index(h: Seq<(Task, Seq<Task>)>, l: usize, n: int) -> Option<int>
    decreases n,
{
    if n <= 0 || n > h.len() {
        None
    } else if h[n - 1].0.location.line == l {
        Some(n - 1)
    } else {
        top_index(h, l, n - 1)
    }
}

/// The hierarchy of one file's tasks: a task whose parent line is that of
/// a top-level task joins that task's children; any other task is a new
/// top-level task.
pub open spec fn file_hierarchy(ts: Seq<Task>) -> Seq<(Task, Seq<Task>)>
    decreases ts.len(),
{
    if ts.len() == 0 {
        Seq::empty()
    } else {
        let h = file_hierarchy(ts.drop_last());
        let t = ts.last();
        match t.parent_line {
            Some(pl) => match top_index(h, pl, h.len() as int) {
                Some(k) => h.update(k, (h[k].0, h[k].1.push(t))),
                None => h.push((t, Seq::empty())),
            },
            None => h.push((t, Seq::empty())),
        }
    }
}

/// The hierarchies of the groups from `k` on, one after the other.
pub open spec fn hierarchies(g: Seq<(Seq<char>, Seq<Task>)>, k: int) -> Seq<(Task, Seq<Task>)>
    decreases g.len() - k,
{
    if k < 0 || k >= g.len() {
        Seq::empty()
    } else {
        file_hierarchy(g[k].1) + hierarchies(g, k + 1)
    }
}

/// A hierarchical task holds the fields of a task.
pub open spec fn holds_task(h: HierarchicalTask, t: Task) -> bool {
    &&& h.location == t.location
    &&& h.raw == t.raw
    &&& h.marker == t.marker
    &&& h.symbol == t.symbol
    &&& h.description == t.description
    &&& h.indent == t.indent
    &&& h.parent_line == t.parent_line
    &&& h.metadata == t.metadata
    &&& h.links == t.links
    &&& h.tags == t.tags
    &&& h.block_id == t.block_id
}

/// A hierarchical task is the task `t` with the tasks `kids` as its
/// children, each without children of its own.
pub open spec fn is_entry(h: HierarchicalTask, t: Task, kids: Seq<Task>) -> bool {
    &&& holds_task(h, t)
    &&& h.children@.len() == kids.len()
    &&& forall|i: int|
        0 <= i < kids.len() ==> (#[trigger] h.children@[i] matches TaskChild::Task(c) && holds_task(c, kids[i])
            && c.children@.len() == 0)
}

/// `r` is the hierarchy `h`, entry by entry.
pub open spec fn is_hierarchy(r: Seq<HierarchicalTask>, h: Seq<(Task, Seq<Task>)>) -> bool {
    &&& r.len() == h.len()
    &&& forall|i: int| 0 <= i < h.len() ==> is_entry(#[trigger] r[i], h[i].0, h[i].1)
}

/// A task as a hierarchical task without children.
fn from_task(t: Task) -> (h: HierarchicalTask)
    ensures
        holds_task(h, t),
        h.children@.len() == 0,
{
    HierarchicalTask {
        location: t.location,
        raw: t.raw,
        marker: t.marker,
        symbol: t.symbol,
        description: t.description,
        indent: t.indent,
        parent_line: t.parent_line,
        children: Vec::new(),
        metadata: t.metadata,
        links: t.links,
        tags: t.tags,
        block_id: t.block_id,
    }
}

fn same_file(a: &String, b: &String) -> (r: bool)
    ensures
        r == (a@ == b@),
{
    crate::text::same_chars(crate::text::chars_of(a.as_str()).as_slice(), crate::text::chars_of(b.as_str()).as_slice())
}

proof fn lemma_group_index(g: Seq<(Seq<char>, Seq<Task>)>, f: Seq<char>, i: int)
    requires
        0 <= i,
    ensures
        match group_index(g, f, i) {
            Some(k) => i <= k < g.len() && g[k].0 == f,
            None => forall|m: int| i <= m < g.len() ==> g[m].0 != f,
        },
    decreases g.len() - i,
{
    if i < g.len() && g[i].0 != f {
        lemma_group_index(g, f, i + 1);
    }
}

proof fn lemma_top_index(h: Seq<(Task, Seq<Task>)>, l: usize, n: int)
    requires
        0 <= n <= h.len(),
    ensures
        match top_index(h, l, n) {
            Some(k) => 0 <= k < n && h[k].0.location.line == l,
            None => true,
        },
    decreases n,
{
    if n > 0 && h[n - 1].0.location.line != l {
        lemma_top_index(h, l, n - 1);
    }
}

/// The hierarchy of one file's tasks.
fn build_file_hierarchy(tasks: Vec<Task>) -> (r: Vec<HierarchicalTask>)
    ensures
        is_hierarchy(r@, file_hierarchy(tasks@)),
{
    let ghost all = tasks@;
    let mut tasks = tasks;
    let mut result: Vec<HierarchicalTask> = Vec::new();
    let mut i: usize = 0;
    let n = tasks.len();
    while tasks.len() > 0
        invariant
            tasks@ == all.subrange(i as int, all.len() as int),
            i + tasks@.len() == all.len(),
            n == all.len(),
            is_hierarchy(result@, file_hierarchy(all.subrange(0, i as int))),
        decreases tasks@.len(),
    {
        let t = tasks.remove(0);
        let ghost h = file_hierarchy(all.subrange(0, i as int));
        proof {
            assert(all.subrange(0, i + 1).drop_last() =~= all.subrange(0, i as int));
            assert(t == all[i as int]);
            assert(all.subrange(0, i + 1).last() == t);
        }
        let mut found: Option<usize> = None;
        match t.parent_line {
            Some(pl) => {
                let mut k: usize = result.len();
                while k > 0
                    invariant_except_break
                        found is None,
                    invariant
                        k <= result@.len(),
                        result@.len() == h.len(),
                        is_hierarchy(result@, h),
                        top_index(h, pl, result@.len() as int) == top_index(h, pl, k as int),
                    ensures
                        match found {
                            Some(x) => top_index(h, pl, h.len() as int) == Some(x as int),
                            None => top_index(h, pl, h.len() as int) is None,
                        },
                    decreases k,
                {
                    proof {
                        assert(is_entry(result@[k - 1], h[k - 1].0, h[k - 1].1));
                    }
                    if result[k - 1].location.line == pl {
                        found = Some(k - 1);
                        break;
                    }
                    k = k - 1;
                }
            },
            None => {},
        }
        assert(found matches Some(k) ==> t.parent_line matches Some(pl) && top_index(h, pl, h.len() as int) == Some(k as int));
        assert(found is None ==> t.parent_line is None || top_index(h, t.parent_line->Some_0, h.len() as int) is None);
        proof {
            if let Some(pl) = t.parent_line {
                lemma_top_index(h, pl, h.len() as int);
            }
        }
        let ht = from_task(t);
        match found {
            Some(k) => {
                let ghost old_r = result@;
                let ghost oc = result@[k as int].children@;
                let mut entry = result.remove(k);
                entry.children.push(TaskChild::Task(ht));
                result.insert(k, entry);
                proof {
                    let nh = h.update(k as int, (h[k as int].0, h[k as int].1.push(all[i as int])));
                    assert(result@ =~= old_r.update(k as int, result@[k as int]));
                    assert forall|j: int| 0 <= j < nh.len() implies is_entry(#[trigger] result@[j], nh[j].0, nh[j].1) by {
                        if j == k as int {
                            let e = result@[j];
                            assert(e.children@ =~= oc.push(TaskChild::Task(ht)));
                            assert forall|m: int| 0 <= m < nh[j].1.len() implies (#[trigger] e.children@[m] matches TaskChild::Task(c) && holds_task(c, nh[j].1[m])
                                && c.children@.len() == 0) by {
                                if m < oc.len() {
                                    assert(e.children@[m] == oc[m]);
                                }
                            }
                        }
                    }
                }
            },
            None => {
                let ghost old_r = result@;
                result.push(ht);
                proof {
                    let nh = h.push((all[i as int], Seq::<Task>::empty()));
                    assert forall|j: int| 0 <= j < nh.len() implies is_entry(#[trigger] result@[j], nh[j].0, nh[j].1) by {
                        if j < h.len() {
                            assert(result@[j] == old_r[j]);
                        }
                    }
                }
            },
        }
        i = i + 1;
    }
    proof {
        assert(all.subrange(0, i as int) =~= all);
    }
    result
}


/// The tasks grouped by file, moved into their groups.
fn group_tasks(tasks: Vec<Task>) -> (r: Vec<(String, Vec<Task>)>)
    ensures
        r@.len() == group_by_file(tasks@).len(),
        forall|k: int|
            0 <= k < r@.len() ==> (#[trigger] r@[k]).0@ == group_by_file(tasks@)[k].0 && r@[k].1@
                == group_by_file(tasks@)[k].1,
{
    let ghost all = tasks@;
    let mut tasks = tasks;
    let mut groups: Vec<(String, Vec<Task>)> = Vec::new();
    let mut i: usize = 0;
    let n = tasks.len();
    while tasks.len() > 0
        invariant
            n == all.len(),
            tasks@ == all.subrange(i as int, all.len() as int),
            i + tasks@.len() == all.len(),
            groups@.len() == group_by_file(all.subrange(0, i as int)).len(),
            forall|k: int|
                0 <= k < groups@.len() ==> (#[trigger] groups@[k]).0@ == group_by_file(all.subrange(0, i as int))[k].0
                    && groups@[k].1@ == group_by_file(all.subrange(0, i as int))[k].1,
        decreases tasks@.len(),
    {
        let t = tasks.remove(0);
        let ghost g = group_by_file(all.subrange(0, i as int));
        proof {
            assert(all.subrange(0, i + 1).drop_last() =~= all.subrange(0, i as int));
            assert(t == all[i as int]);
            lemma_group_index(g, t.location.file@, 0);
        }
        let mut k: usize = 0;
        let mut found: Option<usize> = None;
        while k < groups.len()
            invariant_except_break
                found is None,
            invariant
                k <= groups@.len(),
                groups@.len() == g.len(),
                forall|m: int| 0 <= m < groups@.len() ==> (#[trigger] groups@[m]).0@ == g[m].0,
                group_index(g, t.location.file@, 0) == group_index(g, t.location.file@, k as int),
            ensures
                match found {
                    Some(x) => group_index(g, t.location.file@, 0) == Some(x as int),
                    None => group_index(g, t.location.file@, 0) is None,
                },
            decreases groups@.len() - k,
        {
            if same_file(&groups[k].0, &t.location.file) {
                found = Some(k);
                break;
            }
            k = k + 1;
        }
        match found {
            Some(x) => {
                let ghost old_g = groups@;
                let mut entry = groups.remove(x);
                entry.1.push(t);
                groups.insert(x, entry);
                proof {
                    assert forall|m: int| 0 <= m < groups@.len() implies (#[trigger] groups@[m]).0@ == group_by_file(
                        all.subrange(0, i + 1),
                    )[m].0 && groups@[m].1@ == group_by_file(all.subrange(0, i + 1))[m].1 by {
                        if m != x as int {
                            assert(groups@[m] == old_g[m]);
                        }
                    }
                }
            },
            None => {
                let f = t.location.file.clone();
                let ghost old_g = groups@;
                groups.push((f, vec![t]));
                proof {
                    assert forall|m: int| 0 <= m < groups@.len() implies (#[trigger] groups@[m]).0@ == group_by_file(
                        all.subrange(0, i + 1),
                    )[m].0 && groups@[m].1@ == group_by_file(all.subrange(0, i + 1))[m].1 by {
                        if m < old_g.len() {
                            assert(groups@[m] == old_g[m]);
                        } else {
                            assert(groups@[m].1@ =~= seq![all[i as int]]);
                        }
                    }
                }
            },
        }
        i = i + 1;
    }
    proof {
        assert(all.subrange(0, i as int) =~= all);
    }
    groups
}

/// Build the task hierarchy: the tasks grouped by file (files in order of
/// first appearance), each file's hierarchy after the one before.
pub fn build_task_hierarchy(tasks: Vec<Task>) -> (r: Vec<HierarchicalTask>)
    ensures
        is_hierarchy(r@, hierarchies(group_by_file(tasks@), 0)),
{
    let ghost g = group_by_file(tasks@);
    let mut groups = group_tasks(tasks);
    let mut result: Vec<HierarchicalTask> = Vec::new();
    let mut k: usize = 0;
    let n = groups.len();
    proof {
        assert(hierarchies(g, 0) =~= Seq::<(Task, Seq<Task>)>::empty() + hierarchies(g, 0));
    }
    while groups.len() > 0
        invariant
            n == g.len(),
            k + groups@.len() == g.len(),
            forall|m: int|
                0 <= m < groups@.len() ==> (#[trigger] groups@[m]).1@ == g[k + m].1,
            exists|done: Seq<(Task, Seq<Task>)>| is_hierarchy(result@, done) && #[trigger] (done + hierarchies(g, k as int)) == hierarchies(g, 0),
        decreases groups@.len(),
    {
        let ghost old_groups = groups@;
        let (_file, file_tasks) = groups.remove(0);
        proof {
            assert(file_tasks@ == g[k as int].1);
            assert forall|m: int| 0 <= m < groups@.len() implies (#[trigger] groups@[m]).1@ == g[k + 1 + m].1 by {
                assert(groups@[m] == old_groups[m + 1]);
            }
        }
        let ghost done = choose|done: Seq<(Task, Seq<Task>)>| is_hierarchy(result@, done) && #[trigger] (done + hierarchies(g, k as int)) == hierarchies(g, 0);
        let ghost old_result = result@;
        let mut part = build_file_hierarchy(file_tasks);
        let ghost pv = part@;
        result.append(&mut part);
        proof {
            let fh = file_hierarchy(g[k as int].1);
            let nd = done + fh;
            assert(result@ =~= old_result + pv);
            assert forall|j: int| 0 <= j < nd.len() implies is_entry(#[trigger] result@[j], nd[j].0, nd[j].1) by {
                if j < done.len() {
                    assert(result@[j] == old_result[j]);
                } else {
                    assert(result@[j] == pv[j - done.len()]);
                }
            }
            assert(is_hierarchy(result@, nd));
            assert(nd + hierarchies(g, k + 1) =~= done + hierarchies(g, k as int));
        }
        k = k + 1;
    }
    proof {
        let done = choose|done: Seq<(Task, Seq<Task>)>| is_hierarchy(result@, done) && #[trigger] (done + hierarchies(g, k as int)) == hierarchies(g, 0);
        assert(done + hierarchies(g, k as int) =~= done);
    }
    result
}


// ---------------------------------------------------------------------------
// Task trees
// ---------------------------------------------------------------------------

/// A list item: leading whitespace, a list marker, a space, then the rest.
/// The marker's start and end.
pub open spec fn list_layout(l: Seq<char>) -> Option<(int, int)> {
    let i0 = skip_ws(l, 0);
    match marker_end(l, i0) {
        Some(me) => if me < l.len() && l[me] == ' ' {
            Some((i0, me))
        } else {
            None
        },
        None => None,
    }
}

/// The stack without its entries indented at least `d`, from the top.
pub open spec fn pop_from(st: Seq<(usize, usize)>, d: int) -> Seq<(usize, usize)>
    decreases st.len(),
{
    if st.len() > 0 && st.last().0 >= d {
        pop_from(st.drop_last(), d)
    } else {
        st
    }
}

/// A node of the flat item list: its line index, whether it is a task, and
/// the index of its parent node.
pub type FlatV = (int, bool, Option<int>);

/// The items of the first `n` lines, with the stack of open items
/// (indentation and node index) after them. A task opens a node under the
/// nearest open item indented less; a plain list item does too, and is
/// dropped when no item is open; any other line closes the items indented
/// at least as much as it is. Lines in code are skipped.
pub open spec fn tree_scan(s: Seq<char>, ls: Seq<Seq<char>>, n: int) -> (Seq<FlatV>, Seq<(usize, usize)>)
    decreases n,
{
    if n <= 0 || n > ls.len() {
        (Seq::empty(), Seq::empty())
    } else {
        let (nodes, st) = tree_scan(s, ls, n - 1);
        let j = n - 1;
        let l = ls[j];
        let d = spec_indent(l);
        let st2 = pop_from(st, d);
        if !processed(s, j) {
            (nodes, st)
        } else if task_layout(l) is Some {
            let parent = if st2.len() == 0 {
                None
            } else {
                Some(st2.last().1 as int)
            };
            (nodes.push((j, true, parent)), st2.push((d as usize, nodes.len() as usize)))
        } else if list_layout(l) is Some {
            if st2.len() == 0 {
                (nodes, st2)
            } else {
                (nodes.push((j, false, Some(st2.last().1 as int))), st2.push((d as usize, nodes.len() as usize)))
            }
        } else {
            (nodes, st2)
        }
    }
}

/// The nodes of a note's task trees.
pub open spec fn flat_nodes(c: Seq<char>) -> Seq<FlatV> {
    tree_scan(c, lines(c), lines(c).len() as int).0
}

/// The indices, below `j`, of the nodes whose parent is `p`.
pub open spec fn kids_upto(ns: Seq<FlatV>, p: Option<int>, j: int) -> Seq<int>
    decreases j,
{
    if j <= 0 || j > ns.len() {
        Seq::empty()
    } else {
        kids_upto(ns, p, j - 1) + if ns[j - 1].2 == p {
            seq![j - 1]
        } else {
            Seq::<int>::empty()
        }
    }
}

/// A plain list item holds the line `l`, number `n`.
pub open spec fn text_item_is(x: TaskTextItem, l: Seq<char>, n: int, file: Seq<char>) -> bool {
    match list_layout(l) {
        Some((i0, me)) => {
            let (content, bid) = strip_block(l.subrange(me + 1, l.len() as int));
            &&& x.location.file@ == file
            &&& x.location.line == n
            &&& x.raw@ == l
            &&& x.content@ == content
            &&& x.marker@ == l.subrange(i0, me)
            &&& x.indent == spec_indent(l)
            &&& crate::parser::task::opt_view(x.block_id) == bid
        },
        None => false,
    }
}

/// A node holds the line `l`, number `n`: a task parsed from it (without
/// parent line), or a plain list item.
pub open spec fn node_is(tc: TaskChild, l: Seq<char>, n: int, file: Seq<char>, fs: Seq<EmojiFieldDef>, is_task: bool) -> bool {
    match tc {
        TaskChild::Task(h) => is_task && exists|t: Task|
            #[trigger] task_line_is(t, l, n, file, fs) && t.parent_line is None && holds_task(h, t),
        TaskChild::Text(x) => !is_task && text_item_is(x, l, n, file),
    }
}

pub open spec fn children_of(tc: TaskChild) -> Vec<TaskChild> {
    match tc {
        TaskChild::Task(h) => h.children,
        TaskChild::Text(x) => x.children,
    }
}

/// `tc` is the tree of node `k`: the node, with the trees of its children
/// (the later nodes that name it as parent) in order.
pub open spec fn tree_is(tc: TaskChild, ls: Seq<Seq<char>>, ns: Seq<FlatV>, k: int, file: Seq<char>, fs: Seq<EmojiFieldDef>) -> bool
    decreases tc,
{
    let kids = kids_upto(ns, Some(k), ns.len() as int);
    &&& 0 <= k < ns.len()
    &&& node_is(tc, ls[ns[k].0], ns[k].0 + 1, file, fs, ns[k].1)
    &&& children_of(tc)@.len() == kids.len()
    &&& forall|i: int|
        0 <= i < kids.len() ==> {
            proof {
                assert(decreases_to!(tc => children_of(tc)@[i]));
            }
            tree_is(#[trigger] children_of(tc)@[i], ls, ns, kids[i], file, fs)
        }
}


/// Facts of the scan: parents come before their children, and the open
/// items are nodes already made.
proof fn lemma_scan(s: Seq<char>, ls: Seq<Seq<char>>, n: int)
    ensures
        forall|q: int|
            0 <= q < tree_scan(s, ls, n).0.len() ==> (#[trigger] tree_scan(s, ls, n).0[q]).2 matches Some(p) && 0 <= p < q
                || tree_scan(s, ls, n).0[q].2 is None,
        forall|e: int|
            0 <= e < tree_scan(s, ls, n).1.len() ==> (#[trigger] tree_scan(s, ls, n).1[e]).1 < tree_scan(s, ls, n).0.len(),
    decreases n,
{
    if n > 0 && n <= ls.len() {
        lemma_scan(s, ls, n - 1);
        let (nodes, st) = tree_scan(s, ls, n - 1);
        let d = spec_indent(ls[n - 1]);
        lemma_pop_prefix(st, d);
    }
}

proof fn lemma_pop_prefix(st: Seq<(usize, usize)>, d: int)
    ensures
        pop_from(st, d).len() <= st.len(),
        forall|i: int| 0 <= i < pop_from(st, d).len() ==> #[trigger] pop_from(st, d)[i] == st[i],
    decreases st.len(),
{
    if st.len() > 0 && st.last().0 >= d {
        lemma_pop_prefix(st.drop_last(), d);
    }
}

fn pop_stack(stack: &mut Vec<(usize, usize)>, d: usize)
    ensures
        final(stack)@ == pop_from(old(stack)@, d as int),
{
    while stack.len() > 0 && stack[stack.len() - 1].0 >= d
        invariant
            pop_from(stack@, d as int) == pop_from(old(stack)@, d as int),
        decreases stack@.len(),
    {
        stack.pop();
    }
}

fn list_layout_exec(l: &Vec<char>) -> (r: Option<(usize, usize)>)
    ensures
        match r {
            Some((i0, me)) => list_layout(l@) == Some((i0 as int, me as int)) && i0 < me < l@.len(),
            None => list_layout(l@) is None,
        },
{
    let i0 = crate::text::skip_whitespace(l.as_slice(), 0);
    match crate::parser::task::marker_end_exec(l, i0) {
        Some(me) => if me < l.len() && l[me] == ' ' {
            Some((i0, me))
        } else {
            None
        },
        None => None,
    }
}

/// The plain list item on line `n`.
fn text_item(l: &Vec<char>, n: usize, file_path: &str) -> (r: Option<TaskTextItem>)
    ensures
        match r {
            Some(x) => text_item_is(x, l@, n as int, file_path@) && x.children@.len() == 0,
            None => list_layout(l@) is None,
        },
{
    match list_layout_exec(l) {
        None => None,
        Some(pair) => {
            let i0 = pair.0;
            let me = pair.1;
            let n_chars = l.len();
            let rest = crate::text::sub_vec(l, me + 1, n_chars);
            let (content, block_id) = crate::parser::task::extract_block_id(&rest);
            Some(TaskTextItem {
                location: crate::types::TaskLocation { file: crate::text::lit(file_path), line: n },
                raw: crate::text::string_of(l.as_slice()),
                content: crate::text::string_of(content.as_slice()),
                marker: crate::text::string_of_range(l, i0, me),
                indent: crate::parser::task::count_indent(crate::text::string_of(l.as_slice()).as_str()),
                block_id,
                children: Vec::new(),
            })
        },
    }
}

/// The nodes of the task trees, flat: each with its line index and parent.
fn flat_tree_nodes(content: &str, file_path: &str, config: &TaskConfig) -> (r: (Vec<TaskChild>, Vec<Option<usize>>))
    ensures
        r.0@.len() == flat_nodes(content@).len(),
        r.1@.len() == flat_nodes(content@).len(),
        forall|q: int|
            0 <= q < r.0@.len() ==> node_is(
                #[trigger] r.0@[q],
                lines(content@)[flat_nodes(content@)[q].0],
                flat_nodes(content@)[q].0 + 1,
                file_path@,
                config.fields@,
                flat_nodes(content@)[q].1,
            ) && children_of(r.0@[q])@.len() == 0,
        forall|q: int|
            0 <= q < r.1@.len() ==> crate::parser::task::opt_line(#[trigger] r.1@[q]) == flat_nodes(content@)[q].2,
{
    let s = crate::text::chars_of(content);
    let ls = crate::text::split_lines(&s);
    let ranges = crate::parser::code_block::code_ranges_of(&s);
    let ghost lv = lines(content@);
    let mut nodes: Vec<TaskChild> = Vec::new();
    let mut parents: Vec<Option<usize>> = Vec::new();
    let mut stack: Vec<(usize, usize)> = Vec::new();
    let mut i: usize = 0;
    while i < ls.len()
        invariant
            i <= ls@.len(),
            s@ == content@,
            ls.deep_view() == lv,
            lv == lines(content@),
            crate::parser::code_block::ranges_view(ranges@).to_multiset() == crate::parser::code_block::code_ranges(
                content@,
            ).to_multiset(),
            stack@ == tree_scan(content@, lv, i as int).1,
            nodes@.len() == tree_scan(content@, lv, i as int).0.len(),
            parents@.len() == nodes@.len(),
            forall|q: int|
                0 <= q < nodes@.len() ==> node_is(
                    #[trigger] nodes@[q],
                    lv[tree_scan(content@, lv, i as int).0[q].0],
                    tree_scan(content@, lv, i as int).0[q].0 + 1,
                    file_path@,
                    config.fields@,
                    tree_scan(content@, lv, i as int).0[q].1,
                ) && children_of(nodes@[q])@.len() == 0,
            forall|q: int|
                0 <= q < parents@.len() ==> crate::parser::task::opt_line(#[trigger] parents@[q])
                    == tree_scan(content@, lv, i as int).0[q].2,
        decreases ls@.len() - i,
    {
        let line_num = i + 1;
        proof {
            assert(lv[i as int] == ls@[i as int]@);
            crate::parser::task::lemma_line_in_code_iff(content@, ranges@, line_num as int);
            lemma_scan(content@, lv, i as int);
        }
        let ghost old_nodes = nodes@;
        let ghost old_parents = parents@;
        let ghost prev = tree_scan(content@, lv, i as int);
        if !crate::parser::task::line_in_ranges(&ranges, line_num) {
            let line = crate::text::string_of(ls[i].as_slice());
            let d = crate::parser::task::count_indent(line.as_str());
            match crate::parser::task::parse_task_line(line.as_str(), line_num, file_path, config) {
                Some(task) => {
                    pop_stack(&mut stack, d);
                    let parent = if stack.len() > 0 {
                        Some(stack[stack.len() - 1].1)
                    } else {
                        None
                    };
                    let ghost t0 = task;
                    let h = from_task(task);
                    proof {
                        assert(crate::parser::task::task_parts(lv[i as int], config.fields@) is Some);
                        assert(task_layout(lv[i as int]) is Some);
                        assert(task_line_is(t0, lv[i as int], line_num as int, file_path@, config.fields@) && t0.parent_line is None && holds_task(h, t0));
                    }
                    let idx = nodes.len();
                    nodes.push(TaskChild::Task(h));
                    parents.push(parent);
                    stack.push((d, idx));
                },
                None => {
                    proof {
                        assert(task_layout(lv[i as int]) is None);
                    }
                    match text_item(&ls[i], line_num, file_path) {
                        Some(x) => {
                            pop_stack(&mut stack, d);
                            if stack.len() > 0 {
                                let parent = stack[stack.len() - 1].1;
                                let idx = nodes.len();
                                nodes.push(TaskChild::Text(x));
                                parents.push(Some(parent));
                                stack.push((d, idx));
                            }
                        },
                        None => {
                            pop_stack(&mut stack, d);
                        },
                    }
                },
            }
        }
        proof {
            let next = tree_scan(content@, lv, i + 1);
            assert forall|q: int| 0 <= q < nodes@.len() implies node_is(
                #[trigger] nodes@[q],
                lv[next.0[q].0],
                next.0[q].0 + 1,
                file_path@,
                config.fields@,
                next.0[q].1,
            ) && children_of(nodes@[q])@.len() == 0 by {
                if q < old_nodes.len() {
                    assert(nodes@[q] == old_nodes[q]);
                    assert(next.0[q] == prev.0[q]);
                }
            }
            assert forall|q: int| 0 <= q < parents@.len() implies crate::parser::task::opt_line(#[trigger] parents@[q])
                == next.0[q].2 by {
                if q < old_parents.len() {
                    assert(parents@[q] == old_parents[q]);
                    assert(next.0[q] == prev.0[q]);
                }
            }
        }
        i = i + 1;
    }
    (nodes, parents)
}


/// No node up to `m`, among the first `k + 1`, has parent `k`.
proof fn lemma_no_kids_before(ns: Seq<FlatV>, k: int, m: int)
    requires
        0 <= m <= k + 1,
        m <= ns.len(),
        forall|q: int| 0 <= q < ns.len() ==> (#[trigger] ns[q]).2 matches Some(p) && 0 <= p < q || ns[q].2 is None,
    ensures
        kids_upto(ns, Some(k), m) == Seq::<int>::empty(),
    decreases m,
{
    if m > 0 {
        lemma_no_kids_before(ns, k, m - 1);
    }
}

/// `n` empty slots.
fn empty_slots(n: usize) -> (r: Vec<Option<TaskChild>>)
    ensures
        r@.len() == n,
        forall|j: int| 0 <= j < n ==> (#[trigger] r@[j]) is None,
{
    let mut built: Vec<Option<TaskChild>> = Vec::new();
    let mut z: usize = 0;
    while z < n
        invariant
            z <= n,
            built@.len() == z,
            forall|j: int| 0 <= j < z ==> (#[trigger] built@[j]) is None,
        decreases n - z,
    {
        built.push(None);
        z = z + 1;
    }
    built
}

/// A node with its children set to `kids`.
fn with_children(node: TaskChild, kids: Vec<TaskChild>) -> (r: TaskChild)
    ensures
        children_of(r) == kids,
        forall|l: Seq<char>, n: int, file: Seq<char>, fs: Seq<EmojiFieldDef>, t: bool|
            node_is(node, l, n, file, fs, t) ==> #[trigger] node_is(r, l, n, file, fs, t),
{
    match node {
        TaskChild::Task(h) => {
            let mut h = h;
            let ghost h0 = h;
            h.children = kids;
            proof {
                assert forall|t: Task| holds_task(h0, t) implies #[trigger] holds_task(h, t) by {}
            }
            TaskChild::Task(h)
        },
        TaskChild::Text(x) => {
            let mut x = x;
            x.children = kids;
            TaskChild::Text(x)
        },
    }
}

/// Parse the task trees of a note: each task with its nested tasks and
/// plain list items; plain list items outside any task are left out.
pub fn parse_task_trees(content: &str, file_path: &str, config: &TaskConfig) -> (r: Vec<TaskChild>)
    ensures
        r@.len() == kids_upto(flat_nodes(content@), None, flat_nodes(content@).len() as int).len(),
        forall|i: int|
            0 <= i < r@.len() ==> tree_is(
                #[trigger] r@[i],
                lines(content@),
                flat_nodes(content@),
                kids_upto(flat_nodes(content@), None, flat_nodes(content@).len() as int)[i],
                file_path@,
                config.fields@,
            ),
{
    let ghost ns = flat_nodes(content@);
    let ghost lv = lines(content@);
    let ghost file = file_path@;
    let ghost fs = config.fields@;
    let (mut flat, parents) = flat_tree_nodes(content, file_path, config);
    proof {
        lemma_scan(content@, lv, lv.len() as int);
    }
    let n = flat.len();
    let mut built = empty_slots(n);
    let mut k: usize = n;
    while k > 0
        invariant
            k <= n,
            n == ns.len(),
            flat@.len() == k,
            parents@.len() == n,
            built@.len() == n,
            forall|q: int| 0 <= q < ns.len() ==> (#[trigger] ns[q]).2 matches Some(p) && 0 <= p < q || ns[q].2 is None,
            forall|q: int|
                0 <= q < k ==> node_is(#[trigger] flat@[q], lv[ns[q].0], ns[q].0 + 1, file, fs, ns[q].1)
                    && children_of(flat@[q])@.len() == 0,
            forall|q: int| 0 <= q < n ==> crate::parser::task::opt_line(#[trigger] parents@[q]) == ns[q].2,
            forall|j: int|
                k <= j < n && (ns[j].2 is None || ns[j].2->Some_0 < k) ==> (#[trigger] built@[j] matches Some(t)
                    && tree_is(t, lv, ns, j, file, fs)),
        decreases k,
    {
        let m = k - 1;
        let node = flat.pop().unwrap();
        let mut kids: Vec<TaskChild> = Vec::new();
        let mut j: usize = k;
        proof {
            lemma_no_kids_before(ns, m as int, k as int);
        }
        while j < n
            invariant
                k <= j <= n,
                m + 1 == k,
                n == ns.len(),
                parents@.len() == n,
                built@.len() == n,
                forall|q: int| 0 <= q < ns.len() ==> (#[trigger] ns[q]).2 matches Some(p) && 0 <= p < q || ns[q].2 is None,
                forall|q: int| 0 <= q < n ==> crate::parser::task::opt_line(#[trigger] parents@[q]) == ns[q].2,
                kids@.len() == kids_upto(ns, Some(m as int), j as int).len(),
                forall|i: int|
                    0 <= i < kids@.len() ==> tree_is(#[trigger] kids@[i], lv, ns, kids_upto(ns, Some(m as int), j as int)[i], file, fs),
                forall|q: int|
                    k <= q < n && (ns[q].2 is None || ns[q].2->Some_0 < k) && !(ns[q].2 == Some(m as int) && q < j)
                        ==> (#[trigger] built@[q] matches Some(t) && tree_is(t, lv, ns, q, file, fs)),
            decreases n - j,
        {
            proof {
                assert(crate::parser::task::opt_line(parents@[j as int]) == ns[j as int].2);
            }
            if parents[j] == Some(m) {
                let x = built.remove(j);
                built.insert(j, None);
                let ghost before = kids@;
                match x {
                    Some(t) => {
                        kids.push(t);
                    },
                    None => {},
                }
                proof {
                    assert(kids_upto(ns, Some(m as int), j + 1) == kids_upto(ns, Some(m as int), j as int).push(j as int));
                    assert forall|i: int| 0 <= i < kids@.len() implies tree_is(#[trigger] kids@[i], lv, ns, kids_upto(ns, Some(m as int), j + 1)[i], file, fs) by {
                        if i < before.len() {
                            assert(kids@[i] == before[i]);
                        }
                    }
                }
            } else {
                proof {
                    assert(kids_upto(ns, Some(m as int), j + 1) == kids_upto(ns, Some(m as int), j as int));
                }
            }
            j = j + 1;
        }
        let ghost kv = kids@;
        let tree = with_children(node, kids);
        proof {
            assert(tree_is(tree, lv, ns, m as int, file, fs));
        }
        built.set(m, Some(tree));
        k = m;
    }
    let mut result: Vec<TaskChild> = Vec::new();
    let mut j: usize = 0;
    proof {
        assert(kids_upto(ns, None, 0) == Seq::<int>::empty());
    }
    while j < n
        invariant
            j <= n,
            n == ns.len(),
            parents@.len() == n,
            built@.len() == n,
            forall|q: int| 0 <= q < n ==> crate::parser::task::opt_line(#[trigger] parents@[q]) == ns[q].2,
            forall|q: int| j <= q < n && ns[q].2 is None ==> (#[trigger] built@[q] matches Some(t) && tree_is(t, lv, ns, q, file, fs)),
            result@.len() == kids_upto(ns, None, j as int).len(),
            forall|i: int| 0 <= i < result@.len() ==> tree_is(#[trigger] result@[i], lv, ns, kids_upto(ns, None, j as int)[i], file, fs),
        decreases n - j,
    {
        proof {
            assert(crate::parser::task::opt_line(parents@[j as int]) == ns[j as int].2);
        }
        if parents[j].is_none() {
            let x = built.remove(j);
            built.insert(j, None);
            let ghost before = result@;
            match x {
                Some(t) => {
                    result.push(t);
                },
                None => {},
            }
            proof {
                assert(kids_upto(ns, None, j + 1) == kids_upto(ns, None, j as int).push(j as int));
                assert forall|i: int| 0 <= i < result@.len() implies tree_is(#[trigger] result@[i], lv, ns, kids_upto(ns, None, j + 1)[i], file, fs) by {
                    if i < before.len() {
                        assert(result@[i] == before[i]);
                    }
                }
            }
        } else {
            proof {
                assert(kids_upto(ns, None, j + 1) == kids_upto(ns, None, j as int));
            }
        }
        j = j + 1;
    }
    result
}

} // verus!
