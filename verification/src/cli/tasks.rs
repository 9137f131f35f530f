//! Filtering tasks.

use vstd::prelude::*;
use crate::parser::task::Task;
use crate::str_map::StrMap;
use crate::text::{
    chars_of, contains_seq, find_seq_from, has_prefix, has_suffix, lit, str_lowercase, to_lowercase,
    trim,
};

verus! {

/// Which tasks a query keeps. Date bounds compare `YYYY-MM-DD` texts; the
/// dates, the recurrence, the ID, the dependencies and the priority are
/// the task's metadata fields `due`, `scheduled`, `done`, `start`,
/// `created`, `recurrence`, `id`, `depends_on` and `priority`.
#[derive(Debug, Clone)]
pub struct TaskFilter {
    pub symbols: Vec<String>,
    pub due_before: Option<String>,
    pub due_after: Option<String>,
    pub due_on: Option<String>,
    pub scheduled_before: Option<String>,
    pub scheduled_after: Option<String>,
    pub scheduled_on: Option<String>,
    pub done_before: Option<String>,
    pub done_after: Option<String>,
    pub done_on: Option<String>,
    pub start_before: Option<String>,
    pub start_after: Option<String>,
    pub start_on: Option<String>,
    pub created_before: Option<String>,
    pub created_after: Option<String>,
    pub created_on: Option<String>,
    pub has_recurrence: bool,
    pub id_filter: Option<String>,
    pub depends_on_filter: Option<String>,
    pub priority: Option<String>,
    pub contains: Option<String>,
    pub has_metadata: Vec<String>,
    pub links_to: Option<String>,
    pub tag: Option<String>,
    pub has_block_ref: bool,
    pub block_ref: Option<String>,
}

impl Default for TaskFilter {
    fn default() -> (r: TaskFilter)
        ensures
            r.symbols@.len() == 0 && r.has_metadata@.len() == 0,
            r.due_before is None && r.due_after is None && r.due_on is None,
            r.scheduled_before is None && r.scheduled_after is None && r.scheduled_on is None,
            r.done_before is None && r.done_after is None && r.done_on is None,
            r.start_before is None && r.start_after is None && r.start_on is None,
            r.created_before is None && r.created_after is None && r.created_on is None,
            !r.has_recurrence && r.id_filter is None && r.depends_on_filter is None,
            r.priority is None && r.contains is None && r.links_to is None && r.tag is None,
            !r.has_block_ref && r.block_ref is None,
    {
        TaskFilter {
            symbols: Vec::new(),
            due_before: None,
            due_after: None,
            due_on: None,
            scheduled_before: None,
            scheduled_after: None,
            scheduled_on: None,
            done_before: None,
            done_after: None,
            done_on: None,
            start_before: None,
            start_after: None,
            start_on: None,
            created_before: None,
            created_after: None,
            created_on: None,
            has_recurrence: false,
            id_filter: None,
            depends_on_filter: None,
            priority: None,
            contains: None,
            has_metadata: Vec::new(),
            links_to: None,
            tag: None,
            has_block_ref: false,
            block_ref: None,
        }
    }
}

/// Texts in lexicographic order of their characters (`str`'s `<`).
pub open spec fn text_lt(a: Seq<char>, b: Seq<char>) -> bool
    decreases a.len(),
{
    if a.len() == 0 {
        b.len() > 0
    } else if b.len() == 0 {
        false
    } else if a[0] != b[0] {
        a[0] < b[0]
    } else {
        text_lt(a.drop_first(), b.drop_first())
    }
}

/// The value of a metadata field.
pub open spec fn meta(t: Task, k: Seq<char>) -> Option<Seq<char>> {
    if t.metadata.view().contains_key(k) {
        Some(t.metadata.view()[k]@)
    } else {
        None
    }
}

pub open spec fn opt_text(o: Option<String>) -> Option<Seq<char>> {
    match o {
        Some(x) => Some(x@),
        None => None,
    }
}

/// A date field passes the `before`, `after` and `on` bounds.
pub open spec fn date_ok(v: Option<Seq<char>>, before: Option<String>, after: Option<String>, on: Option<String>) -> bool {
    &&& (before matches Some(b) ==> (v matches Some(d) && text_lt(d, b@)))
    &&& (after matches Some(a) ==> (v matches Some(d) && text_lt(a@, d)))
    &&& (on matches Some(o) ==> v == Some(o@))
}

/// The text with every trailing `.md` removed.
pub open spec fn trim_md(s: Seq<char>) -> Seq<char>
    decreases s.len(),
{
    if has_suffix(s, seq!['.', 'm', 'd']) {
        trim_md(s.subrange(0, s.len() - 3))
    } else {
        s
    }
}

/// The entries of a comma-separated list, trimmed.
pub open spec fn comma_items(s: Seq<char>) -> Seq<Seq<char>>
    decreases s.len(),
{
    match crate::text::find_char_from(s, ',', 0) {
        Some(i) => {
            proof {
                crate::text::lemma_find_char_found(s, ',', 0);
            }
            seq![trim(s.subrange(0, i))] + comma_items(s.subrange(i + 1, s.len() as int))
        },
        None => seq![trim(s)],
    }
}

/// The tag a filter asks for, with `#` in front.
pub open spec fn tag_norm(t: Seq<char>) -> Seq<char> {
    if has_prefix(t, seq!['#']) {
        t
    } else {
        seq!['#'] + t
    }
}

/// Whether a task passes all of a filter's conditions.
pub open spec fn filter_accepts(f: TaskFilter, t: Task) -> bool {
    &&& (f.symbols@.len() > 0 ==> exists|i: int| 0 <= i < f.symbols@.len() && (#[trigger] f.symbols@[i])@ == t.symbol@)
    &&& date_ok(meta(t, "due"@), f.due_before, f.due_after, f.due_on)
    &&& date_ok(meta(t, "scheduled"@), f.scheduled_before, f.scheduled_after, f.scheduled_on)
    &&& date_ok(meta(t, "done"@), f.done_before, f.done_after, f.done_on)
    &&& date_ok(meta(t, "start"@), f.start_before, f.start_after, f.start_on)
    &&& date_ok(meta(t, "created"@), f.created_before, f.created_after, f.created_on)
    &&& (f.has_recurrence ==> meta(t, "recurrence"@) is Some)
    &&& (f.id_filter matches Some(id) ==> meta(t, "id"@) == Some(id@))
    &&& (f.depends_on_filter matches Some(dep) ==> (meta(t, "depends_on"@) matches Some(v) && comma_items(
        v,
    ).contains(dep@)))
    &&& (f.priority matches Some(p) ==> meta(t, "priority"@) == Some(p@))
    &&& (f.contains matches Some(c) ==> contains_seq(str_lowercase(t.description@), str_lowercase(c@)))
    &&& (forall|i: int| 0 <= i < f.has_metadata@.len() ==> t.metadata.view().contains_key(#[trigger] f.has_metadata@[i]@))
    &&& (f.links_to matches Some(target) ==> exists|i: int|
        0 <= i < t.links@.len() && str_lowercase(trim_md((#[trigger] t.links@[i]).to@)) == str_lowercase(
            trim_md(target@),
        ))
    &&& (f.tag matches Some(tg) ==> exists|i: int|
        0 <= i < t.tags@.len() && ((#[trigger] t.tags@[i])@ == tag_norm(tg@) || has_prefix(
            t.tags@[i]@,
            tag_norm(tg@) + seq!['/'],
        )))
    &&& (f.has_block_ref ==> t.block_id is Some)
    &&& (f.block_ref matches Some(b) ==> opt_text(t.block_id) == Some(b@))
}

fn text_lt_exec(a: &str, b: &str) -> (r: bool)
    ensures
        r == text_lt(a@, b@),
{
    let x = chars_of(a);
    let y = chars_of(b);
    let mut i: usize = 0;
    proof {
        assert(x@.subrange(0, x@.len() as int) =~= x@);
        assert(y@.subrange(0, y@.len() as int) =~= y@);
    }
    while i < x.len() && i < y.len() && x[i] == y[i]
        invariant
            i <= x@.len(),
            i <= y@.len(),
            text_lt(a@, b@) == text_lt(
                x@.subrange(i as int, x@.len() as int),
                y@.subrange(i as int, y@.len() as int),
            ),
        decreases x@.len() - i,
    {
        proof {
            assert(x@.subrange(i as int, x@.len() as int).drop_first() =~= x@.subrange(i + 1, x@.len() as int));
            assert(y@.subrange(i as int, y@.len() as int).drop_first() =~= y@.subrange(i + 1, y@.len() as int));
        }
        i = i + 1;
    }
    let ghost u = x@.subrange(i as int, x@.len() as int);
    let ghost v = y@.subrange(i as int, y@.len() as int);
    if i == x.len() {
        assert(u.len() == 0);
        i < y.len()
    } else if i == y.len() {
        assert(v.len() == 0);
        false
    } else {
        assert(u[0] == x@[i as int] && v[0] == y@[i as int]);
        x[i] < y[i]
    }
}

fn meta_get<'a>(t: &'a Task, k: &str) -> (r: Option<&'a String>)
    requires
        t.metadata.wf(),
    ensures
        opt_text(match r { Some(x) => Some(*x), None => None }) == meta(*t, k@),
{
    t.metadata.get(k)
}

fn date_ok_exec(v: Option<&String>, before: &Option<String>, after: &Option<String>, on: &Option<String>) -> (r: bool)
    ensures
        r == date_ok(opt_text(match v { Some(x) => Some(*x), None => None }), *before, *after, *on),
{
    match before {
        Some(b) => match v {
            Some(d) => {
                if !text_lt_exec(d.as_str(), b.as_str()) {
                    return false;
                }
            },
            None => {
                return false;
            },
        },
        None => {},
    }
    match after {
        Some(a) => match v {
            Some(d) => {
                if !text_lt_exec(a.as_str(), d.as_str()) {
                    return false;
                }
            },
            None => {
                return false;
            },
        },
        None => {},
    }
    match on {
        Some(o) => match v {
            Some(d) => crate::text::same_chars(chars_of(d.as_str()).as_slice(), chars_of(o.as_str()).as_slice()),
            None => false,
        },
        None => true,
    }
}

fn trim_md_exec(s: &str) -> (r: Vec<char>)
    ensures
        r@ == trim_md(s@),
{
    let c = chars_of(s);
    let mut n = c.len();
    proof {
        assert(c@.subrange(0, n as int) =~= c@);
    }
    while n >= 3 && c[n - 3] == '.' && c[n - 2] == 'm' && c[n - 1] == 'd'
        invariant
            n <= c@.len(),
            trim_md(s@) == trim_md(c@.subrange(0, n as int)),
        decreases n,
    {
        proof {
            let t = c@.subrange(0, n as int);
            assert(t.subrange(t.len() - 3, t.len() as int) =~= seq!['.', 'm', 'd']);
            assert(t.subrange(0, t.len() - 3) =~= c@.subrange(0, n - 3));
        }
        n = n - 3;
    }
    proof {
        let t = c@.subrange(0, n as int);
        if has_suffix(t, seq!['.', 'm', 'd']) {
            assert(t.subrange(t.len() - 3, t.len() as int)[0] == t[t.len() - 3]);
            assert(t.subrange(t.len() - 3, t.len() as int)[1] == t[t.len() - 2]);
            assert(t.subrange(t.len() - 3, t.len() as int)[2] == t[t.len() - 1]);
        }
    }
    crate::text::sub_vec(&c, 0, n)
}

fn comma_items_contains(s: &str, dep: &str) -> (r: bool)
    ensures
        r == comma_items(s@).contains(dep@),
{
    let c = chars_of(s);
    let n = c.len();
    let d = chars_of(dep);
    let mut start: usize = 0;
    proof {
        assert(c@.subrange(0, c@.len() as int) =~= c@);
    }
    loop
        invariant
            start <= c@.len(),
            n == c@.len(),
            d@ == dep@,
            comma_items(s@).contains(dep@) == comma_items(c@.subrange(start as int, c@.len() as int)).contains(dep@),
        decreases c@.len() - start,
    {
        let ghost rest = c@.subrange(start as int, c@.len() as int);
        match crate::text::find_char(c.as_slice(), ',', start) {
            Some(i) => {
                proof {
                    crate::text::lemma_find_char_found(c@, ',', start as int);
                    crate::text::lemma_find_char_shift(c@, ',', start as int);
                    assert(rest.subrange(0, i - start) =~= c@.subrange(start as int, i as int));
                    assert(rest.subrange(i - start + 1, rest.len() as int) =~= c@.subrange(i + 1, c@.len() as int));
                }
                let item = crate::text::trim_range(&c, start, i);
                if crate::text::same_chars(item.as_slice(), d.as_slice()) {
                    proof {
                        let items = comma_items(rest);
                        assert(items[0] == dep@);
                    }
                    return true;
                }
                proof {
                    let items = comma_items(rest);
                    let tail = comma_items(c@.subrange(i + 1, c@.len() as int));
                    assert(items == seq![item@] + tail);
                    if items.contains(dep@) {
                        let k = choose|k: int| 0 <= k < items.len() && items[k] == dep@;
                        assert(k != 0);
                        assert(tail[k - 1] == dep@);
                    }
                    if tail.contains(dep@) {
                        let k = choose|k: int| 0 <= k < tail.len() && tail[k] == dep@;
                        assert(items[k + 1] == dep@);
                    }
                }
                start = i + 1;
            },
            None => {
                proof {
                    crate::text::lemma_find_char_shift(c@, ',', start as int);
                }
                let item = crate::text::trim_range(&c, start, c.len());
                let r = crate::text::same_chars(item.as_slice(), d.as_slice());
                proof {
                    let items = comma_items(rest);
                    assert(items == seq![trim(rest)]);
                    if items.contains(dep@) {
                        let k = choose|k: int| 0 <= k < items.len() && items[k] == dep@;
                    }
                    if r {
                        assert(items[0] == dep@);
                    }
                }
                return r;
            },
        }
    }
}

impl TaskFilter {
    /// Whether a task passes the filter.
    pub fn matches(&self, task: &Task) -> (r: bool)
        requires
            task.metadata.wf(),
        ensures
            r == filter_accepts(*self, *task),
    {
        // symbols
        if self.symbols.len() > 0 {
            let sc = chars_of(task.symbol.as_str());
            let mut found = false;
            let mut i: usize = 0;
            while i < self.symbols.len()
                invariant
                    i <= self.symbols@.len(),
                    sc@ == task.symbol@,
                    found <==> exists|j: int| 0 <= j < i && (#[trigger] self.symbols@[j])@ == task.symbol@,
                decreases self.symbols@.len() - i,
            {
                if crate::text::same_chars(chars_of(self.symbols[i].as_str()).as_slice(), sc.as_slice()) {
                    found = true;
                }
                i = i + 1;
            }
            if !found {
                return false;
            }
        }
        if !date_ok_exec(meta_get(task, "due"), &self.due_before, &self.due_after, &self.due_on) {
            return false;
        }
        if !date_ok_exec(meta_get(task, "scheduled"), &self.scheduled_before, &self.scheduled_after, &self.scheduled_on) {
            return false;
        }
        if !date_ok_exec(meta_get(task, "done"), &self.done_before, &self.done_after, &self.done_on) {
            return false;
        }
        if !date_ok_exec(meta_get(task, "start"), &self.start_before, &self.start_after, &self.start_on) {
            return false;
        }
        if !date_ok_exec(meta_get(task, "created"), &self.created_before, &self.created_after, &self.created_on) {
            return false;
        }
        if self.has_recurrence && meta_get(task, "recurrence").is_none() {
            return false;
        }
        match &self.id_filter {
            Some(id) => {
                match meta_get(task, "id") {
                    Some(v) => {
                        if !crate::text::same_chars(chars_of(v.as_str()).as_slice(), chars_of(id.as_str()).as_slice()) {
                            return false;
                        }
                    },
                    None => {
                        return false;
                    },
                }
            },
            None => {},
        }
        match &self.depends_on_filter {
            Some(dep) => {
                match meta_get(task, "depends_on") {
                    Some(v) => {
                        if !comma_items_contains(v.as_str(), dep.as_str()) {
                            return false;
                        }
                    },
                    None => {
                        return false;
                    },
                }
            },
            None => {},
        }
        match &self.priority {
            Some(p) => {
                match meta_get(task, "priority") {
                    Some(v) => {
                        if !crate::text::same_chars(chars_of(v.as_str()).as_slice(), chars_of(p.as_str()).as_slice()) {
                            return false;
                        }
                    },
                    None => {
                        return false;
                    },
                }
            },
            None => {},
        }
        match &self.contains {
            Some(text) => {
                let hay = chars_of(to_lowercase(task.description.as_str()).as_str());
                let needle = chars_of(to_lowercase(text.as_str()).as_str());
                if find_seq_from(hay.as_slice(), needle.as_slice(), 0).is_none() {
                    return false;
                }
            },
            None => {},
        }
        let mut i: usize = 0;
        while i < self.has_metadata.len()
            invariant
                i <= self.has_metadata@.len(),
                task.metadata.wf(),
                forall|j: int| 0 <= j < i ==> task.metadata.view().contains_key(#[trigger] self.has_metadata@[j]@),
            decreases self.has_metadata@.len() - i,
        {
            if task.metadata.get(self.has_metadata[i].as_str()).is_none() {
                return false;
            }
            i = i + 1;
        }
        match &self.links_to {
            Some(target) => {
                let tn = chars_of(to_lowercase(crate::text::string_of(trim_md_exec(target.as_str()).as_slice()).as_str()).as_str());
                let mut found = false;
                let mut i: usize = 0;
                while i < task.links.len()
                    invariant
                        i <= task.links@.len(),
                        tn@ == str_lowercase(trim_md(target@)),
                        found <==> exists|j: int| 0 <= j < i && str_lowercase(trim_md((#[trigger] task.links@[j]).to@)) == str_lowercase(trim_md(target@)),
                    decreases task.links@.len() - i,
                {
                    let ln = chars_of(to_lowercase(crate::text::string_of(trim_md_exec(task.links[i].to.as_str()).as_slice()).as_str()).as_str());
                    if crate::text::same_chars(ln.as_slice(), tn.as_slice()) {
                        found = true;
                    }
                    i = i + 1;
                }
                if !found {
                    return false;
                }
            },
            None => {},
        }
        match &self.tag {
            Some(tg) => {
                let tc = chars_of(tg.as_str());
                let norm = if tc.len() > 0 && tc[0] == '#' {
                    tc.clone()
                } else {
                    let mut v: Vec<char> = vec!['#'];
                    crate::text::append_chars(&mut v, tc.as_slice());
                    v
                };
                proof {
                    if tc@.len() > 0 && tc@[0] == '#' {
                        assert(tc@.subrange(0, 1) =~= seq!['#']);
                    } else {
                        assert(norm@ =~= seq!['#'] + tc@);
                        if tc@.len() > 0 {
                            assert(tc@.subrange(0, 1)[0] == tc@[0]);
                        }
                    }
                    assert(norm@ == tag_norm(tg@));
                }
                let mut slash = norm.clone();
                slash.push('/');
                proof {
                    assert(slash@ =~= tag_norm(tg@) + seq!['/']);
                }
                let mut found = false;
                let mut i: usize = 0;
                while i < task.tags.len()
                    invariant
                        i <= task.tags@.len(),
                        norm@ == tag_norm(tg@),
                        slash@ == tag_norm(tg@) + seq!['/'],
                        found <==> exists|j: int| 0 <= j < i && ((#[trigger] task.tags@[j])@ == tag_norm(tg@) || has_prefix(task.tags@[j]@, tag_norm(tg@) + seq!['/'])),
                    decreases task.tags@.len() - i,
                {
                    let tt = chars_of(task.tags[i].as_str());
                    if crate::text::same_chars(tt.as_slice(), norm.as_slice()) || crate::text::matches_at(tt.as_slice(), 0, slash.as_slice()) {
                        found = true;
                    }
                    i = i + 1;
                }
                if !found {
                    return false;
                }
            },
            None => {},
        }
        if self.has_block_ref && task.block_id.is_none() {
            return false;
        }
        match &self.block_ref {
            Some(b) => match &task.block_id {
                Some(x) => crate::text::same_chars(chars_of(x.as_str()).as_slice(), chars_of(b.as_str()).as_slice()),
                None => false,
            },
            None => true,
        }
    }
}

} // verus!
