//! Renaming a note: the links into it take the new name.
//!
//! The links of each source note are rewritten from the last to the first,
//! so that a rewrite does not move the positions of the links still to do.

use vstd::prelude::*;
use crate::graph::link_graph::IncomingLink;
use crate::parser::wikilink::{format_wikilink, opt_part, wikilink_text};
use crate::text::{char_at_byte, chars_of, lines, str_lowercase, string_of, to_lowercase, utf8_len};
use crate::types::Link;

verus! {

/// A path without its trailing `.md`s (`trim_end_matches(".md")`).
pub open spec fn strip_md(p: Seq<char>) -> Seq<char>
    decreases p.len(),
{
    if p.len() >= 3 && p.subrange(p.len() - 3, p.len() as int) == seq!['.', 'm', 'd'] {
        strip_md(p.subrange(0, p.len() - 3))
    } else {
        p
    }
}

/// The target a link takes after the rename: the new name where it named
/// the old one (ignoring case), the new path without `.md` otherwise.
pub open spec fn updated_target(target: Seq<char>, old_name: Seq<char>, new_name: Seq<char>, new_path: Seq<char>) -> Seq<char> {
    if str_lowercase(target) == str_lowercase(old_name) {
        new_name
    } else {
        strip_md(new_path)
    }
}

/// The text of link `l` with target `t`.
pub open spec fn retargeted_text(l: Link, t: Seq<char>) -> Seq<char> {
    (if l.embed {
        seq!['!']
    } else {
        Seq::empty()
    }) + seq!['[', '['] + t + opt_part(seq!['#'], l.heading) + opt_part(seq!['#', '^'], l.block_id) + opt_part(
        seq!['|'],
        l.alias,
    ) + seq![']', ']']
}

/// The new text of a renamed link is the wikilink text of the same link
/// with only its target replaced: the embed mark, heading, block ID and
/// alias are kept. Retargeting a link to its own target gives back its
/// text, and the new text starts with `!` exactly when the link is an
/// embed.
pub proof fn law_retarget_keeps_link(l: Link, m: Link, t: Seq<char>)
    requires
        m.target@ == t,
        m.embed == l.embed,
        m.heading == l.heading,
        m.block_id == l.block_id,
        m.alias == l.alias,
    ensures
        retargeted_text(l, t) == wikilink_text(m),
        retargeted_text(l, l.target@) == wikilink_text(l),
        (retargeted_text(l, t)[0] == '!') == l.embed,
{
    let e: Seq<char> = if l.embed {
        seq!['!']
    } else {
        Seq::empty()
    };
    let rest = seq!['[', '['] + t + opt_part(seq!['#'], l.heading) + opt_part(seq!['#', '^'], l.block_id) + opt_part(
        seq!['|'],
        l.alias,
    ) + seq![']', ']'];
    assert(retargeted_text(l, t) =~= e + rest);
    assert(rest[0] == '[');
    if l.embed {
        assert((e + rest)[0] == '!');
    } else {
        assert((e + rest)[0] == rest[0]);
    }
}

fn strip_md_exec(p: &Vec<char>) -> (r: Vec<char>)
    ensures
        r@ == strip_md(p@),
{
    let mut n = p.len();
    proof {
        assert(p@.subrange(0, n as int) =~= p@);
    }
    while n >= 3 && p[n - 3] == '.' && p[n - 2] == 'm' && p[n - 1] == 'd'
        invariant
            n <= p@.len(),
            strip_md(p@) == strip_md(p@.subrange(0, n as int)),
        decreases n,
    {
        proof {
            let q = p@.subrange(0, n as int);
            assert(q.subrange(q.len() - 3, q.len() as int) =~= seq!['.', 'm', 'd']);
            assert(q.subrange(0, q.len() - 3) =~= p@.subrange(0, n - 3));
        }
        n = n - 3;
    }
    proof {
        let q = p@.subrange(0, n as int);
        if q.len() >= 3 {
            assert(q.subrange(q.len() - 3, q.len() as int) != seq!['.', 'm', 'd']) by {
                if q.subrange(q.len() - 3, q.len() as int) == seq!['.', 'm', 'd'] {
                    assert(q.subrange(q.len() - 3, q.len() as int)[0] == p@[n - 3]);
                    assert(q.subrange(q.len() - 3, q.len() as int)[1] == p@[n - 2]);
                    assert(q.subrange(q.len() - 3, q.len() as int)[2] == p@[n - 1]);
                }
            }
        }
    }
    crate::text::sub_vec(p, 0, n)
}

/// The link with the target it takes after the rename; everything else is
/// kept.
pub fn create_updated_link(old_link: &Link, old_name: &str, new_name: &str, new_path: &str) -> (r: Link)
    ensures
        r.target@ == updated_target(old_link.target@, old_name@, new_name@, new_path@),
        r.alias == old_link.alias,
        r.heading == old_link.heading,
        r.block_id == old_link.block_id,
        r.embed == old_link.embed,
        r.line == old_link.line,
        r.start_col == old_link.start_col,
        r.end_col == old_link.end_col,
{
    let mut new_link = old_link.copy();
    let a = to_lowercase(old_link.target.as_str());
    let b = to_lowercase(old_name);
    if crate::text::same_chars(chars_of(a.as_str()).as_slice(), chars_of(b.as_str()).as_slice()) {
        new_link.target = crate::text::lit(new_name);
    } else {
        new_link.target = string_of(strip_md_exec(&chars_of(new_path)).as_slice());
    }
    new_link
}

/// The byte offset at which line `k` (0-indexed) starts when the lines are
/// joined with one line feed each.
pub open spec fn line_offset(ls: Seq<Seq<char>>, k: int) -> int
    decreases k,
{
    if k <= 0 {
        0
    } else {
        line_offset(ls, k - 1) + utf8_len(ls[k - 1]) + 1
    }
}

/// The byte offset at which a link at `line` (1-indexed) and byte column
/// `col` starts in the content; none for a line out of range (or an offset
/// past `usize`).
pub open spec fn link_position(c: Seq<char>, line: usize, col: usize) -> Option<int> {
    let ls = lines(c);
    if line == 0 || line > ls.len() {
        None
    } else if line_offset(ls, line - 1) + col > usize::MAX {
        None
    } else {
        Some(line_offset(ls, line - 1) + col)
    }
}

fn utf8_len_wide(v: &Vec<char>) -> (r: u128)
    ensures
        r == utf8_len(v@),
        r <= 4 * v@.len(),
        v@.len() <= usize::MAX,
{
    let mut r: u128 = 0;
    let mut i: usize = 0;
    assert(v@.subrange(0, 0) =~= Seq::<char>::empty());
    let n = v.len();
    while i < n
        invariant
            i <= v@.len(),
            n == v@.len(),
            r == utf8_len(v@.subrange(0, i as int)),
            r <= 4 * i,
        decreases v@.len() - i,
    {
        proof {
            assert(v@.subrange(0, i + 1).drop_last() =~= v@.subrange(0, i as int));
        }
        let b = crate::text::char_byte_count(v[i]);
        r = r + b as u128;
        i = i + 1;
    }
    assert(v@.subrange(0, v@.len() as int) =~= v@);
    r
}

/// The byte position of a link in the content, counted from the byte
/// lengths of the lines before it and its column.
pub fn find_link_position(content: &str, link: &Link) -> (r: Option<usize>)
    ensures
        match link_position(content@, link.line, link.start_col) {
            Some(p) => r matches Some(x) && x as int == p,
            None => r is None,
        },
{
    let s = chars_of(content);
    let ls = crate::text::split_lines(&s);
    if link.line == 0 || link.line > ls.len() {
        return None;
    }
    let mut offset: usize = 0;
    let mut k: usize = 0;
    while k < link.line - 1
        invariant
            k <= link.line - 1,
            link.line <= ls@.len(),
            ls.deep_view() == lines(content@),
            offset == line_offset(ls.deep_view(), k as int),
        decreases link.line - 1 - k,
    {
        proof {
            assert(ls.deep_view()[k as int] == ls@[k as int]@);
            crate::text::lemma_utf8_len_bounds(ls@[k as int]@);
        }
        let n = utf8_len_wide(&ls[k]);
        let next: u128 = offset as u128 + n + 1;
        if next > usize::MAX as u128 {
            proof {
                lemma_line_offset_grows(ls.deep_view(), k + 1, link.line - 1);
            }
            return None;
        }
        offset = next as usize;
        k = k + 1;
    }
    offset.checked_add(link.start_col)
}

proof fn lemma_line_offset_grows(ls: Seq<Seq<char>>, a: int, b: int)
    requires
        0 <= a <= b,
    ensures
        line_offset(ls, a) <= line_offset(ls, b),
    decreases b - a,
{
    if a < b {
        lemma_line_offset_grows(ls, a, b - 1);
        crate::text::lemma_utf8_len_bounds(ls[b - 1]);
    }
}

/// One rewrite: the link's old text replaced, at its position, by its new
/// text; no change when the texts agree or the link has no position; none
/// when the position falls inside a character or the old text would reach
/// past the end.
pub open spec fn rewrite_step(c: Seq<char>, l: Link, old_name: Seq<char>, new_name: Seq<char>, new_path: Seq<char>) -> Option<
    (Seq<char>, nat),
> {
    let old = wikilink_text(l);
    let new = retargeted_text(l, updated_target(l.target@, old_name, new_name, new_path));
    if old == new {
        Some((c, 0))
    } else {
        match link_position(c, l.line, l.start_col) {
            None => Some((c, 0)),
            Some(bpos) => match char_at_byte(c, bpos, 0) {
                None => None,
                Some(pos) => if pos + old.len() <= c.len() {
                    Some((c.subrange(0, pos) + new + c.subrange(pos + old.len(), c.len() as int), 1))
                } else {
                    None
                },
            },
        }
    }
}

/// The content after rewriting the first `k` links, the last first, with
/// the number of links rewritten; none when a link's old text would reach
/// past the end of the content.
pub open spec fn rewrite_links_spec(
    c: Seq<char>,
    links: Seq<Link>,
    old_name: Seq<char>,
    new_name: Seq<char>,
    new_path: Seq<char>,
    k: int,
) -> Option<(Seq<char>, nat)>
    decreases k,
{
    if k <= 0 || k > links.len() {
        Some((c, 0))
    } else {
        match rewrite_step(c, links[k - 1], old_name, new_name, new_path) {
            None => None,
            Some((c1, u)) => match rewrite_links_spec(c1, links, old_name, new_name, new_path, k - 1) {
                None => None,
                Some((c2, n)) => Some((c2, n + u)),
            },
        }
    }
}

/// Rewrite the links of one note (given in the order of their positions)
/// from the last to the first: the new content and the number of links
/// rewritten; none when a link's old text would reach past the end of the
/// content.
pub fn rewrite_links(content: &str, links: &Vec<Link>, old_name: &str, new_name: &str, new_path: &str) -> (r: Option<
    (String, usize),
>)
    ensures
        match rewrite_links_spec(content@, links@, old_name@, new_name@, new_path@, links@.len() as int) {
            Some((c, n)) => r matches Some(x) && x.0@ == c && x.1 == n,
            None => r is None,
        },
{
    let mut cur = crate::text::lit(content);
    let mut updates: usize = 0;
    let mut k: usize = links.len();
    let total_links = links.len();
    let ghost total = rewrite_links_spec(content@, links@, old_name@, new_name@, new_path@, links@.len() as int);
    while k > 0
        invariant
            k <= links@.len(),
            total_links == links@.len(),
            updates <= links@.len() - k,
            total == rewrite_links_spec(content@, links@, old_name@, new_name@, new_path@, links@.len() as int),
            total == match rewrite_links_spec(cur@, links@, old_name@, new_name@, new_path@, k as int) {
                None => None,
                Some((c2, n)) => Some((c2, n + updates as nat)),
            },
        decreases k,
    {
        let l = &links[k - 1];
        let old = format_wikilink(l);
        let nl = create_updated_link(l, old_name, new_name, new_path);
        let new = format_wikilink(&nl);
        let oc = chars_of(old.as_str());
        let nc = chars_of(new.as_str());
        proof {
            assert(new@ == retargeted_text(*l, updated_target(l.target@, old_name@, new_name@, new_path@)));
        }
        let ghost c0 = cur@;
        let ghost lk = links@[k - 1];
        proof {
            assert(lk == *l);
        }
        if !crate::text::same_chars(oc.as_slice(), nc.as_slice()) {
            match find_link_position(cur.as_str(), l) {
                Some(bpos) => {
                    proof {
                        assert(link_position(c0, l.line, l.start_col) == Some(bpos as int));
                    }
                    let cv = chars_of(cur.as_str());
                    let pos = match crate::text::char_index_at_byte(&cv, bpos) {
                        Some(p) => p,
                        None => {
                            proof {
                                assert(rewrite_step(c0, lk, old_name@, new_name@, new_path@) is None);
                            }
                            return None;
                        },
                    };
                    let n = cv.len();
                    if pos <= n && oc.len() <= n - pos {
                        let mut out = crate::text::sub_vec(&cv, 0, pos);
                        crate::text::append_chars(&mut out, nc.as_slice());
                        let tail = crate::text::sub_vec(&cv, pos + oc.len(), n);
                        crate::text::append_chars(&mut out, tail.as_slice());
                        proof {
                            assert(out@ =~= cur@.subrange(0, pos as int) + new@ + cur@.subrange(
                                pos + oc@.len(),
                                cur@.len() as int,
                            ));
                            assert(rewrite_step(c0, lk, old_name@, new_name@, new_path@) == Some((out@, 1nat)));
                        }
                        cur = string_of(out.as_slice());
                        updates = updates + 1;
                    } else {
                        proof {
                            assert(rewrite_step(c0, lk, old_name@, new_name@, new_path@) is None);
                        }
                        return None;
                    }
                },
                None => {
                    proof {
                        assert(rewrite_step(c0, lk, old_name@, new_name@, new_path@) == Some((c0, 0nat)));
                    }
                },
            }
        } else {
            proof {
                assert(rewrite_step(c0, lk, old_name@, new_name@, new_path@) == Some((c0, 0nat)));
            }
        }
        k = k - 1;
    }
    Some((cur, updates))
}

/// The incoming links grouped by the note they come from: notes in order of
/// first appearance, each with its links in order.
pub open spec fn group_incoming(ls: Seq<IncomingLink>) -> Seq<(Seq<char>, Seq<Link>)>
    decreases ls.len(),
{
    if ls.len() == 0 {
        Seq::empty()
    } else {
        let g = group_incoming(ls.drop_last());
        let x = ls.last();
        match source_index(g, x.from@, 0) {
            Some(k) => g.update(k, (g[k].0, g[k].1.push(x.link))),
            None => g.push((x.from@, seq![x.link])),
        }
    }
}

/// The first group, from `i` on, of source `f`.
pub open spec fn source_index(g: Seq<(Seq<char>, Seq<Link>)>, f: Seq<char>, i: int) -> Option<int>
    decreases g.len() - i,
{
    if i < 0 || i >= g.len() {
        None
    } else if g[i].0 == f {
        Some(i)
    } else {
        source_index(g, f, i + 1)
    }
}

proof fn lemma_source_index(g: Seq<(Seq<char>, Seq<Link>)>, f: Seq<char>, i: int)
    requires
        0 <= i,
    ensures
        match source_index(g, f, i) {
            Some(k) => i <= k < g.len() && g[k].0 == f,
            None => forall|m: int| i <= m < g.len() ==> g[m].0 != f,
        },
    decreases g.len() - i,
{
    if i < g.len() && g[i].0 != f {
        lemma_source_index(g, f, i + 1);
    }
}

/// Group incoming links by the note they come from.
pub fn group_by_source(incoming: &Vec<&IncomingLink>) -> (r: Vec<(String, Vec<Link>)>)
    ensures
        r@.len() == group_incoming(incoming@.map_values(|x: &IncomingLink| *x)).len(),
        forall|k: int|
            0 <= k < r@.len() ==> (#[trigger] r@[k]).0@ == group_incoming(incoming@.map_values(|x: &IncomingLink| *x))[k].0
                && r@[k].1@ == group_incoming(incoming@.map_values(|x: &IncomingLink| *x))[k].1,
{
    let ghost all = incoming@.map_values(|x: &IncomingLink| *x);
    let mut groups: Vec<(String, Vec<Link>)> = Vec::new();
    let mut i: usize = 0;
    while i < incoming.len()
        invariant
            i <= incoming@.len(),
            all == incoming@.map_values(|x: &IncomingLink| *x),
            groups@.len() == group_incoming(all.subrange(0, i as int)).len(),
            forall|k: int|
                0 <= k < groups@.len() ==> (#[trigger] groups@[k]).0@ == group_incoming(all.subrange(0, i as int))[k].0
                    && groups@[k].1@ == group_incoming(all.subrange(0, i as int))[k].1,
        decreases incoming@.len() - i,
    {
        let x = incoming[i];
        let ghost g = group_incoming(all.subrange(0, i as int));
        proof {
            assert(all.subrange(0, i + 1).drop_last() =~= all.subrange(0, i as int));
            assert(all[i as int] == *x);
            lemma_source_index(g, x.from@, 0);
        }
        let mut k: usize = 0;
        let mut found: Option<usize> = None;
        while k < groups.len()
            invariant_except_break
                found is None,
            invariant
                k <= groups@.len(),
                groups@.len() == g.len(),
                forall|m: int| 0 <= m < groups@.len() ==> (#[trigger] groups@[m]).0@ == g[m].0,
                source_index(g, x.from@, 0) == source_index(g, x.from@, k as int),
            ensures
                match found {
                    Some(y) => source_index(g, x.from@, 0) == Some(y as int),
                    None => source_index(g, x.from@, 0) is None,
                },
            decreases groups@.len() - k,
        {
            if crate::text::same_chars(chars_of(groups[k].0.as_str()).as_slice(), chars_of(x.from.as_str()).as_slice()) {
                found = Some(k);
                break;
            }
            k = k + 1;
        }
        let link = x.link.copy();
        match found {
            Some(y) => {
                let ghost old_g = groups@;
                let mut entry = groups.remove(y);
                entry.1.push(link);
                groups.insert(y, entry);
                proof {
                    assert forall|m: int| 0 <= m < groups@.len() implies (#[trigger] groups@[m]).0@ == group_incoming(
                        all.subrange(0, i + 1),
                    )[m].0 && groups@[m].1@ == group_incoming(all.subrange(0, i + 1))[m].1 by {
                        if m != y as int {
                            assert(groups@[m] == old_g[m]);
                        }
                    }
                }
            },
            None => {
                let ghost old_g = groups@;
                groups.push((x.from.clone(), vec![link]));
                proof {
                    assert forall|m: int| 0 <= m < groups@.len() implies (#[trigger] groups@[m]).0@ == group_incoming(
                        all.subrange(0, i + 1),
                    )[m].0 && groups@[m].1@ == group_incoming(all.subrange(0, i + 1))[m].1 by {
                        if m < old_g.len() {
                            assert(groups@[m] == old_g[m]);
                        } else {
                            assert(groups@[m].1@ =~= seq![all[i as int].link]);
                        }
                    }
                }
            },
        }
        i = i + 1;
    }
    proof {
        assert(all.subrange(0, i as int) =~= all);
    }
    groups
}

/// The changes a rename makes to a note's links, in order: line, old text
/// and new text of each link whose text changes.
pub open spec fn changes_spec(links: Seq<Link>, old_name: Seq<char>, new_name: Seq<char>, new_path: Seq<char>) -> Seq<
    (usize, Seq<char>, Seq<char>),
>
    decreases links.len(),
{
    if links.len() == 0 {
        Seq::empty()
    } else {
        let l = links.last();
        let old = wikilink_text(l);
        let new = retargeted_text(l, updated_target(l.target@, old_name, new_name, new_path));
        changes_spec(links.drop_last(), old_name, new_name, new_path) + if old == new {
            Seq::<(usize, Seq<char>, Seq<char>)>::empty()
        } else {
            seq![(l.line, old, new)]
        }
    }
}

/// The changes a rename would make to these links.
pub fn link_changes(links: &Vec<Link>, old_name: &str, new_name: &str, new_path: &str) -> (r: Vec<(usize, String, String)>)
    ensures
        r@.map_values(|x: (usize, String, String)| (x.0, x.1@, x.2@)) == changes_spec(links@, old_name@, new_name@, new_path@),
{
    let mut out: Vec<(usize, String, String)> = Vec::new();
    let mut i: usize = 0;
    while i < links.len()
        invariant
            i <= links@.len(),
            out@.map_values(|x: (usize, String, String)| (x.0, x.1@, x.2@)) == changes_spec(
                links@.subrange(0, i as int),
                old_name@,
                new_name@,
                new_path@,
            ),
        decreases links@.len() - i,
    {
        let l = &links[i];
        let old = format_wikilink(l);
        let nl = create_updated_link(l, old_name, new_name, new_path);
        let new = format_wikilink(&nl);
        proof {
            assert(links@.subrange(0, i + 1).drop_last() =~= links@.subrange(0, i as int));
            assert(links@.subrange(0, i + 1).last() == *l);
        }
        let ghost before = out@;
        if !crate::text::same_chars(chars_of(old.as_str()).as_slice(), chars_of(new.as_str()).as_slice()) {
            out.push((l.line, old, new));
            proof {
                assert(out@.map_values(|x: (usize, String, String)| (x.0, x.1@, x.2@)) =~= before.map_values(
                    |x: (usize, String, String)| (x.0, x.1@, x.2@),
                ).push((l.line, wikilink_text(*l), retargeted_text(*l, updated_target(l.target@, old_name@, new_name@, new_path@)))));
            }
        } else {
            proof {
                assert(changes_spec(links@.subrange(0, i + 1), old_name@, new_name@, new_path@) =~= changes_spec(
                    links@.subrange(0, i as int),
                    old_name@,
                    new_name@,
                    new_path@,
                ));
            }
        }
        i = i + 1;
    }
    proof {
        assert(links@.subrange(0, i as int) =~= links@);
    }
    out
}

} // verus!
