//! The tags of a whole vault nested by `/` components.

use vstd::prelude::*;
use crate::str_map::StrMap;
use crate::text::{chars_of, lemma_str_lt_order, str_lt, str_lt_exec, sub_vec};

verus! {

// ---------------------------------------------------------------------------
// Nested tags
// ---------------------------------------------------------------------------

/// A tag with the tags nested under it (`#a/b` under `#a`).
#[derive(Debug)]
pub struct NestedTag {
    pub tag: String,
    pub count: Option<usize>,
    pub children: Vec<NestedTag>,
}

/// A tag name without its leading `#`.
pub open spec fn strip_hash(t: Seq<char>) -> Seq<char> {
    if t.len() > 0 && t[0] == '#' {
        t.drop_first()
    } else {
        t
    }
}

/// A text split at each `/` (`str::split('/')`).
pub open spec fn split_slash(s: Seq<char>) -> Seq<Seq<char>>
    decreases s.len(),
{
    if s.len() == 0 {
        seq![Seq::<char>::empty()]
    } else {
        let p = split_slash(s.drop_last());
        if s.last() == '/' {
            p.push(Seq::<char>::empty())
        } else {
            p.update(p.len() - 1, p.last().push(s.last()))
        }
    }
}

/// The `/` components of a tag name, after its `#`.
pub open spec fn tag_parts(t: Seq<char>) -> Seq<Seq<char>> {
    split_slash(strip_hash(t))
}

/// The tag of a path of components: `#` and the components joined by `/`.
pub open spec fn path_tag(p: Seq<Seq<char>>) -> Seq<char>
    decreases p.len(),
{
    if p.len() == 0 {
        seq!['#']
    } else if p.len() == 1 {
        seq!['#'] + p[0]
    } else {
        path_tag(p.drop_last()) + seq!['/'] + p.last()
    }
}

/// Some key of `m` has the components `p`, then `seg`, then maybe more.
#[verifier::opaque]
pub open spec fn extends(m: Map<Seq<char>, usize>, p: Seq<Seq<char>>, seg: Seq<char>) -> bool {
    exists|k: Seq<char>|
        #![trigger m.contains_key(k), tag_parts(k)]
        m.contains_key(k) && tag_parts(k).len() > p.len() && tag_parts(k).subrange(0, p.len() as int) == p
            && tag_parts(k)[p.len() as int] == seg
}

/// The count of the node for path `p`: with `with_counts`, the count of a
/// key with exactly the components `p`, when there is one; none otherwise.
pub open spec fn count_ok(c: Option<usize>, m: Map<Seq<char>, usize>, with_counts: bool, p: Seq<Seq<char>>) -> bool {
    if with_counts {
        &&& (c is Some <==> exists|k: Seq<char>| #[trigger] m.contains_key(k) && tag_parts(k) == p)
        &&& (c matches Some(v) ==> exists|k: Seq<char>| #[trigger] m.contains_key(k) && tag_parts(k) == p && m[k] == v)
    } else {
        c is None
    }
}

/// The last component of a child of path `p` with tag `t`.
pub open spec fn seg_of(t: Seq<char>, p: Seq<Seq<char>>) -> Seq<char> {
    t.subrange(child_prefix(p).len() as int, t.len() as int)
}

/// `n` is the node for path `p` of the tags of `m`: its tag, its count, and
/// as children the nodes of `p`'s one-component extensions that begin some
/// key, each once, in increasing order of tag.
pub open spec fn node_is(n: NestedTag, m: Map<Seq<char>, usize>, with_counts: bool, p: Seq<Seq<char>>) -> bool
    decreases n, 0int, 0int,
{
    &&& n.tag@ == path_tag(p)
    &&& count_ok(n.count, m, with_counts, p)
    &&& children_from(n.children@, m, with_counts, p, 0)
    &&& forest_covers(n.children@, m, p)
    &&& nested_sorted(n.children@)
}

/// `n` is the node of the one-component extension of `p` named by its tag,
/// and that extension begins some key.
pub open spec fn node_of_ext(n: NestedTag, m: Map<Seq<char>, usize>, with_counts: bool, p: Seq<Seq<char>>) -> bool
    decreases n, 1int, 0int,
{
    &&& extends(m, p, seg_of(n.tag@, p))
    &&& node_is(n, m, with_counts, p.push(seg_of(n.tag@, p)))
}

/// The nodes `r[i..]` are each the node of an extension of `p`.
pub open spec fn children_from(r: Seq<NestedTag>, m: Map<Seq<char>, usize>, with_counts: bool, p: Seq<Seq<char>>, i: int) -> bool
    decreases r, 0int, r.len() - i,
{
    if i < 0 || i >= r.len() {
        true
    } else {
        node_of_ext(r[i], m, with_counts, p) && children_from(r, m, with_counts, p, i + 1)
    }
}

/// Some node has tag `t`.
pub open spec fn tag_listed(r: Seq<NestedTag>, t: Seq<char>) -> bool {
    exists|i: int| 0 <= i < r.len() && (#[trigger] r[i]).tag@ == t
}

/// Every one-component extension of `p` that begins some key has a node.
pub open spec fn forest_covers(r: Seq<NestedTag>, m: Map<Seq<char>, usize>, p: Seq<Seq<char>>) -> bool {
    forall|seg: Seq<char>| #[trigger] extends(m, p, seg) ==> tag_listed(r, path_tag(p.push(seg)))
}

/// The nodes are in increasing order of tag.
pub open spec fn nested_sorted(r: Seq<NestedTag>) -> bool {
    forall|i: int, j: int| 0 <= i < j < r.len() ==> str_lt((#[trigger] r[i]).tag@, (#[trigger] r[j]).tag@)
}

/// The nodes for the one-component extensions of `p` that begin some key.
pub open spec fn forest_is(r: Seq<NestedTag>, m: Map<Seq<char>, usize>, with_counts: bool, p: Seq<Seq<char>>) -> bool {
    &&& children_from(r, m, with_counts, p, 0)
    &&& forest_covers(r, m, p)
    &&& nested_sorted(r)
}

proof fn lemma_children_from(r: Seq<NestedTag>, m: Map<Seq<char>, usize>, with_counts: bool, p: Seq<Seq<char>>, i: int)
    requires
        0 <= i,
        forall|x: int| 0 <= x < r.len() ==> #[trigger] node_of_ext(r[x], m, with_counts, p),
    ensures
        children_from(r, m, with_counts, p, i),
    decreases r.len() - i,
{
    if i < r.len() {
        assert(node_of_ext(r[i], m, with_counts, p));
        lemma_children_from(r, m, with_counts, p, i + 1);
    }
}

/// What comes before the last component in a path's tag.
pub open spec fn child_prefix(p: Seq<Seq<char>>) -> Seq<char> {
    if p.len() == 0 {
        seq!['#']
    } else {
        path_tag(p) + seq!['/']
    }
}

proof fn lemma_path_tag_push(p: Seq<Seq<char>>, seg: Seq<char>)
    ensures
        path_tag(p.push(seg)) == child_prefix(p) + seg,
{
    assert(p.push(seg).drop_last() =~= p);
    if p.len() == 0 {
        assert(p.push(seg)[0] == seg);
    }
}

proof fn lemma_path_tag_inj(p: Seq<Seq<char>>, a: Seq<char>, b: Seq<char>)
    requires
        path_tag(p.push(a)) == path_tag(p.push(b)),
    ensures
        a == b,
{
    lemma_path_tag_push(p, a);
    lemma_path_tag_push(p, b);
    let n = child_prefix(p).len() as int;
    assert((child_prefix(p) + a).len() == (child_prefix(p) + b).len());
    assert(a.len() == b.len());
    assert((child_prefix(p) + a).subrange(n, n + a.len()) =~= a);
    assert((child_prefix(p) + b).subrange(n, n + b.len()) =~= b);
}

/// The components of a path as plain values.
pub open spec fn parts_view(v: Seq<Vec<char>>) -> Seq<Seq<char>> {
    v.map_values(|x: Vec<char>| x@)
}

/// The components of a tag name.
fn split_tag(t: &str) -> (r: Vec<Vec<char>>)
    ensures
        parts_view(r@) == tag_parts(t@),
{
    let s = chars_of(t);
    let start: usize = if s.len() > 0 && s[0] == '#' {
        1
    } else {
        0
    };
    let ghost st = strip_hash(t@);
    assert(st =~= s@.subrange(start as int, s@.len() as int));
    let mut out: Vec<Vec<char>> = Vec::new();
    let mut cur: Vec<char> = Vec::new();
    let mut i: usize = start;
    assert(st.subrange(0, 0) =~= Seq::<char>::empty());
    assert(parts_view(out@).push(cur@) =~= split_slash(st.subrange(0, 0)));
    while i < s.len()
        invariant
            start <= i <= s@.len(),
            st == s@.subrange(start as int, s@.len() as int),
            parts_view(out@).push(cur@) == split_slash(st.subrange(0, i - start)),
        decreases s@.len() - i,
    {
        let c = s[i];
        let ghost pre = st.subrange(0, i - start);
        let ghost post = st.subrange(0, i + 1 - start);
        assert(post.drop_last() =~= pre);
        assert(post.last() == c);
        let ghost ov = parts_view(out@);
        let ghost cv = cur@;
        if c == '/' {
            out.push(cur);
            cur = Vec::new();
            assert(parts_view(out@) =~= ov.push(cv));
            assert(parts_view(out@).push(cur@) =~= split_slash(post));
        } else {
            cur.push(c);
            assert(parts_view(out@) =~= ov);
            assert(parts_view(out@).push(cur@) =~= ov.push(cv).update(ov.len() as int, cv.push(c)));
        }
        i = i + 1;
    }
    assert(st.subrange(0, s@.len() - start) =~= st);
    let ghost ov = parts_view(out@);
    out.push(cur);
    assert(parts_view(out@) =~= ov.push(cur@));
    out
}

fn same_parts(a: &Vec<Vec<char>>, b: &Vec<Vec<char>>) -> (r: bool)
    ensures
        r == (parts_view(a@) == parts_view(b@)),
{
    assert(parts_view(a@).len() == a@.len() && parts_view(b@).len() == b@.len());
    if a.len() != b.len() {
        return false;
    }
    let mut i: usize = 0;
    while i < a.len()
        invariant
            i <= a@.len() == b@.len(),
            forall|x: int| 0 <= x < i ==> a@[x]@ == b@[x]@,
        decreases a@.len() - i,
    {
        if !crate::text::same_chars(a[i].as_slice(), b[i].as_slice()) {
            assert(parts_view(a@)[i as int] == a@[i as int]@);
            assert(parts_view(b@)[i as int] == b@[i as int]@);
            assert(parts_view(a@)[i as int] != parts_view(b@)[i as int]);
            return false;
        }
        i = i + 1;
    }
    assert(parts_view(a@) =~= parts_view(b@));
    true
}

/// `p` is a prefix of `q`, followed by at least one more component.
fn extends_exec(q: &Vec<Vec<char>>, p: &Vec<Vec<char>>) -> (r: bool)
    ensures
        r == (q@.len() > p@.len() && parts_view(q@).subrange(0, p@.len() as int) == parts_view(p@)),
{
    if q.len() <= p.len() {
        return false;
    }
    let mut i: usize = 0;
    while i < p.len()
        invariant
            i <= p@.len() < q@.len(),
            forall|x: int| 0 <= x < i ==> q@[x]@ == p@[x]@,
        decreases p@.len() - i,
    {
        if !crate::text::same_chars(q[i].as_slice(), p[i].as_slice()) {
            assert(parts_view(q@).subrange(0, p@.len() as int)[i as int] != parts_view(p@)[i as int]);
            return false;
        }
        i = i + 1;
    }
    assert(parts_view(q@).subrange(0, p@.len() as int) =~= parts_view(p@));
    true
}

/// Inserts a node whose tag is not yet listed, keeping the order.
fn insert_nested_sorted(r: &mut Vec<NestedTag>, e: NestedTag)
    requires
        nested_sorted(old(r)@),
        forall|x: int| 0 <= x < old(r)@.len() ==> (#[trigger] old(r)@[x]).tag@ != e.tag@,
    ensures
        nested_sorted(final(r)@),
        exists|p: int| 0 <= p <= old(r)@.len() && final(r)@ == old(r)@.insert(p, e),
{
    let ec = chars_of(e.tag.as_str());
    let mut p: usize = 0;
    while p < r.len()
        invariant
            p <= r@.len(),
            ec@ == e.tag@,
            forall|x: int| 0 <= x < p ==> !str_lt(e.tag@, (#[trigger] r@[x]).tag@),
        ensures
            p <= r@.len(),
            forall|x: int| 0 <= x < p ==> !str_lt(e.tag@, (#[trigger] r@[x]).tag@),
            p < r@.len() ==> str_lt(e.tag@, r@[p as int].tag@),
        decreases r@.len() - p,
    {
        let c = chars_of(r[p].tag.as_str());
        if str_lt_exec(ec.as_slice(), c.as_slice()) {
            break;
        }
        p = p + 1;
    }
    let ghost old_r = r@;
    proof {
        assert forall|x: int| 0 <= x < p implies str_lt((#[trigger] old_r[x]).tag@, e.tag@) by {
            lemma_str_lt_order(old_r[x].tag@, e.tag@, old_r[x].tag@);
        }
        assert forall|x: int| p <= x < old_r.len() implies str_lt(e.tag@, (#[trigger] old_r[x]).tag@) by {
            if x > p {
                lemma_str_lt_order(e.tag@, old_r[p as int].tag@, old_r[x].tag@);
            }
        }
    }
    r.insert(p, e);
    proof {
        let n = r@;
        assert forall|i: int, j: int| 0 <= i < j < n.len() implies str_lt((#[trigger] n[i]).tag@, (#[trigger] n[j]).tag@) by {
            if i < p {
                assert(n[i] == old_r[i]);
                if j < p {
                    assert(n[j] == old_r[j]);
                } else if j == p {
                    assert(n[j] == e);
                } else {
                    assert(n[j] == old_r[j - 1]);
                }
            } else if i == p {
                assert(n[i] == e);
                assert(n[j] == old_r[j - 1]);
            } else {
                assert(n[i] == old_r[i - 1]);
                assert(n[j] == old_r[j - 1]);
            }
        }
    }
}

/// Entry `j` holds the components and count of some key of `m`.
pub open spec fn entry_of_key(m: Map<Seq<char>, usize>, ks: Seq<(Vec<Vec<char>>, usize)>, j: int) -> bool {
    exists|k: Seq<char>| #![trigger m.contains_key(k)] m.contains_key(k) && tag_parts(k) == parts_view(ks[j].0@) && m[k] == ks[j].1
}

/// Some entry holds the components and count of key `k`.
pub open spec fn key_has_entry(m: Map<Seq<char>, usize>, ks: Seq<(Vec<Vec<char>>, usize)>, k: Seq<char>) -> bool {
    exists|j: int| #![trigger ks[j]] 0 <= j < ks.len() && parts_view(ks[j].0@) == tag_parts(k) && ks[j].1 == m[k]
}

/// The keys of `m` as their components and counts.
pub open spec fn keys_agree(m: Map<Seq<char>, usize>, ks: Seq<(Vec<Vec<char>>, usize)>) -> bool {
    &&& forall|j: int| 0 <= j < ks.len() ==> #[trigger] entry_of_key(m, ks, j)
    &&& forall|k: Seq<char>| m.contains_key(k) ==> #[trigger] key_has_entry(m, ks, k)
}

/// The count of a key with components `q`, if any.
fn find_count(ks: &Vec<(Vec<Vec<char>>, usize)>, q: &Vec<Vec<char>>) -> (r: Option<usize>)
    ensures
        r is Some <==> exists|j: int| 0 <= j < ks@.len() && parts_view((#[trigger] ks@[j]).0@) == parts_view(q@),
        r matches Some(v) ==> exists|j: int| 0 <= j < ks@.len() && parts_view((#[trigger] ks@[j]).0@) == parts_view(q@) && ks@[j].1 == v,
{
    let mut j: usize = 0;
    while j < ks.len()
        invariant
            j <= ks@.len(),
            forall|x: int| 0 <= x < j ==> parts_view((#[trigger] ks@[x]).0@) != parts_view(q@),
        decreases ks@.len() - j,
    {
        if same_parts(&ks[j].0, q) {
            return Some(ks[j].1);
        }
        j = j + 1;
    }
    None
}

/// A copy of a path with one more component.
fn path_push(p: &Vec<Vec<char>>, seg: &Vec<char>) -> (r: Vec<Vec<char>>)
    ensures
        parts_view(r@) == parts_view(p@).push(seg@),
{
    let mut r: Vec<Vec<char>> = Vec::new();
    let mut i: usize = 0;
    while i < p.len()
        invariant
            i <= p@.len(),
            r@.len() == i,
            parts_view(r@) == parts_view(p@).subrange(0, i as int),
        decreases p@.len() - i,
    {
        let c = sub_vec(&p[i], 0, p[i].len());
        let ghost before = r@;
        r.push(c);
        assert forall|x: int| 0 <= x < i + 1 implies #[trigger] parts_view(r@)[x] == parts_view(before).push(p@[i as int]@)[x] by {
            if x < i {
                assert(r@[x] == before[x]);
            }
        }
        assert(parts_view(r@) =~= parts_view(before).push(p@[i as int]@));
        assert(parts_view(p@).subrange(0, i + 1) =~= parts_view(p@).subrange(0, i as int).push(p@[i as int]@));
        i = i + 1;
    }
    let c = sub_vec(seg, 0, seg.len());
    let ghost before = r@;
    r.push(c);
    assert forall|x: int| 0 <= x < r@.len() implies #[trigger] parts_view(r@)[x] == parts_view(before).push(seg@)[x] by {
        if x < before.len() {
            assert(r@[x] == before[x]);
        }
    }
    assert(parts_view(r@) =~= parts_view(before).push(seg@));
    assert(parts_view(p@).subrange(0, p@.len() as int) =~= parts_view(p@));
    r
}

/// Key `y` has the components `pv` and at least one more.
pub open spec fn key_extends(ks: Seq<(Vec<Vec<char>>, usize)>, y: int, pv: Seq<Seq<char>>) -> bool {
    ks[y].0@.len() > pv.len() && parts_view(ks[y].0@).subrange(0, pv.len() as int) == pv
}

/// Component `s` is listed.
pub open spec fn seg_listed(segs: Seq<Vec<char>>, s: Seq<char>) -> bool {
    exists|z: int| 0 <= z < segs.len() && (#[trigger] segs[z])@ == s
}

/// Tag `t` is the tag of `pv` extended by a listed component.
pub open spec fn tag_of_listed_seg(t: Seq<char>, segs: Seq<Vec<char>>, pv: Seq<Seq<char>>) -> bool {
    exists|z: int| 0 <= z < segs.len() && t == path_tag(pv.push((#[trigger] segs[z])@))
}

/// The component of key `y` after `pv`.
pub open spec fn next_seg(ks: Seq<(Vec<Vec<char>>, usize)>, y: int, pv: Seq<Seq<char>>) -> Seq<char> {
    parts_view(ks[y].0@)[pv.len() as int]
}

/// What holds after the first `j` keys while building the nodes under path
/// `pv`: the nodes so far, in order, one per component listed in `segs`,
/// and a component for each of those keys that extends `pv`.
#[verifier::opaque]
pub open spec fn level_inv(
    out: Seq<NestedTag>,
    segs: Seq<Vec<char>>,
    ks: Seq<(Vec<Vec<char>>, usize)>,
    j: int,
    m: Map<Seq<char>, usize>,
    with_counts: bool,
    pv: Seq<Seq<char>>,
) -> bool {
    &&& nested_sorted(out)
    &&& forall|x: int| 0 <= x < out.len() ==> #[trigger] node_of_ext(out[x], m, with_counts, pv)
    &&& forall|x: int| 0 <= x < out.len() ==> #[trigger] tag_of_listed_seg(out[x].tag@, segs, pv)
    &&& forall|z: int| 0 <= z < segs.len() ==> #[trigger] tag_listed(out, path_tag(pv.push(segs[z]@)))
    &&& forall|y: int| 0 <= y < j && key_extends(ks, y, pv) ==> #[trigger] seg_listed(segs, next_seg(ks, y, pv))
}

proof fn lemma_level_start(ks: Seq<(Vec<Vec<char>>, usize)>, m: Map<Seq<char>, usize>, with_counts: bool, pv: Seq<Seq<char>>)
    ensures
        level_inv(Seq::empty(), Seq::empty(), ks, 0, m, with_counts, pv),
{
    reveal(level_inv);
}

proof fn lemma_level_keep(
    out: Seq<NestedTag>,
    segs: Seq<Vec<char>>,
    ks: Seq<(Vec<Vec<char>>, usize)>,
    j: int,
    m: Map<Seq<char>, usize>,
    with_counts: bool,
    pv: Seq<Seq<char>>,
)
    requires
        0 <= j < ks.len(),
        level_inv(out, segs, ks, j, m, with_counts, pv),
        key_extends(ks, j, pv) ==> seg_listed(segs, next_seg(ks, j, pv)),
    ensures
        level_inv(out, segs, ks, j + 1, m, with_counts, pv),
{
    reveal(level_inv);
    assert forall|y: int| 0 <= y < j + 1 && key_extends(ks, y, pv) implies #[trigger] seg_listed(segs, next_seg(ks, y, pv)) by {
        if y < j {
            assert(0 <= y < j && key_extends(ks, y, pv));
        }
    }
}

proof fn lemma_level_fresh(
    out: Seq<NestedTag>,
    segs: Seq<Vec<char>>,
    ks: Seq<(Vec<Vec<char>>, usize)>,
    j: int,
    m: Map<Seq<char>, usize>,
    with_counts: bool,
    pv: Seq<Seq<char>>,
    seg: Seq<char>,
)
    requires
        level_inv(out, segs, ks, j, m, with_counts, pv),
        !seg_listed(segs, seg),
    ensures
        nested_sorted(out),
        forall|x: int| 0 <= x < out.len() ==> (#[trigger] out[x]).tag@ != path_tag(pv.push(seg)),
{
    reveal(level_inv);
    assert forall|x: int| 0 <= x < out.len() implies (#[trigger] out[x]).tag@ != path_tag(pv.push(seg)) by {
        assert(tag_of_listed_seg(out[x].tag@, segs, pv));
        let w = choose|w: int| 0 <= w < segs.len() && out[x].tag@ == path_tag(pv.push((#[trigger] segs[w])@));
        if out[x].tag@ == path_tag(pv.push(seg)) {
            lemma_path_tag_inj(pv, segs[w]@, seg);
            assert(seg_listed(segs, seg));
        }
    }
}

proof fn lemma_insert_nested_index(old_r: Seq<NestedTag>, r: Seq<NestedTag>, e: NestedTag, p: int, x: int)
    requires
        0 <= p <= old_r.len(),
        r == old_r.insert(p, e),
        0 <= x < r.len(),
    ensures
        x < p ==> r[x] == old_r[x],
        x == p ==> r[x] == e,
        x > p ==> r[x] == old_r[x - 1],
{
}

#[verifier::spinoff_prover]
#[verifier::rlimit(40)]
proof fn lemma_level_add(
    old_out: Seq<NestedTag>,
    out: Seq<NestedTag>,
    old_segs: Seq<Vec<char>>,
    segs: Seq<Vec<char>>,
    node: NestedTag,
    ip: int,
    seg: Vec<char>,
    ks: Seq<(Vec<Vec<char>>, usize)>,
    j: int,
    m: Map<Seq<char>, usize>,
    with_counts: bool,
    pv: Seq<Seq<char>>,
)
    requires
        0 <= j < ks.len(),
        level_inv(old_out, old_segs, ks, j, m, with_counts, pv),
        nested_sorted(out),
        0 <= ip <= old_out.len(),
        out == old_out.insert(ip, node),
        segs == old_segs.push(seg),
        node_of_ext(node, m, with_counts, pv),
        node.tag@ == path_tag(pv.push(seg@)),
        key_extends(ks, j, pv) ==> seg@ == next_seg(ks, j, pv),
    ensures
        level_inv(out, segs, ks, j + 1, m, with_counts, pv),
{
    reveal(level_inv);
    let n = old_segs.len() as int;
    assert(segs[n] == seg);
    assert forall|x: int| 0 <= x < out.len() implies #[trigger] node_of_ext(out[x], m, with_counts, pv) by {
        lemma_insert_nested_index(old_out, out, node, ip, x);
        if x < ip {
            assert(node_of_ext(old_out[x], m, with_counts, pv));
        } else if x > ip {
            assert(node_of_ext(old_out[x - 1], m, with_counts, pv));
        }
    }
    assert forall|x: int| 0 <= x < out.len() implies #[trigger] tag_of_listed_seg(out[x].tag@, segs, pv) by {
        lemma_insert_nested_index(old_out, out, node, ip, x);
        if x == ip {
            assert(out[x].tag@ == path_tag(pv.push(segs[n]@)));
        } else {
            let y = if x < ip { x } else { x - 1 };
            assert(out[x] == old_out[y]);
            assert(tag_of_listed_seg(old_out[y].tag@, old_segs, pv));
            let w = choose|w: int| 0 <= w < old_segs.len() && old_out[y].tag@ == path_tag(pv.push((#[trigger] old_segs[w])@));
            assert(segs[w] == old_segs[w]);
        }
    }
    assert forall|z: int| 0 <= z < segs.len() implies #[trigger] tag_listed(out, path_tag(pv.push(segs[z]@))) by {
        if z == n {
            lemma_insert_nested_index(old_out, out, node, ip, ip);
        } else {
            assert(segs[z] == old_segs[z]);
            assert(tag_listed(old_out, path_tag(pv.push(old_segs[z]@))));
            let x = choose|x: int| 0 <= x < old_out.len() && (#[trigger] old_out[x]).tag@ == path_tag(pv.push(old_segs[z]@));
            if x < ip {
                lemma_insert_nested_index(old_out, out, node, ip, x);
            } else {
                lemma_insert_nested_index(old_out, out, node, ip, x + 1);
            }
        }
    }
    assert forall|y: int| 0 <= y < j + 1 && key_extends(ks, y, pv) implies #[trigger] seg_listed(segs, next_seg(ks, y, pv)) by {
        if y == j {
            assert(segs[n]@ == next_seg(ks, y, pv));
        } else {
            assert(seg_listed(old_segs, next_seg(ks, y, pv)));
            let w = choose|w: int| 0 <= w < old_segs.len() && (#[trigger] old_segs[w])@ == next_seg(ks, y, pv);
            assert(segs[w] == old_segs[w]);
        }
    }
}

proof fn lemma_level_done(
    out: Seq<NestedTag>,
    segs: Seq<Vec<char>>,
    ks: Seq<(Vec<Vec<char>>, usize)>,
    m: Map<Seq<char>, usize>,
    with_counts: bool,
    pv: Seq<Seq<char>>,
)
    requires
        keys_agree(m, ks),
        level_inv(out, segs, ks, ks.len() as int, m, with_counts, pv),
    ensures
        forest_is(out, m, with_counts, pv),
{
    reveal(level_inv);
    lemma_children_from(out, m, with_counts, pv, 0);
    assert forall|sg: Seq<char>| #[trigger] extends(m, pv, sg) implies tag_listed(out, path_tag(pv.push(sg))) by {
        reveal(extends);
        let k = choose|k: Seq<char>|
            #![trigger m.contains_key(k), tag_parts(k)]
            m.contains_key(k) && tag_parts(k).len() > pv.len() && tag_parts(k).subrange(0, pv.len() as int) == pv
                && tag_parts(k)[pv.len() as int] == sg;
        assert(key_has_entry(m, ks, k));
        let y = choose|y: int| #![trigger ks[y]] 0 <= y < ks.len() && parts_view(ks[y].0@) == tag_parts(k) && ks[y].1 == m[k];
        assert(ks[y].0@.len() == parts_view(ks[y].0@).len());
        assert(key_extends(ks, y, pv));
        assert(seg_listed(segs, next_seg(ks, y, pv)));
        let w = choose|w: int| 0 <= w < segs.len() && (#[trigger] segs[w])@ == next_seg(ks, y, pv);
        assert(tag_listed(out, path_tag(pv.push(segs[w]@))));
    }
}

/// The count of the node for path `q` as `find_count` gives it.
proof fn lemma_count_ok(
    c: Option<usize>,
    ks: Seq<(Vec<Vec<char>>, usize)>,
    m: Map<Seq<char>, usize>,
    with_counts: bool,
    q: Seq<Seq<char>>,
)
    requires
        keys_agree(m, ks),
        with_counts ==> (c is Some <==> exists|j: int| 0 <= j < ks.len() && parts_view((#[trigger] ks[j]).0@) == q),
        with_counts ==> (c matches Some(v) ==> exists|j: int| 0 <= j < ks.len() && parts_view((#[trigger] ks[j]).0@) == q && ks[j].1 == v),
        !with_counts ==> c is None,
    ensures
        count_ok(c, m, with_counts, q),
{
    if with_counts {
        if c is Some {
            let j2 = choose|j2: int| 0 <= j2 < ks.len() && parts_view((#[trigger] ks[j2]).0@) == q && ks[j2].1 == c->0;
            assert(entry_of_key(m, ks, j2));
            let k2 = choose|k: Seq<char>| #![trigger m.contains_key(k)] m.contains_key(k) && tag_parts(k) == parts_view(ks[j2].0@) && m[k] == ks[j2].1;
            assert(m.contains_key(k2) && tag_parts(k2) == q && m[k2] == c->0);
        } else {
            assert forall|k: Seq<char>| #[trigger] m.contains_key(k) implies tag_parts(k) != q by {
                assert(key_has_entry(m, ks, k));
            }
        }
    }
}

/// The nodes for the one-component extensions of path `p` that begin some
/// key; `prefix` is the text before a child's last component.
fn build_level(
    ks: &Vec<(Vec<Vec<char>>, usize)>,
    p: &Vec<Vec<char>>,
    prefix: &Vec<char>,
    with_counts: bool,
    bound: usize,
    Ghost(m): Ghost<Map<Seq<char>, usize>>,
) -> (r: Vec<NestedTag>)
    requires
        keys_agree(m, ks@),
        prefix@ == child_prefix(parts_view(p@)),
        p@.len() <= bound,
        forall|j: int| 0 <= j < ks@.len() ==> (#[trigger] ks@[j]).0@.len() <= bound,
    ensures
        forest_is(r@, m, with_counts, parts_view(p@)),
    decreases bound - p@.len(),
{
    let ghost pv = parts_view(p@);
    let mut out: Vec<NestedTag> = Vec::new();
    let mut segs: Vec<Vec<char>> = Vec::new();
    let mut j: usize = 0;
    proof {
        lemma_level_start(ks@, m, with_counts, pv);
    }
    while j < ks.len()
        invariant
            j <= ks@.len(),
            keys_agree(m, ks@),
            prefix@ == child_prefix(pv),
            pv == parts_view(p@),
            p@.len() <= bound,
            forall|y: int| 0 <= y < ks@.len() ==> (#[trigger] ks@[y]).0@.len() <= bound,
            level_inv(out@, segs@, ks@, j as int, m, with_counts, pv),
        decreases ks@.len() - j,
    {
        if extends_exec(&ks[j].0, p) {
            assert(key_extends(ks@, j as int, pv));
            let seg = sub_vec(&ks[j].0[p.len()], 0, ks[j].0[p.len()].len());
            assert(seg@ == next_seg(ks@, j as int, pv));
            let mut seen = false;
            let mut z: usize = 0;
            while z < segs.len()
                invariant
                    z <= segs@.len(),
                    seen == exists|w: int| 0 <= w < z && (#[trigger] segs@[w])@ == seg@,
                decreases segs@.len() - z,
            {
                if crate::text::same_chars(segs[z].as_slice(), seg.as_slice()) {
                    seen = true;
                }
                z = z + 1;
            }
            if seen {
                proof {
                    lemma_level_keep(out@, segs@, ks@, j as int, m, with_counts, pv);
                }
            } else {
                let ghost q = pv.push(seg@);
                proof {
                    reveal(extends);
                    assert(entry_of_key(m, ks@, j as int));
                    let key = choose|k: Seq<char>|
                        #![trigger m.contains_key(k)]
                        m.contains_key(k) && tag_parts(k) == parts_view(ks@[j as int].0@) && m[k] == ks@[j as int].1;
                    assert(m.contains_key(key) && tag_parts(key) == parts_view(ks@[j as int].0@));
                    assert(extends(m, pv, seg@));
                    lemma_path_tag_push(pv, seg@);
                    assert(!seg_listed(segs@, seg@));
                    lemma_level_fresh(out@, segs@, ks@, j as int, m, with_counts, pv, seg@);
                }
                let qv = path_push(p, &seg);
                let mut tag = sub_vec(prefix, 0, prefix.len());
                crate::text::append_chars(&mut tag, seg.as_slice());
                assert(tag@ =~= prefix@ + seg@);
                let mut child_prefix_v = sub_vec(&tag, 0, tag.len());
                child_prefix_v.push('/');
                assert(child_prefix_v@ =~= child_prefix(q));
                let count = if with_counts {
                    find_count(ks, &qv)
                } else {
                    None
                };
                proof {
                    lemma_count_ok(count, ks@, m, with_counts, q);
                }
                let children = build_level(ks, &qv, &child_prefix_v, with_counts, bound, Ghost(m));
                let node = NestedTag { tag: crate::text::string_of(tag.as_slice()), count, children };
                assert(parts_view(qv@) == q);
                assert(node.tag@ == path_tag(q));
                assert(count_ok(node.count, m, with_counts, q));
                assert(forest_is(node.children@, m, with_counts, q));
                assert(node_is(node, m, with_counts, q));
                assert(seg_of(node.tag@, pv) =~= seg@);
                assert(node_of_ext(node, m, with_counts, pv));
                let ghost old_out = out@;
                let ghost old_segs = segs@;
                insert_nested_sorted(&mut out, node);
                segs.push(seg);
                proof {
                    let ip = choose|ip: int| 0 <= ip <= old_out.len() && out@ == old_out.insert(ip, node);
                    lemma_level_add(old_out, out@, old_segs, segs@, node, ip, seg, ks@, j as int, m, with_counts, pv);
                }
            }
        } else {
            proof {
                lemma_level_keep(out@, segs@, ks@, j as int, m, with_counts, pv);
            }
        }
        j = j + 1;
    }
    proof {
        lemma_level_done(out@, segs@, ks@, m, with_counts, pv);
    }
    out
}

/// The tags of `counts` (tag name to occurrences) nested by `/`
/// components: the roots are `#` and each first component, each once, in
/// increasing order; each node holds the nodes of its one-component
/// extensions that begin some tag, in increasing order; with `with_counts`
/// a node carries the count of the tag with exactly its components.
pub fn nested_tags(counts: &StrMap<usize>, with_counts: bool) -> (r: Vec<NestedTag>)
    requires
        counts.wf(),
    ensures
        forest_is(r@, counts.view(), with_counts, Seq::empty()),
{
    let keys = counts.keys();
    let ghost m = counts.view();
    let mut ks: Vec<(Vec<Vec<char>>, usize)> = Vec::new();
    let mut bound: usize = 0;
    let mut i: usize = 0;
    while i < keys.len()
        invariant
            i <= keys@.len(),
            counts.wf(),
            m == counts.view(),
            forall|a: int| 0 <= a < keys@.len() ==> m.contains_key(#[trigger] keys@[a]@),
            forall|k: Seq<char>| #[trigger] m.contains_key(k) ==> exists|a: int| 0 <= a < keys@.len() && keys@[a]@ == k,
            ks@.len() == i,
            forall|x: int| 0 <= x < i ==> parts_view((#[trigger] ks@[x]).0@) == tag_parts(keys@[x]@) && ks@[x].1 == m[keys@[x]@],
            forall|x: int| 0 <= x < i ==> (#[trigger] ks@[x]).0@.len() <= bound,
        decreases keys@.len() - i,
    {
        let parts = split_tag(keys[i].as_str());
        let v: usize = match counts.get(keys[i].as_str()) {
            Some(v) => *v,
            None => 0,
        };
        if parts.len() > bound {
            bound = parts.len();
        }
        ks.push((parts, v));
        i = i + 1;
    }
    proof {
        assert forall|j: int| 0 <= j < ks@.len() implies #[trigger] entry_of_key(m, ks@, j) by {
            assert(m.contains_key(keys@[j]@));
        }
        assert forall|k: Seq<char>| m.contains_key(k) implies #[trigger] key_has_entry(m, ks@, k) by {
            let a = choose|a: int| 0 <= a < keys@.len() && keys@[a]@ == k;
            assert(ks@[a] == ks@[a]);
        }
    }
    let empty: Vec<Vec<char>> = Vec::new();
    let mut prefix: Vec<char> = Vec::new();
    prefix.push('#');
    assert(parts_view(empty@) =~= Seq::<Seq<char>>::empty());
    assert(prefix@ =~= child_prefix(Seq::<Seq<char>>::empty()));
    build_level(&ks, &empty, &prefix, with_counts, bound, Ghost(m))
}

} // verus!
