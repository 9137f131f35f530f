//! The tags of a whole vault: listed by name, or nested by `/` components.

use vstd::prelude::*;
use crate::cli::info::{counts_match, tag_count_map, tag_counts, tag_total, tags_occ_total};
use crate::graph::link_graph::NoteSource;
use crate::str_map::StrMap;
use crate::text::{chars_of, lemma_str_lt_order, str_lt, str_lt_exec};

verus! {

/// A tag of the vault, with its number of occurrences when asked for.
#[derive(Debug, Clone, PartialEq, Eq)]
pub struct VaultTag {
    pub tag: String,
    pub count: Option<usize>,
}

/// The tags are in increasing order of name, each once.
pub open spec fn tags_sorted(v: Seq<VaultTag>) -> bool {
    forall|i: int, j: int| 0 <= i < j < v.len() ==> str_lt((#[trigger] v[i]).tag@, (#[trigger] v[j]).tag@)
}

/// Inserts a tag whose name is not yet listed, keeping the order.
fn insert_tag_sorted(r: &mut Vec<VaultTag>, e: VaultTag)
    requires
        tags_sorted(old(r)@),
        forall|x: int| 0 <= x < old(r)@.len() ==> (#[trigger] old(r)@[x]).tag@ != e.tag@,
    ensures
        tags_sorted(final(r)@),
        exists|p: int| 0 <= p <= old(r)@.len() && final(r)@ == old(r)@.insert(p, e),
{
    let ec = chars_of(e.tag.as_str());
    let mut p: usize = 0;
    while p < r.len()
        invariant
            p <= r@.len(),
            ec@ == e.tag@,
            forall|x: int| 0 <= x < p ==> !str_lt(e.tag@, (#[trigger] r@[x]).tag@),
        ensures
            p <= r@.len(),
            forall|x: int| 0 <= x < p ==> !str_lt(e.tag@, (#[trigger] r@[x]).tag@),
            p < r@.len() ==> str_lt(e.tag@, r@[p as int].tag@),
        decreases r@.len() - p,
    {
        let c = chars_of(r[p].tag.as_str());
        if str_lt_exec(ec.as_slice(), c.as_slice()) {
            break;
        }
        p = p + 1;
    }
    let ghost old_r = r@;
    proof {
        assert forall|x: int| 0 <= x < p implies str_lt((#[trigger] old_r[x]).tag@, e.tag@) by {
            lemma_str_lt_order(old_r[x].tag@, e.tag@, old_r[x].tag@);
        }
        assert forall|x: int| p <= x < old_r.len() implies str_lt(e.tag@, (#[trigger] old_r[x]).tag@) by {
            if x > p {
                lemma_str_lt_order(e.tag@, old_r[p as int].tag@, old_r[x].tag@);
            }
        }
    }
    r.insert(p, e);
    proof {
        let n = r@;
        assert forall|i: int, j: int| 0 <= i < j < n.len() implies str_lt((#[trigger] n[i]).tag@, (#[trigger] n[j]).tag@) by {
            if i < p {
                assert(n[i] == old_r[i]);
                if j < p {
                    assert(n[j] == old_r[j]);
                } else if j == p {
                    assert(n[j] == e);
                } else {
                    assert(n[j] == old_r[j - 1]);
                }
            } else if i == p {
                assert(n[i] == e);
                assert(n[j] == old_r[j - 1]);
            } else {
                assert(n[i] == old_r[i - 1]);
                assert(n[j] == old_r[j - 1]);
            }
        }
    }
}

/// The tags `r` list exactly the first `i` keys, in order, each with its
/// count when asked for.
pub open spec fn listed_upto(r: Seq<VaultTag>, keys: Seq<String>, i: int, mv: Map<Seq<char>, usize>, with_counts: bool) -> bool {
    &&& tags_sorted(r)
    &&& forall|x: int| 0 <= x < r.len() ==> exists|y: int| 0 <= y < i && (#[trigger] r[x]).tag@ == keys[y]@
    &&& forall|y: int| 0 <= y < i ==> exists|x: int| 0 <= x < r.len() && (#[trigger] r[x]).tag@ == (#[trigger] keys[y])@
    &&& forall|x: int| 0 <= x < r.len() ==> mv.contains_key((#[trigger] r[x]).tag@) && if with_counts {
        r[x].count matches Some(c) && c == mv[r[x].tag@]
    } else {
        r[x].count is None
    }
}

/// Where each entry of `old.insert(p, e)` comes from.
proof fn lemma_insert_index(old_r: Seq<VaultTag>, r: Seq<VaultTag>, e: VaultTag, p: int, x: int)
    requires
        0 <= p <= old_r.len(),
        r == old_r.insert(p, e),
        0 <= x < r.len(),
    ensures
        x < p ==> r[x] == old_r[x],
        x == p ==> r[x] == e,
        x > p ==> r[x] == old_r[x - 1],
{
}

#[verifier::spinoff_prover]
#[verifier::rlimit(40)]
proof fn lemma_listed_insert(
    old_r: Seq<VaultTag>,
    r: Seq<VaultTag>,
    e: VaultTag,
    p: int,
    keys: Seq<String>,
    i: int,
    mv: Map<Seq<char>, usize>,
    with_counts: bool,
)
    requires
        0 <= i < keys.len(),
        listed_upto(old_r, keys, i, mv, with_counts),
        tags_sorted(r),
        0 <= p <= old_r.len(),
        r == old_r.insert(p, e),
        e.tag@ == keys[i]@,
        mv.contains_key(e.tag@),
        if with_counts {
            e.count matches Some(c) && c == mv[e.tag@]
        } else {
            e.count is None
        },
    ensures
        listed_upto(r, keys, i + 1, mv, with_counts),
{
    assert forall|x: int| 0 <= x < r.len() implies exists|y: int| 0 <= y < i + 1 && (#[trigger] r[x]).tag@ == keys[y]@ by {
        lemma_insert_index(old_r, r, e, p, x);
        if x < p {
            let y = choose|y: int| 0 <= y < i && (#[trigger] old_r[x]).tag@ == keys[y]@;
        } else if x > p {
            let y = choose|y: int| 0 <= y < i && (#[trigger] old_r[x - 1]).tag@ == keys[y]@;
        }
    }
    assert forall|y: int| 0 <= y < i + 1 implies exists|x: int| 0 <= x < r.len() && (#[trigger] r[x]).tag@ == (
    #[trigger] keys[y])@ by {
        if y == i {
            lemma_insert_index(old_r, r, e, p, p);
        } else {
            let x = choose|x: int| 0 <= x < old_r.len() && (#[trigger] old_r[x]).tag@ == (#[trigger] keys[y])@;
            if x < p {
                lemma_insert_index(old_r, r, e, p, x);
            } else {
                lemma_insert_index(old_r, r, e, p, x + 1);
            }
        }
    }
    assert forall|x: int| 0 <= x < r.len() implies mv.contains_key((#[trigger] r[x]).tag@) && if with_counts {
        r[x].count matches Some(c) && c == mv[r[x].tag@]
    } else {
        r[x].count is None
    } by {
        lemma_insert_index(old_r, r, e, p, x);
    }
}

/// Every distinct tag name of the loaded notes, in increasing order of
/// name; with `with_counts`, each with its number of occurrences over the
/// notes.
pub fn vault_tags(notes: &[NoteSource], with_counts: bool) -> (r: Vec<VaultTag>)
    requires
        tags_occ_total(notes@) <= usize::MAX,
    ensures
        tags_sorted(r@),
        forall|i: int| 0 <= i < r@.len() ==> tag_total(notes@, (#[trigger] r@[i]).tag@) > 0,
        forall|i: int| 0 <= i < r@.len() ==> if with_counts {
            (#[trigger] r@[i]).count matches Some(c) && c as int == tag_total(notes@, r@[i].tag@)
        } else {
            r@[i].count is None
        },
        forall|n: Seq<char>| tag_total(notes@, n) > 0 ==> exists|i: int| 0 <= i < r@.len() && (#[trigger] r@[i]).tag@ == n,
{
    let m = tag_counts(notes);
    let keys = m.keys();
    let mut r: Vec<VaultTag> = Vec::new();
    let mut i: usize = 0;
    while i < keys.len()
        invariant
            i <= keys@.len(),
            m.wf(),
            forall|a: int, b: int| 0 <= a < b < keys@.len() ==> (#[trigger] keys@[a])@ != (#[trigger] keys@[b])@,
            forall|a: int| 0 <= a < keys@.len() ==> m.view().contains_key(#[trigger] keys@[a]@),
            listed_upto(r@, keys@, i as int, m.view(), with_counts),
        decreases keys@.len() - i,
    {
        let k = &keys[i];
        let v: usize = match m.get(k.as_str()) {
            Some(v) => *v,
            None => 0,
        };
        let e = VaultTag {
            tag: k.clone(),
            count: if with_counts {
                Some(v)
            } else {
                None
            },
        };
        let ghost old_r = r@;
        proof {
            assert forall|x: int| 0 <= x < old_r.len() implies (#[trigger] old_r[x]).tag@ != e.tag@ by {
                let y = choose|y: int| 0 <= y < i && (#[trigger] old_r[x]).tag@ == keys@[y]@;
                assert(keys@[y]@ != keys@[i as int]@);
            }
        }
        insert_tag_sorted(&mut r, e);
        proof {
            let p = choose|p: int| 0 <= p <= old_r.len() && r@ == old_r.insert(p, e);
            lemma_listed_insert(old_r, r@, e, p, keys@, i as int, m.view(), with_counts);
        }
        i = i + 1;
    }
    proof {
        assert forall|n: Seq<char>| tag_total(notes@, n) > 0 implies exists|x: int| 0 <= x < r@.len() && (#[trigger] r@[x]).tag@
            == n by {
            assert(tag_count_map(notes@).contains_key(n));
            assert(m.view().contains_key(n));
            let y = choose|y: int| 0 <= y < keys@.len() && keys@[y]@ == n;
            assert(keys@[y]@ == n);
        }
        assert forall|x: int| 0 <= x < r@.len() implies tag_total(notes@, (#[trigger] r@[x]).tag@) > 0 by {
            assert(m.view().contains_key(r@[x].tag@));
            assert(tag_count_map(notes@).contains_key(r@[x].tag@));
        }
    }
    r
}

} // verus!
