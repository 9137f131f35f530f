//! A map keyed by strings, kept as a list of entries with distinct keys.

use vstd::prelude::*;
use crate::text::{chars_of, same_chars};

verus! {

/// A map from strings (note paths, tag names, ...) to values. Each key
/// occurs at most once.
#[derive(Debug, Clone)]
pub struct StrMap<V> {
    entries: Vec<(String, V)>,
}

/// No key occurs twice among the entries.
pub open spec fn distinct_keys<V>(s: Seq<(String, V)>) -> bool {
    forall|i: int, j: int| 0 <= i < j < s.len() ==> (#[trigger] s[i]).0@ != (#[trigger] s[j]).0@
}

/// Entry `i` holds key `k`.
pub open spec fn key_at<V>(s: Seq<(String, V)>, i: int, k: Seq<char>) -> bool {
    0 <= i < s.len() && s[i].0@ == k
}

/// The index of the entry with key `k`.
pub open spec fn index_of_key<V>(s: Seq<(String, V)>, k: Seq<char>) -> int {
    choose|i: int| #[trigger] key_at(s, i, k)
}

/// The map that the entries stand for.
pub open spec fn entries_map<V>(s: Seq<(String, V)>) -> Map<Seq<char>, V> {
    Map::new(
        |k: Seq<char>| exists|i: int| #[trigger] key_at(s, i, k),
        |k: Seq<char>| s[index_of_key(s, k)].1,
    )
}

/// Entry `i` of distinct-keyed entries is what the map holds for its key.
pub proof fn lemma_entry_in_map<V>(s: Seq<(String, V)>, i: int)
    requires
        distinct_keys(s),
        0 <= i < s.len(),
    ensures
        entries_map(s).contains_key(s[i].0@),
        entries_map(s)[s[i].0@] == s[i].1,
        index_of_key(s, s[i].0@) == i,
{
    assert(key_at(s, i, s[i].0@));
    let j = index_of_key(s, s[i].0@);
    if j != i {
        if j < i {
            assert(s[j].0@ != s[i].0@);
        } else {
            assert(s[i].0@ != s[j].0@);
        }
    }
}

impl<V> StrMap<V> {
    /// The map that this value stands for.
    pub closed spec fn view(&self) -> Map<Seq<char>, V> {
        entries_map(self.entries@)
    }

    /// Well-formedness: no key occurs twice.
    pub closed spec fn wf(&self) -> bool {
        distinct_keys(self.entries@)
    }

    /// An empty map.
    pub fn new() -> (r: StrMap<V>)
        ensures
            r.wf(),
            r.view() == Map::<Seq<char>, V>::empty(),
    {
        let r = StrMap { entries: Vec::new() };
        assert(r.view() =~= Map::<Seq<char>, V>::empty());
        r
    }

    /// Index of the entry with key `key`.
    fn find(&self, key: &str) -> (r: Option<usize>)
        requires
            self.wf(),
        ensures
            match r {
                Some(i) => i < self.entries@.len() && self.entries@[i as int].0@ == key@,
                None => !self.view().contains_key(key@),
            },
    {
        let k = chars_of(key);
        let mut i: usize = 0;
        while i < self.entries.len()
            invariant
                i <= self.entries@.len(),
                k@ == key@,
                forall|j: int| 0 <= j < i ==> (#[trigger] self.entries@[j]).0@ != key@,
            decreases self.entries@.len() - i,
        {
            let c = chars_of(self.entries[i].0.as_str());
            if same_chars(c.as_slice(), k.as_slice()) {
                return Some(i);
            }
            i = i + 1;
        }
        None
    }

    /// The value for `key`, if any.
    pub fn get(&self, key: &str) -> (r: Option<&V>)
        requires
            self.wf(),
        ensures
            match r {
                Some(v) => self.view().contains_key(key@) && *v == self.view()[key@],
                None => !self.view().contains_key(key@),
            },
    {
        match self.find(key) {
            Some(i) => {
                proof {
                    lemma_entry_in_map(self.entries@, i as int);
                }
                Some(&self.entries[i].1)
            },
            None => None,
        }
    }

    /// Set the value for `key`.
    pub fn insert(&mut self, key: String, value: V)
        requires
            old(self).wf(),
        ensures
            final(self).wf(),
            final(self).view() == old(self).view().insert(key@, value),
    {
        let ghost k = key@;
        let ghost v = value;
        match self.find(key.as_str()) {
            Some(i) => {
                let ghost s0 = self.entries@;
                self.entries.set(i, (key, value));
                proof {
                    let s = self.entries@;
                    assert(s == s0.update(i as int, (s[i as int].0, v)));
                    assert forall|a: int, b: int| 0 <= a < b < s.len() implies (#[trigger] s[a]).0@
                        != (#[trigger] s[b]).0@ by {
                        assert(s0[a].0@ != s0[b].0@);
                    }
                    assert forall|kk: Seq<char>| #[trigger] self.view().contains_key(kk)
                        <==> old(self).view().insert(k, v).contains_key(kk) by {
                        if kk != k && self.view().contains_key(kk) {
                            let j = choose|j: int| #[trigger] key_at(s, j, kk);
                            assert(key_at(s0, j, kk));
                        }
                        if kk != k && old(self).view().contains_key(kk) {
                            let j = choose|j: int| #[trigger] key_at(s0, j, kk);
                            assert(key_at(s, j, kk));
                        }
                        if kk == k {
                            assert(key_at(s, i as int, kk));
                        }
                    }
                    assert forall|kk: Seq<char>| #[trigger] self.view().contains_key(kk) implies self.view()[kk]
                        == old(self).view().insert(k, v)[kk] by {
                        let j = choose|j: int| #[trigger] key_at(s, j, kk);
                        lemma_entry_in_map(s, j);
                        if j != i {
                            lemma_entry_in_map(s0, j);
                        }
                    }
                    assert(self.view() =~= old(self).view().insert(k, v));
                }
            },
            None => {
                let ghost s0 = self.entries@;
                self.entries.push((key, value));
                proof {
                    let s = self.entries@;
                    assert forall|a: int, b: int| 0 <= a < b < s.len() implies (#[trigger] s[a]).0@
                        != (#[trigger] s[b]).0@ by {
                        if b == s0.len() {
                            assert(s0[a] == s[a]);
                            assert(!old(self).view().contains_key(k));
                            assert(!key_at(s0, a, k));
                        } else {
                            assert(s0[a].0@ != s0[b].0@);
                        }
                    }
                    assert forall|kk: Seq<char>| #[trigger] self.view().contains_key(kk)
                        <==> old(self).view().insert(k, v).contains_key(kk) by {
                        if kk != k && self.view().contains_key(kk) {
                            let j = choose|j: int| #[trigger] key_at(s, j, kk);
                            assert(key_at(s0, j, kk));
                        }
                        if kk != k && old(self).view().contains_key(kk) {
                            let j = choose|j: int| #[trigger] key_at(s0, j, kk);
                            assert(key_at(s, j, kk));
                        }
                        if kk == k {
                            assert(key_at(s, s0.len() as int, kk));
                        }
                    }
                    assert forall|kk: Seq<char>| #[trigger] self.view().contains_key(kk) implies self.view()[kk]
                        == old(self).view().insert(k, v)[kk] by {
                        let j = choose|j: int| #[trigger] key_at(s, j, kk);
                        lemma_entry_in_map(s, j);
                        if j < s0.len() {
                            lemma_entry_in_map(s0, j);
                        }
                    }
                    assert(self.view() =~= old(self).view().insert(k, v));
                }
            },
        }
    }

    /// Remove the value for `key`, handing it back.
    pub fn remove(&mut self, key: &str) -> (r: Option<V>)
        requires
            old(self).wf(),
        ensures
            final(self).wf(),
            final(self).view() == old(self).view().remove(key@),
            match r {
                Some(v) => old(self).view().contains_key(key@) && v == old(self).view()[key@],
                None => !old(self).view().contains_key(key@),
            },
    {
        let ghost k = key@;
        match self.find(key) {
            Some(i) => {
                let ghost s0 = self.entries@;
                proof {
                    lemma_entry_in_map(s0, i as int);
                }
                let e = self.entries.remove(i);
                proof {
                    let s = self.entries@;
                    assert(s == s0.remove(i as int));
                    assert forall|a: int, b: int| 0 <= a < b < s.len() implies (#[trigger] s[a]).0@
                        != (#[trigger] s[b]).0@ by {
                        let a0 = if a < i { a } else { a + 1 };
                        let b0 = if b < i { b } else { b + 1 };
                        assert(s[a] == s0[a0]);
                        assert(s[b] == s0[b0]);
                        assert(s0[a0].0@ != s0[b0].0@);
                    }
                    assert forall|kk: Seq<char>| #[trigger] self.view().contains_key(kk)
                        <==> old(self).view().remove(k).contains_key(kk) by {
                        if self.view().contains_key(kk) {
                            let j = choose|j: int| #[trigger] key_at(s, j, kk);
                            let j0 = if j < i { j } else { j + 1 };
                            assert(key_at(s0, j0, kk));
                            assert(s0[j0].0@ != s0[i as int].0@);
                        }
                        if kk != k && old(self).view().contains_key(kk) {
                            let j = choose|j: int| #[trigger] key_at(s0, j, kk);
                            assert(j != i);
                            let j1 = if j < i { j } else { j - 1 };
                            assert(key_at(s, j1, kk));
                        }
                    }
                    assert forall|kk: Seq<char>| #[trigger] self.view().contains_key(kk) implies self.view()[kk]
                        == old(self).view().remove(k)[kk] by {
                        let j = choose|j: int| #[trigger] key_at(s, j, kk);
                        let j0 = if j < i { j } else { j + 1 };
                        lemma_entry_in_map(s, j);
                        lemma_entry_in_map(s0, j0);
                    }
                    assert(self.view() =~= old(self).view().remove(k));
                }
                Some(e.1)
            },
            None => {
                assert(self.view() =~= old(self).view().remove(k));
                None
            },
        }
    }

    /// Number of entries.
    pub fn len(&self) -> (r: usize)
        requires
            self.wf(),
        ensures
            r == self.view().len(),
    {
        proof {
            self.lemma_len();
        }
        self.entries.len()
    }

    /// The keys, in the order they were first inserted, each once.
    pub fn keys(&self) -> (r: Vec<String>)
        requires
            self.wf(),
        ensures
            r@.len() == self.view().len(),
            forall|i: int, j: int| 0 <= i < j < r@.len() ==> (#[trigger] r@[i])@ != (#[trigger] r@[j])@,
            forall|i: int| 0 <= i < r@.len() ==> self.view().contains_key(#[trigger] r@[i]@),
            forall|k: Seq<char>| #[trigger] self.view().contains_key(k) ==> exists|i: int| 0 <= i < r@.len() && r@[i]@ == k,
    {
        proof {
            self.lemma_len();
        }
        let mut out: Vec<String> = Vec::new();
        let mut i: usize = 0;
        while i < self.entries.len()
            invariant
                i <= self.entries@.len(),
                self.wf(),
                out@.len() == i,
                forall|j: int| 0 <= j < i ==> (#[trigger] out@[j])@ == self.entries@[j].0@,
            decreases self.entries@.len() - i,
        {
            out.push(self.entries[i].0.clone());
            i = i + 1;
        }
        proof {
            assert forall|i: int, j: int| 0 <= i < j < out@.len() implies (#[trigger] out@[i])@ != (#[trigger] out@[j])@ by {
                assert(self.entries@[i].0@ != self.entries@[j].0@);
            }
            assert forall|j: int| 0 <= j < out@.len() implies self.view().contains_key(#[trigger] out@[j]@) by {
                lemma_entry_in_map(self.entries@, j);
            }
            assert forall|k: Seq<char>| #[trigger] self.view().contains_key(k) implies exists|j: int|
                0 <= j < out@.len() && out@[j]@ == k by {
                let j = choose|j: int| #[trigger] key_at(self.entries@, j, k);
                assert(out@[j]@ == k);
            }
        }
        out
    }

    /// Whether the map is empty.
    pub fn is_empty(&self) -> (r: bool)
        requires
            self.wf(),
        ensures
            r == (self.view().len() == 0),
    {
        proof {
            self.lemma_len();
        }
        self.entries.len() == 0
    }

    proof fn lemma_len(&self)
        requires
            self.wf(),
        ensures
            self.view().len() == self.entries@.len(),
            self.view().dom().finite(),
    {
        let s = self.entries@;
        let f = |i: int| s[i].0@;
        let idx = Set::new(|i: int| 0 <= i < s.len());
        assert forall|k: Seq<char>| #[trigger] self.view().dom().contains(k) implies idx.map(f).contains(k) by {
            let j = choose|j: int| #[trigger] key_at(s, j, k);
            assert(idx.contains(j) && f(j) == k);
        }
        assert forall|k: Seq<char>| #[trigger] idx.map(f).contains(k) implies self.view().dom().contains(k) by {
            let j = choose|j: int| idx.contains(j) && f(j) == k;
            assert(key_at(s, j, k));
        }
        assert(self.view().dom() =~= idx.map(f));
        vstd::set_lib::lemma_int_range(0, s.len() as int);
        assert(idx =~= vstd::set_lib::set_int_range(0, s.len() as int));
        assert forall|a: int, b: int| idx.contains(a) && idx.contains(b) && f(a) == f(b) implies a == b by {
            if a < b {
                assert(s[a].0@ != s[b].0@);
            } else if b < a {
                assert(s[b].0@ != s[a].0@);
            }
        }
        vstd::set_lib::lemma_map_size(idx, idx.map(f), f);
    }
}

} // verus!
