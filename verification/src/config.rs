//! Configuration: task emoji metadata fields and caching.

use vstd::prelude::*;

verus! {

/// How the value after a task emoji is read.
#[derive(Debug, Clone, PartialEq, Eq)]
pub enum EmojiValueType {
    /// A date `YYYY-MM-DD`.
    Date,
    /// A single word.
    String,
    /// Free text up to the next known emoji.
    Text,
    /// A number.
    Number,
    /// No value; the emoji's presence sets the field to `value`.
    Flag { value: std::string::String },
    /// A word from a set of values.
    Enum { value: std::string::String },
}

/// An emoji that carries a metadata field on a task line.
#[derive(Debug, Clone)]
pub struct EmojiFieldDef {
    /// The emoji.
    pub emoji: std::string::String,
    /// Name of the metadata field.
    pub field_name: std::string::String,
    /// How its value is read.
    pub value_type: EmojiValueType,
    /// Position in formatted output (lower first).
    pub order: u32,
}

/// Task metadata configuration.
#[derive(Debug, Clone)]
pub struct TaskConfig {
    /// The emoji fields.
    pub fields: Vec<EmojiFieldDef>,
}

/// Cache settings.
#[derive(Debug, Clone)]
pub struct CacheConfig {
    /// Whether caching may be used.
    pub enabled: bool,
    /// Vault size (in notes) from which the cache is used automatically.
    pub auto_threshold: usize,
    /// `"local"` for a cache inside the vault, otherwise the user cache dir.
    pub location: std::string::String,
}

/// Field `a` comes before field `b` in formatted order: by `order`, ties
/// kept in configuration order.
pub open spec fn field_before(fs: Seq<EmojiFieldDef>, a: int, b: int) -> bool {
    fs[a].order < fs[b].order || (fs[a].order == fs[b].order && a < b)
}

/// `p` lists distinct indices below `n`, `n` of them.
pub open spec fn is_permutation(p: Seq<int>, n: int) -> bool {
    p.len() == n && (forall|k: int| 0 <= k < n ==> 0 <= #[trigger] p[k] < n) && (forall|
        k: int,
        l: int,
    | 0 <= k < l < n ==> #[trigger] p[k] != #[trigger] p[l])
}

/// `p` is the stable order of `fs` by `order`.
pub open spec fn is_stable_order(fs: Seq<EmojiFieldDef>, p: Seq<int>) -> bool {
    &&& is_permutation(p, fs.len() as int)
    &&& forall|k: int, l: int|
        0 <= k < l < p.len() ==> field_before(fs, #[trigger] p[k], #[trigger] p[l])
}

/// Where field `i` goes into the stably ordered indices `s`: after every
/// field (from `pos` on) whose order is at most its own.
pub open spec fn insert_pos(fs: Seq<EmojiFieldDef>, s: Seq<int>, i: int, pos: int) -> int
    decreases s.len() - pos,
{
    if 0 <= pos < s.len() && fs[s[pos]].order <= fs[i].order {
        insert_pos(fs, s, i, pos + 1)
    } else {
        pos
    }
}

/// The indices of the first `n` fields in stable order of `order`, built by
/// inserting one field after the other.
pub open spec fn stable_sorted_indices(fs: Seq<EmojiFieldDef>, n: int) -> Seq<int>
    decreases n,
{
    if n <= 0 {
        Seq::empty()
    } else {
        let s = stable_sorted_indices(fs, n - 1);
        s.insert(insert_pos(fs, s, n - 1, 0), n - 1)
    }
}

/// The indices of all fields in formatted order.
pub open spec fn field_order(fs: Seq<EmojiFieldDef>) -> Seq<int> {
    stable_sorted_indices(fs, fs.len() as int)
}

impl TaskConfig {
    /// A configuration without fields.
    pub fn empty() -> (r: TaskConfig)
        ensures
            r.fields@.len() == 0,
    {
        TaskConfig { fields: Vec::new() }
    }

    /// Indices of the fields in stable order of `order`.
    fn sorted_indices(&self) -> (r: Vec<usize>)
        ensures
            is_stable_order(self.fields@, r@.map_values(|i: usize| i as int)),
            r@.map_values(|i: usize| i as int) == field_order(self.fields@),
    {
        let n = self.fields.len();
        let ghost fs = self.fields@;
        let mut idx: Vec<usize> = Vec::new();
        let mut i: usize = 0;
        while i < n
            invariant
                n == fs.len(),
                fs == self.fields@,
                i <= n,
                idx@.len() == i,
                idx@.map_values(|j: usize| j as int) == stable_sorted_indices(fs, i as int),
                forall|k: int| 0 <= k < i ==> #[trigger] idx@[k] < i,
                forall|k: int, l: int|
                    0 <= k < l < i ==> field_before(fs, #[trigger] idx@[k] as int, #[trigger] idx@[l] as int),
            decreases n - i,
        {
            let mut pos: usize = 0;
            while pos < idx.len() && (self.fields[idx[pos]].order <= self.fields[i].order)
                invariant
                    n == fs.len(),
                    fs == self.fields@,
                    i < n,
                    idx@.len() == i,
                    pos <= i,
                    forall|k: int| 0 <= k < i ==> #[trigger] idx@[k] < i,
                    forall|k: int| 0 <= k < pos ==> field_before(fs, #[trigger] idx@[k] as int, i as int),
                    insert_pos(fs, idx@.map_values(|j: usize| j as int), i as int, pos as int)
                        == insert_pos(fs, idx@.map_values(|j: usize| j as int), i as int, 0),
                decreases i - pos,
            {
                pos = pos + 1;
            }
            proof {
                assert forall|k: int| pos <= k < i implies field_before(fs, i as int, #[trigger] idx@[k] as int) by {
                    assert(field_before(fs, idx@[pos as int] as int, idx@[k] as int) || k == pos);
                    assert(!(fs[idx@[pos as int] as int].order <= fs[i as int].order));
                }
            }
            let ghost old_idx = idx@;
            proof {
                let sv = old_idx.map_values(|j: usize| j as int);
                if pos < old_idx.len() {
                    assert(sv[pos as int] == old_idx[pos as int] as int);
                }
                assert(insert_pos(fs, sv, i as int, pos as int) == pos);
            }
            idx.insert(pos, i);
            proof {
                assert(idx@ == old_idx.insert(pos as int, i));
                assert(idx@.map_values(|j: usize| j as int) =~= old_idx.map_values(|j: usize| j as int).insert(
                    pos as int,
                    i as int,
                ));
                assert forall|k: int, l: int| 0 <= k < l < i + 1 implies field_before(
                    fs,
                    #[trigger] idx@[k] as int,
                    #[trigger] idx@[l] as int,
                ) by {
                    if l < pos {
                        assert(idx@[k] == old_idx[k] && idx@[l] == old_idx[l]);
                    } else if l == pos {
                        assert(idx@[k] == old_idx[k]);
                    } else if k < pos {
                        assert(idx@[k] == old_idx[k] && idx@[l] == old_idx[l - 1]);
                        assert(field_before(fs, old_idx[k] as int, i as int));
                        assert(field_before(fs, i as int, old_idx[l - 1] as int));
                    } else if k == pos {
                        assert(idx@[l] == old_idx[l - 1]);
                    } else {
                        assert(idx@[k] == old_idx[k - 1] && idx@[l] == old_idx[l - 1]);
                    }
                }
            }
            i = i + 1;
        }
        proof {
            let p = idx@.map_values(|i: usize| i as int);
            assert forall|k: int, l: int| 0 <= k < l < n implies #[trigger] p[k] != #[trigger] p[l] by {
                assert(field_before(fs, idx@[k] as int, idx@[l] as int));
            }
        }
        idx
    }

    /// The fields in formatted order: by `order`, ties kept in configuration
    /// order.
    pub fn sorted_fields(&self) -> (r: Vec<&EmojiFieldDef>)
        ensures
            is_stable_order(self.fields@, field_order(self.fields@)),
            r@.len() == field_order(self.fields@).len(),
            forall|k: int|
                0 <= k < r@.len() ==> *(#[trigger] r@[k]) == self.fields@[field_order(self.fields@)[k]],
    {
        let idx = self.sorted_indices();
        let ghost p = idx@.map_values(|i: usize| i as int);
        let mut r: Vec<&EmojiFieldDef> = Vec::new();
        let mut k: usize = 0;
        while k < idx.len()
            invariant
                is_stable_order(self.fields@, p),
                p == idx@.map_values(|i: usize| i as int),
                k <= idx@.len(),
                r@.len() == k,
                forall|m: int| 0 <= m < k ==> *(#[trigger] r@[m]) == self.fields@[p[m]],
            decreases idx@.len() - k,
        {
            assert(p[k as int] == idx@[k as int] as int);
            r.push(&self.fields[idx[k]]);
            k = k + 1;
        }
        r
    }

    /// The emojis of all fields, in configuration order.
    pub fn all_emojis(&self) -> (r: Vec<&str>)
        ensures
            r@.len() == self.fields@.len(),
            forall|k: int| 0 <= k < r@.len() ==> (#[trigger] r@[k])@ == self.fields@[k].emoji@,
    {
        let mut r: Vec<&str> = Vec::new();
        let mut k: usize = 0;
        while k < self.fields.len()
            invariant
                k <= self.fields@.len(),
                r@.len() == k,
                forall|m: int| 0 <= m < k ==> (#[trigger] r@[m])@ == self.fields@[m].emoji@,
            decreases self.fields@.len() - k,
        {
            r.push(self.fields[k].emoji.as_str());
            k = k + 1;
        }
        r
    }
}

} // verus!
