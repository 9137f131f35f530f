//! Note representation and operations.

use vstd::prelude::*;
use crate::error::VaultError;
use crate::parser::frontmatter::{
    body_start, body_start_index, body_start_line_of, frontmatter_layout, spec_body,
    spec_body_start_line, spec_yaml, lemma_layout_bounds, fm_layout, close_crlf, close_eof, close_lf,
    closing_pos, dashes, yaml_start,
};
use crate::parser::inline_property::{
    format_inline_property,
    inline_properties_of, prop_occ, prop_occurrences_outside_code, props_view,
    spec_inline_properties, triples_view, PropV,
};
use crate::text::{
    file_stem_of, parent_of, path_file_stem, path_parent,
    append_chars, chars_of, concat, crlf_to_lf, crlf_to_lf_vec, debug_repr, debug_string, decimal,
    decimal_string, lit, push_str_chars, same_chars, string_of, string_of_range, sub_vec,
    find_from, lemma_find_from_found, lemma_find_from_none, occurs_at,
};
use crate::types::InlineProperty;

verus! {

/// A note in the vault.
#[derive(Debug, Clone)]
pub struct Note {
    /// Path relative to the vault root (e.g. `proj/My Project.md`).
    pub path: String,
    /// Raw content of the note.
    pub content: String,
}

// ---------------------------------------------------------------------------
// Specifications of the edits
// ---------------------------------------------------------------------------

pub open spec fn msg_index_out_of_range(idx: nat, n: nat) -> Seq<char> {
    "Inline property index "@ + decimal(idx) + " out of range (note has "@ + decimal(n)
        + " inline properties)"@
}

pub open spec fn msg_no_key(key: Seq<char>) -> Seq<char> {
    "No inline property found with key "@ + debug_repr(key)
}

pub open spec fn msg_multiple(key: Seq<char>) -> Seq<char> {
    "Multiple inline properties with key "@ + debug_repr(key) + " — specify an index"@
}

pub open spec fn msg_need_key_or_index() -> Seq<char> {
    "Must specify either key or index to remove an inline property"@
}

/// Indices of the properties with key `key`, in order.
pub open spec fn key_indices(ps: Seq<PropV>, key: Seq<char>) -> Seq<int>
    decreases ps.len(),
{
    if ps.len() == 0 {
        Seq::empty()
    } else {
        key_indices(ps.drop_last(), key) + if ps.last().0 == key {
            seq![ps.len() - 1]
        } else {
            Seq::<int>::empty()
        }
    }
}

/// Which property an edit targets: the `index`-th one when an index is
/// given; else the only one with key `key`. An error message otherwise.
pub open spec fn select_prop(ps: Seq<PropV>, key: Option<Seq<char>>, index: Option<usize>) -> Result<
    int,
    Seq<char>,
> {
    match index {
        Some(i) => if i < ps.len() {
            Ok(i as int)
        } else {
            Err(msg_index_out_of_range(i as nat, ps.len()))
        },
        None => match key {
            None => Err(msg_need_key_or_index()),
            Some(k) => {
                let m = key_indices(ps, k);
                if m.len() == 0 {
                    Err(msg_no_key(k))
                } else if m.len() > 1 {
                    Err(msg_multiple(k))
                } else {
                    Ok(m[0])
                }
            },
        },
    }
}

/// The characters `s[a..=b]` hold no line feed.
pub open spec fn no_newline(s: Seq<char>, a: int, b: int) -> bool {
    forall|k: int| a <= k <= b ==> s[k] != '\n'
}

/// The selected property, if any, lies on a single line.
pub open spec fn selected_on_one_line(
    s: Seq<char>,
    key: Option<Seq<char>>,
    index: Option<usize>,
) -> bool {
    match select_prop(spec_inline_properties(s), key, index) {
        Ok(t) => no_newline(s, prop_occ(s)[t].0, prop_occ(s)[t].2),
        Err(_) => true,
    }
}

/// The text of `[key::value]`.
pub open spec fn prop_text(key: Seq<char>, value: Seq<char>) -> Seq<char> {
    seq!['['] + key + seq![':', ':'] + value + seq![']']
}

/// Replaces the `t`-th property occurrence with `ins`; the rest of the note
/// goes through `lines()` and `join("\n")`, which turns `\r\n` into `\n`.
pub open spec fn splice_prop(s: Seq<char>, t: int, ins: Seq<char>) -> Seq<char> {
    let o = prop_occ(s)[t];
    crlf_to_lf(s.subrange(0, o.0)) + ins + crlf_to_lf(s.subrange(o.2 + 1, s.len() as int))
}

/// Indices of the property occurrences with key `key`.
pub open spec fn renamed_indices(s: Seq<char>, key: Seq<char>) -> Seq<int> {
    key_indices(spec_inline_properties(s), key)
}

/// Every property with key `key` lies on a single line.
pub open spec fn key_props_on_one_line(s: Seq<char>, key: Seq<char>) -> bool {
    forall|k: int|
        0 <= k < renamed_indices(s, key).len() ==> no_newline(
            s,
            prop_occ(s)[#[trigger] renamed_indices(s, key)[k]].0,
            prop_occ(s)[renamed_indices(s, key)[k]].2,
        )
}

/// The note text from offset `pos` with the occurrences `idx` (in order)
/// renamed to `new_key`.
pub open spec fn rename_from(s: Seq<char>, pos: int, idx: Seq<int>, new_key: Seq<char>) -> Seq<
    char,
>
    decreases idx.len(),
{
    if idx.len() == 0 {
        crlf_to_lf(s.subrange(pos, s.len() as int))
    } else {
        let o = prop_occ(s)[idx[0]];
        let p = spec_inline_properties(s)[idx[0]];
        crlf_to_lf(s.subrange(pos, o.0)) + prop_text(new_key, p.1) + rename_from(
            s,
            o.2 + 1,
            idx.drop_first(),
            new_key,
        )
    }
}

// ---------------------------------------------------------------------------
// Lemmas on occurrences
// ---------------------------------------------------------------------------

/// The key indices increase and lie inside the sequence.
pub proof fn lemma_key_indices(ps: Seq<PropV>, key: Seq<char>)
    ensures
        forall|a: int|
            0 <= a < key_indices(ps, key).len() ==> 0 <= #[trigger] key_indices(ps, key)[a]
                < ps.len() && ps[key_indices(ps, key)[a]].0 == key,
        forall|a: int, b: int|
            0 <= a < b < key_indices(ps, key).len() ==> (#[trigger] key_indices(ps, key)[a]) < (
            #[trigger] key_indices(ps, key)[b]),
    decreases ps.len(),
{
    if ps.len() > 0 {
        let d = ps.drop_last();
        lemma_key_indices(d, key);
        let k0 = key_indices(d, key);
        assert forall|a: int| 0 <= a < key_indices(ps, key).len() implies 0
            <= #[trigger] key_indices(ps, key)[a] < ps.len() && ps[key_indices(ps, key)[a]].0
            == key by {
            if a < k0.len() {
                assert(key_indices(ps, key)[a] == k0[a]);
                assert(ps[k0[a]] == d[k0[a]]);
            }
        }
        assert forall|a: int, b: int|
            0 <= a < b < key_indices(ps, key).len() implies (#[trigger] key_indices(ps, key)[a]) < (
        #[trigger] key_indices(ps, key)[b]) by {
            if b < k0.len() {
                assert(key_indices(ps, key)[a] == k0[a]);
                assert(key_indices(ps, key)[b] == k0[b]);
            } else {
                assert(key_indices(ps, key)[a] == k0[a]);
            }
        }
    }
}

proof fn lemma_key_indices_step(ps: Seq<PropV>, key: Seq<char>, k: int)
    requires
        0 <= k < ps.len(),
    ensures
        key_indices(ps.subrange(0, k + 1), key) == key_indices(ps.subrange(0, k), key) + if ps[k].0
            == key {
            seq![k]
        } else {
            Seq::<int>::empty()
        },
{
    assert(ps.subrange(0, k + 1).drop_last() == ps.subrange(0, k));
}

/// The key of the `t`-th property occurrence equals `key`.
fn occ_key_is(s: &Vec<char>, o: (usize, usize, usize), key: &Vec<char>) -> (r: bool)
    requires
        o.0 + 1 < o.1 <= s@.len(),
    ensures
        r == (s@.subrange(o.0 + 1, o.1 as int) == key@),
{
    let k = sub_vec(s, o.0 + 1, o.1);
    same_chars(k.as_slice(), key.as_slice())
}

/// Indices of the properties of `s` with key `key`.
pub(crate) fn key_indices_exec(s: &Vec<char>, occ: &Vec<(usize, usize, usize)>, key: &Vec<char>) -> (r: Vec<
    usize,
>)
    requires
        triples_view(occ@) == prop_occ(s@),
        forall|k: int|
            0 <= k < occ@.len() ==> (#[trigger] occ@[k]).0 + 1 < occ@[k].1 && occ@[k].1 + 2
                <= occ@[k].2 < s@.len(),
    ensures
        r@.map_values(|x: usize| x as int) == key_indices(spec_inline_properties(s@), key@),
{
    let ghost ps = spec_inline_properties(s@);
    let mut r: Vec<usize> = Vec::new();
    let mut k: usize = 0;
    while k < occ.len()
        invariant
            k <= occ@.len(),
            ps == spec_inline_properties(s@),
            ps.len() == occ@.len(),
            triples_view(occ@) == prop_occ(s@),
            forall|m: int|
                0 <= m < occ@.len() ==> (#[trigger] occ@[m]).0 + 1 < occ@[m].1 && occ@[m].1 + 2
                    <= occ@[m].2 < s@.len(),
            r@.map_values(|x: usize| x as int) == key_indices(ps.subrange(0, k as int), key@),
        decreases occ@.len() - k,
    {
        proof {
            lemma_key_indices_step(ps, key@, k as int);
            assert(triples_view(occ@)[k as int] == (
                occ@[k as int].0 as int,
                occ@[k as int].1 as int,
                occ@[k as int].2 as int,
            ));
            assert(ps[k as int].0 == s@.subrange(occ@[k as int].0 + 1, occ@[k as int].1 as int));
        }
        let ghost before = r@.map_values(|x: usize| x as int);
        if occ_key_is(s, occ[k], key) {
            r.push(k);
            assert(r@.map_values(|x: usize| x as int) =~= before + seq![k as int]);
        } else {
            assert(before + Seq::<int>::empty() == before);
        }
        k = k + 1;
    }
    proof {
        assert(ps.subrange(0, k as int) == ps);
    }
    r
}

/// The message of `select_prop`'s errors, and the target otherwise.
fn select_exec(
    s: &Vec<char>,
    occ: &Vec<(usize, usize, usize)>,
    key: Option<&str>,
    index: Option<usize>,
) -> (r: Result<usize, String>)
    requires
        triples_view(occ@) == prop_occ(s@),
        forall|k: int|
            0 <= k < occ@.len() ==> (#[trigger] occ@[k]).0 + 1 < occ@[k].1 && occ@[k].1 + 2
                <= occ@[k].2 < s@.len(),
    ensures
        match select_prop(
            spec_inline_properties(s@),
            match key {
                Some(k) => Some(k@),
                None => None,
            },
            index,
        ) {
            Ok(t) => r matches Ok(u) && u as int == t,
            Err(m) => r matches Err(e) && e@ == m,
        },
        r matches Ok(t) ==> t < occ@.len(),
{
    let ghost ps = spec_inline_properties(s@);
    assert(ps.len() == occ@.len());
    match index {
        Some(i) => {
            if i < occ.len() {
                Ok(i)
            } else {
                let m = lit("Inline property index ");
                let m = concat(m, decimal_string(i).as_str());
                let m = concat(m, " out of range (note has ");
                let m = concat(m, decimal_string(occ.len()).as_str());
                let m = concat(m, " inline properties)");
                Err(m)
            }
        },
        None => match key {
            None => Err(lit("Must specify either key or index to remove an inline property")),
            Some(k) => {
                let kc = chars_of(k);
                let idx = key_indices_exec(s, occ, &kc);
                proof {
                    lemma_key_indices(ps, k@);
                    assert(idx@.len() == key_indices(ps, k@).len());
                }
                if idx.len() == 0 {
                    Err(concat(lit("No inline property found with key "), debug_string(k).as_str()))
                } else if idx.len() > 1 {
                    let m = concat(lit("Multiple inline properties with key "), debug_string(k).as_str());
                    Err(concat(m, " — specify an index"))
                } else {
                    assert(key_indices(ps, k@)[0] == idx@[0] as int);
                    Ok(idx[0])
                }
            },
        },
    }
}

impl Note {
    /// Replace the `t`-th property occurrence with `ins`.
    fn splice_occurrence(&self, s: &Vec<char>, o: (usize, usize, usize), ins: &Vec<char>) -> (r: Note)
        requires
            s@ == self.content@,
            o.0 <= o.2 < s@.len(),
        ensures
            r.path@ == self.path@,
            r.content@ == crlf_to_lf(s@.subrange(0, o.0 as int)) + ins@ + crlf_to_lf(
                s@.subrange(o.2 + 1, s@.len() as int),
            ),
    {
        let n = s.len();
        let before = sub_vec(s, 0, o.0);
        let mut out = crlf_to_lf_vec(&before);
        append_chars(&mut out, ins.as_slice());
        let after = sub_vec(s, o.2 + 1, s.len());
        let after_n = crlf_to_lf_vec(&after);
        append_chars(&mut out, after_n.as_slice());
        Note { path: self.path.clone(), content: string_of(out.as_slice()) }
    }

    /// Set an inline property's value.
    ///
    /// The target is the `index`-th inline property of the note when an index
    /// is given; otherwise the only property with key `key` (an error when
    /// there is none or more than one).
    pub fn set_inline_property(&self, key: &str, new_value: &str, index: Option<usize>) -> (r:
        Result<Note, VaultError>)
        requires
            selected_on_one_line(self.content@, Some(key@), index),
        ensures
            match select_prop(spec_inline_properties(self.content@), Some(key@), index) {
                Ok(t) => r matches Ok(n) && n.path@ == self.path@ && n.content@ == splice_prop(
                    self.content@,
                    t,
                    prop_text(key@, new_value@),
                ),
                Err(m) => r matches Err(VaultError::Other(e)) && e@ == m,
            },
    {
        let s = chars_of(self.content.as_str());
        let occ = prop_occurrences_outside_code(&s);
        match select_exec(&s, &occ, Some(key), index) {
            Err(m) => Err(VaultError::Other(m)),
            Ok(t) => {
                let o = occ[t];
                proof {
                    assert(triples_view(occ@)[t as int] == (o.0 as int, o.1 as int, o.2 as int));
                }
                let f = crate::parser::inline_property::format_inline_property(key, new_value);
                let fc = chars_of(f.as_str());
                Ok(self.splice_occurrence(&s, o, &fc))
            },
        }
    }

    /// Remove an inline property.
    ///
    /// The target is the `index`-th inline property when an index is given,
    /// otherwise the only property with key `key`.
    pub fn remove_inline_property(&self, key: Option<&str>, index: Option<usize>) -> (r: Result<
        Note,
        VaultError,
    >)
        requires
            selected_on_one_line(
                self.content@,
                match key {
                    Some(k) => Some(k@),
                    None => None,
                },
                index,
            ),
        ensures
            match select_prop(
                spec_inline_properties(self.content@),
                match key {
                    Some(k) => Some(k@),
                    None => None,
                },
                index,
            ) {
                Ok(t) => r matches Ok(n) && n.path@ == self.path@ && n.content@ == splice_prop(
                    self.content@,
                    t,
                    Seq::empty(),
                ),
                Err(m) => r matches Err(VaultError::Other(e)) && e@ == m,
            },
    {
        let s = chars_of(self.content.as_str());
        let occ = prop_occurrences_outside_code(&s);
        match select_exec(&s, &occ, key, index) {
            Err(m) => Err(VaultError::Other(m)),
            Ok(t) => {
                let o = occ[t];
                proof {
                    assert(triples_view(occ@)[t as int] == (o.0 as int, o.1 as int, o.2 as int));
                }
                let empty: Vec<char> = Vec::new();
                let n = self.splice_occurrence(&s, o, &empty);
                assert(empty@ == Seq::<char>::empty());
                Ok(n)
            },
        }
    }

    /// Rename all inline properties with `old_key` to `new_key`.
    #[verifier::spinoff_prover]
    #[verifier::rlimit(30)]
    pub fn rename_inline_property(&self, old_key: &str, new_key: &str) -> (r: Result<
        Note,
        VaultError,
    >)
        requires
            key_props_on_one_line(self.content@, old_key@),
        ensures
            r matches Ok(n) && n.path@ == self.path@ && n.content@ == if renamed_indices(
                self.content@,
                old_key@,
            ).len() == 0 {
                self.content@
            } else {
                rename_from(self.content@, 0, renamed_indices(self.content@, old_key@), new_key@)
            },
    {
        let s = chars_of(self.content.as_str());
        let _ = crate::text::byte_len(self.content.as_str());
        let occ = prop_occurrences_outside_code(&s);
        let props = inline_properties_of(&s);
        let kc = chars_of(old_key);
        let idx = key_indices_exec(&s, &occ, &kc);
        let ghost all = renamed_indices(s@, old_key@);
        let ghost ps = spec_inline_properties(s@);
        if idx.len() == 0 {
            return Ok(Note { path: self.path.clone(), content: self.content.clone() });
        }
        proof {
            lemma_key_indices(ps, old_key@);
            crate::parser::inline_property::lemma_prop_occ_ordered(s@);
            assert(idx@.len() == all.len());
            assert(all.subrange(0, all.len() as int) == all);
        }
        let nk = chars_of(new_key);
        let mut out: Vec<char> = Vec::new();
        let mut pos: usize = 0;
        let mut j: usize = 0;
        while j < idx.len()
            invariant
                s@ == self.content@,
                nk@ == new_key@,
                j <= idx@.len(),
                idx@.len() == all.len(),
                all == renamed_indices(s@, old_key@),
                ps == spec_inline_properties(s@),
                props_view(props@) == ps,
                idx@.map_values(|x: usize| x as int) == all,
                triples_view(occ@) == prop_occ(s@),
                forall|k: int|
                    0 <= k < occ@.len() ==> (#[trigger] occ@[k]).0 + 1 < occ@[k].1 && occ@[k].1
                        + 2 <= occ@[k].2 < s@.len(),
                forall|a: int|
                    0 <= a < all.len() ==> 0 <= #[trigger] all[a] < ps.len() && ps[all[a]].0
                        == old_key@,
                forall|a: int, b: int| 0 <= a < b < all.len() ==> (#[trigger] all[a]) < (#[trigger] all[b]),
                forall|a: int, b: int|
                    0 <= a < b < prop_occ(s@).len() ==> (#[trigger] prop_occ(s@)[a]).2 < (
                    #[trigger] prop_occ(s@)[b]).0,
                pos <= s@.len(),
                j < all.len() ==> pos <= prop_occ(s@)[all[j as int]].0,
                out@ + rename_from(s@, pos as int, all.subrange(j as int, all.len() as int), nk@)
                    == rename_from(s@, 0, all, nk@),
            decreases idx@.len() - j,
        {
            let t = idx[j];
            let o = occ[t];
            proof {
                assert(all[j as int] == t as int);
                assert(triples_view(occ@)[t as int] == (o.0 as int, o.1 as int, o.2 as int));
                assert(props_view(props@)[t as int] == ps[t as int]);
                let rest = all.subrange(j as int, all.len() as int);
                assert(rest[0] == t as int);
                assert(rest.drop_first() == all.subrange(j + 1, all.len() as int));
                if j + 1 < all.len() {
                    assert(all[j as int] < all[j + 1]);
                    assert(prop_occ(s@)[all[j as int]].2 < prop_occ(s@)[all[j + 1]].0);
                }
            }
            let seg = sub_vec(&s, pos, o.0);
            let seg_n = crlf_to_lf_vec(&seg);
            let ghost before = out@;
            append_chars(&mut out, seg_n.as_slice());
            let vc = chars_of(props[t].value.as_str());
            let f = crate::parser::inline_property::format_inline_property(
                new_key,
                props[t].value.as_str(),
            );
            let fc = chars_of(f.as_str());
            append_chars(&mut out, fc.as_slice());
            proof {
                let rest = all.subrange(j as int, all.len() as int);
                assert(vc@ == ps[t as int].1);
                assert(fc@ == prop_text(nk@, ps[t as int].1));
                assert(out@ == before + crlf_to_lf(s@.subrange(pos as int, o.0 as int)) + prop_text(nk@, ps[t as int].1));
                assert(rest.drop_first() == all.subrange(j + 1, all.len() as int));
                assert(rename_from(s@, pos as int, rest, nk@) == crlf_to_lf(
                    s@.subrange(pos as int, o.0 as int),
                ) + prop_text(nk@, ps[t as int].1) + rename_from(
                    s@,
                    o.2 + 1,
                    rest.drop_first(),
                    nk@,
                ));
                assert(out@ + rename_from(s@, o.2 + 1, all.subrange(j + 1, all.len() as int), nk@)
                    =~= before + rename_from(s@, pos as int, rest, nk@));
            }
            assert(o.2 < s@.len());
            assert(o.2 < s.len());
            pos = o.2 + 1;
            j = j + 1;
        }
        let tail = sub_vec(&s, pos, s.len());
        let tail_n = crlf_to_lf_vec(&tail);
        let ghost before = out@;
        append_chars(&mut out, tail_n.as_slice());
        proof {
            assert(all.subrange(j as int, all.len() as int) =~= Seq::<int>::empty());
        }
        Ok(Note { path: self.path.clone(), content: string_of(out.as_slice()) })
    }
}

impl Note {
    /// Create a new note from path and content.
    pub fn new(path: &str, content: &str) -> (r: Note)
        ensures
            r.path@ == path@,
            r.content@ == content@,
    {
        Note { path: lit(path), content: lit(content) }
    }

    /// The note name: the file name without its extension.
    pub fn name(&self) -> (r: String)
        ensures
            r@ == match path_file_stem(self.path@) {
                Some(x) => x,
                None => Seq::<char>::empty(),
            },
    {
        match file_stem_of(self.path.as_str()) {
            Some(x) => x,
            None => String::new(),
        }
    }

    /// The parent folder path.
    pub fn folder(&self) -> (r: Option<String>)
        ensures
            r matches Some(x) ==> path_parent(self.path@) == Some(x@),
            r is None ==> path_parent(self.path@) is None,
    {
        parent_of(self.path.as_str())
    }

    /// Whether the note has frontmatter.
    pub fn has_frontmatter(&self) -> (r: bool)
        ensures
            r == (spec_yaml(self.content@) is Some),
    {
        let s = chars_of(self.content.as_str());
        frontmatter_layout(&s).is_some()
    }

    /// The raw frontmatter YAML text.
    pub fn frontmatter_raw(&self) -> (r: Option<String>)
        ensures
            r matches Some(y) ==> spec_yaml(self.content@) == Some(y@),
            r is None ==> spec_yaml(self.content@) is None,
    {
        crate::parser::frontmatter::extract_frontmatter(self.content.as_str())
    }

    /// The content without frontmatter.
    pub fn body(&self) -> (r: String)
        ensures
            r@ == spec_body(self.content@),
    {
        crate::parser::frontmatter::remove_all_frontmatter(self.content.as_str())
    }

    /// The content including frontmatter.
    pub fn full_content(&self) -> (r: String)
        ensures
            r@ == self.content@,
    {
        self.content.clone()
    }

    /// The line number where the body starts.
    pub fn body_start_line(&self) -> (r: usize)
        ensures
            r == spec_body_start_line(self.content@),
    {
        let s = chars_of(self.content.as_str());
        body_start_line_of(&s)
    }

    /// All links and embeds of the note.
    pub fn links(&self) -> (r: Vec<crate::types::Link>)
        ensures
            crate::parser::wikilink::links_of(r@, self.content@, None),
    {
        crate::parser::wikilink::parse_all_links(self.content.as_str())
    }

    /// All tags of the note.
    pub fn tags(&self) -> (r: Vec<crate::types::Tag>)
        ensures
            crate::parser::tag::tags_of(r@, self.content@),
    {
        crate::parser::tag::parse_tags(self.content.as_str())
    }

    /// All block IDs of the note.
    pub fn block_ids(&self) -> (r: Vec<crate::types::BlockId>)
        ensures
            crate::parser::block_id::blocks_view(r@) == crate::parser::block_id::spec_block_ids(self.content@),
    {
        crate::parser::block_id::parse_block_ids(self.content.as_str())
    }

    /// All headings of the note.
    pub fn headings(&self) -> (r: Vec<crate::types::Heading>)
        ensures
            crate::parser::heading::headings_view(r@) == crate::parser::heading::spec_headings(self.content@),
    {
        crate::parser::heading::parse_headings(self.content.as_str())
    }

    /// All inline properties of the note.
    pub fn inline_properties(&self) -> (r: Vec<InlineProperty>)
        ensures
            props_view(r@) == spec_inline_properties(self.content@),
    {
        let s = chars_of(self.content.as_str());
        let _ = crate::text::byte_len(self.content.as_str());
        inline_properties_of(&s)
    }

    /// Replace the body (the content below the frontmatter).
    pub fn with_body(&self, new_body: &str) -> (r: Note)
        ensures
            r.path@ == self.path@,
            r.content@ == match spec_yaml(self.content@) {
                Some(y) => "---\n"@ + y + "\n---\n"@ + new_body@,
                None => new_body@,
            },
    {
        let s = chars_of(self.content.as_str());
        let content = match frontmatter_layout(&s) {
            Some((a, e)) => {
                proof {
                    lemma_layout_bounds(s@);
                }
                let mut c = lit("---\n");
                let y = sub_vec(&s, a, e);
                push_str_chars(&mut c, y.as_slice());
                let tail = chars_of("\n---\n");
                push_str_chars(&mut c, tail.as_slice());
                let b = chars_of(new_body);
                push_str_chars(&mut c, b.as_slice());
                c
            },
            None => lit(new_body),
        };
        Note { path: self.path.clone(), content }
    }

    /// Append text to the note.
    pub fn append(&self, text: &str) -> (r: Note)
        ensures
            r.path@ == self.path@,
            r.content@ == self.content@ + text@,
    {
        let mut c = self.content.clone();
        let t = chars_of(text);
        push_str_chars(&mut c, t.as_slice());
        Note { path: self.path.clone(), content: c }
    }

    /// Insert text right after the frontmatter.
    pub fn prepend(&self, text: &str) -> (r: Note)
        ensures
            r.path@ == self.path@,
            r.content@ == match spec_yaml(self.content@) {
                Some(y) => "---\n"@ + y + "\n---\n"@ + text@ + spec_body(self.content@),
                None => text@ + self.content@,
            },
    {
        let s = chars_of(self.content.as_str());
        let t = chars_of(text);
        let content = match frontmatter_layout(&s) {
            Some((a, e)) => {
                proof {
                    lemma_layout_bounds(s@);
                }
                let mut c = lit("---\n");
                let y = sub_vec(&s, a, e);
                push_str_chars(&mut c, y.as_slice());
                let tail = chars_of("\n---\n");
                push_str_chars(&mut c, tail.as_slice());
                push_str_chars(&mut c, t.as_slice());
                let b = body_start_index(&s);
                let body = sub_vec(&s, b, s.len());
                push_str_chars(&mut c, body.as_slice());
                c
            },
            None => {
                let mut c = lit(text);
                push_str_chars(&mut c, s.as_slice());
                c
            },
        };
        Note { path: self.path.clone(), content }
    }

    /// Replace the whole content.
    pub fn with_content(&self, new_content: &str) -> (r: Note)
        ensures
            r.path@ == self.path@,
            r.content@ == new_content@,
    {
        Note { path: self.path.clone(), content: lit(new_content) }
    }
}


// ---------------------------------------------------------------------------
// Task checkboxes
// ---------------------------------------------------------------------------

/// Where the checkbox symbol of a task line stands: after leading
/// whitespace, a list marker (`-`, `*`, `+`, or digits and `.`), a space and
/// `[`, with `]` right after the symbol.
pub open spec fn task_symbol_at(l: Seq<char>) -> Option<int> {
    match crate::parser::task::marker_end(l, crate::text::skip_ws(l, 0)) {
        Some(m) => if m + 3 < l.len() && l[m] == ' ' && l[m + 1] == '[' && l[m + 3] == ']' {
            Some(m + 2)
        } else {
            None
        },
        None => None,
    }
}

/// The content after setting the checkbox symbol of the task on line `line`
/// (1-indexed): the lines joined with `\n`, with a final line feed kept; or
/// the message of the error.
pub open spec fn spec_set_task_symbol(c: Seq<char>, line: nat, sym: char) -> Result<Seq<char>, Seq<char>> {
    let ls = crate::text::lines(c);
    if line == 0 {
        Err("Line number must be 1-indexed (got 0)"@)
    } else if line > ls.len() {
        Err("Line "@ + decimal(line) + " is out of range (note has "@ + decimal(ls.len()) + " lines)"@)
    } else {
        match task_symbol_at(ls[line - 1]) {
            None => Err("Line "@ + decimal(line) + " is not a task: "@ + debug_repr(ls[line - 1])),
            Some(k) => Ok(crate::text::join_lines(ls.update(line - 1, ls[line - 1].update(k, sym)))
                + if c.len() > 0 && c.last() == '\n' {
                seq!['\n']
            } else {
                Seq::<char>::empty()
            }),
        }
    }
}

fn task_symbol_index(l: &Vec<char>) -> (r: Option<usize>)
    ensures
        match r {
            Some(k) => task_symbol_at(l@) == Some(k as int) && k < l@.len(),
            None => task_symbol_at(l@) is None,
        },
{
    let w = crate::text::skip_whitespace(l.as_slice(), 0);
    match crate::parser::task::marker_end_exec(l, w) {
        Some(m) => {
            if m < l.len() && l.len() - m > 3 && l[m] == ' ' && l[m + 1] == '[' && l[m + 3] == ']' {
                Some(m + 2)
            } else {
                None
            }
        },
        None => None,
    }
}

impl Note {
    /// Set the checkbox symbol of the task on line `line` (1-indexed).
    pub fn set_task_symbol(&self, line: usize, new_symbol: char) -> (r: Result<Note, VaultError>)
        ensures
            match spec_set_task_symbol(self.content@, line as nat, new_symbol) {
                Ok(c) => r matches Ok(n) && n.path@ == self.path@ && n.content@ == c,
                Err(m) => r matches Err(VaultError::Other(e)) && e@ == m,
            },
    {
        if line == 0 {
            return Err(VaultError::Other(lit("Line number must be 1-indexed (got 0)")));
        }
        let s = chars_of(self.content.as_str());
        let mut ls = crate::text::split_lines(&s);
        if line > ls.len() {
            let m = concat(lit("Line "), decimal_string(line).as_str());
            let m = concat(m, " is out of range (note has ");
            let m = concat(m, decimal_string(ls.len()).as_str());
            let m = concat(m, " lines)");
            return Err(VaultError::Other(m));
        }
        let ghost old_ls = ls.deep_view();
        proof {
            assert(old_ls[line - 1] =~= ls@[line - 1]@);
        }
        match task_symbol_index(&ls[line - 1]) {
            None => {
                let t = string_of(ls[line - 1].as_slice());
                let m = concat(lit("Line "), decimal_string(line).as_str());
                let m = concat(m, " is not a task: ");
                let m = concat(m, debug_string(t.as_str()).as_str());
                Err(VaultError::Other(m))
            },
            Some(k) => {
                let n = ls[line - 1].len();
                let mut nl = sub_vec(&ls[line - 1], 0, n);
                proof {
                    assert(nl@ =~= old_ls[line - 1]);
                }
                nl.set(k, new_symbol);
                let ghost nv = nl@;
                let ghost old_vec = ls@;
                ls.set(line - 1, nl);
                proof {
                    assert forall|i: int| 0 <= i < ls@.len() implies #[trigger] ls.deep_view()[i]
                        == old_ls.update(line - 1, nv)[i] by {
                        if i == line - 1 {
                            assert(ls@[i].deep_view() =~= nv);
                        } else {
                            assert(ls@[i] == old_vec[i]);
                            assert(old_ls[i] == old_vec[i].deep_view());
                        }
                    }
                    assert(ls.deep_view() =~= old_ls.update(line - 1, nv));
                    assert(nv =~= old_ls[line - 1].update(k as int, new_symbol));
                }
                let mut out = crate::text::join_with_newlines(&ls);
                let ghost joined = out@;
                if s.len() > 0 && s[s.len() - 1] == '\n' {
                    out.push('\n');
                    proof {
                        assert(out@ =~= joined + seq!['\n']);
                    }
                } else {
                    proof {
                        assert(out@ =~= joined + Seq::<char>::empty());
                    }
                }
                Ok(Note { path: self.path.clone(), content: string_of(out.as_slice()) })
            },
        }
    }
}

// ---------------------------------------------------------------------------
// Replacing the body keeps the frontmatter
// ---------------------------------------------------------------------------

proof fn lemma_find_first_from(s: Seq<char>, p: Seq<char>, i: int, k: int)
    requires
        0 <= i <= k,
        occurs_at(s, p, k),
        forall|j: int| 0 <= j < k ==> !occurs_at(s, p, j),
    ensures
        find_from(s, p, i) == Some(k),
    decreases k - i,
{
    if i < k {
        assert(!occurs_at(s, p, i));
        lemma_find_first_from(s, p, i + 1, k);
    }
}

/// For a note without carriage returns that has frontmatter, the content
/// that `with_body` makes from its frontmatter and a new body reads back as
/// that same frontmatter text and that body.
pub proof fn law_with_body_reads_back(c: Seq<char>, b: Seq<char>)
    requires
        forall|i: int| 0 <= i < c.len() ==> c[i] != '\r',
        spec_yaml(c) is Some,
    ensures
        spec_yaml("---\n"@ + spec_yaml(c)->0 + "\n---\n"@ + b) == spec_yaml(c),
        spec_body("---\n"@ + spec_yaml(c)->0 + "\n---\n"@ + b) == b,
{
    reveal_strlit("---\n");
    reveal_strlit("\n---\n");
    lemma_layout_bounds(c);
    let (a, e) = fm_layout(c)->0;
    let y = c.subrange(a, e);
    let rem_c = c.subrange(a, c.len() as int);
    let p = e - a;
    assert(yaml_start(c) == a);
    assert(a == 4) by {
        if a == 5 {
            assert(occurs_at(c, seq!['\r', '\n'], 3));
            assert(c.subrange(3, 5)[0] == c[3]);
        }
    }
    assert(closing_pos(rem_c) == Some(p));
    let m = "---\n"@ + y + "\n---\n"@ + b;
    let rem_m = m.subrange(4, m.len() as int);
    assert(rem_m =~= y + "\n---\n"@ + b);
    // The windows before `p` agree in both texts.
    assert(rem_c.len() >= p + 4);
    assert forall|idx: int| 0 <= idx < p + 4 implies rem_m[idx] == rem_c[idx] by {
        if idx >= p {
            assert(occurs_at(c, close_eof(), e));
            assert(c.subrange(e, e + 4)[idx - p] == c[e + idx - p]);
            assert(rem_c[idx] == c[a + idx]);
        }
    }
    let no_lf_before = forall|j: int| 0 <= j < p ==> !occurs_at(rem_c, close_lf(), j);
    match find_from(rem_c, close_lf(), 0) {
        Some(q) => {
            lemma_find_from_found(rem_c, close_lf(), 0);
            assert(q == p);
        },
        None => {
            lemma_find_from_none(rem_c, close_lf(), 0);
            match find_from(rem_c, close_crlf(), 0) {
                Some(q) => {
                    lemma_find_from_found(rem_c, close_crlf(), 0);
                    assert(rem_c.subrange(q, q + 6)[4] == rem_c[q + 4]);
                    assert(rem_c[q + 4] == c[a + q + 4]);
                    assert(false);
                },
                None => {},
            }
        },
    }
    assert(no_lf_before);
    assert forall|j: int| 0 <= j < p implies !occurs_at(rem_m, close_lf(), j) by {
        if occurs_at(rem_m, close_lf(), j) {
            assert(rem_c.subrange(j, j + 5) =~= rem_m.subrange(j, j + 5));
            assert(occurs_at(rem_c, close_lf(), j));
        }
    }
    assert(rem_m.subrange(p, p + 5) =~= close_lf());
    lemma_find_first_from(rem_m, close_lf(), 0, p);
    assert(m.subrange(0, 3) =~= dashes());
    assert(m.subrange(3, 4) =~= seq!['\n']);
    assert(yaml_start(m) == 4);
    assert(fm_layout(m) == Some((4int, 4 + p)));
    assert(m.subrange(4, 4 + p) =~= y);
    assert(m[p + 8] == '\n');
    assert(body_start(m) == p + 9);
    assert(m.subrange(p + 9, m.len() as int) =~= b);
}

} // verus!
