//! Frontmatter and property operations on notes.

use vstd::prelude::*;
use crate::error::VaultError;
use crate::note::{key_indices, key_indices_exec, renamed_indices, select_prop, no_newline, splice_prop, key_props_on_one_line, rename_from, prop_text, Note};
use crate::parser::frontmatter::{
    parse_frontmatter_with_path, spec_frontmatter_value, spec_update_frontmatter, update_frontmatter,
};
use crate::parser::inline_property::{prop_occ, prop_occurrences_outside_code, spec_inline_properties, PropV};
use crate::text::{chars_of, concat, debug_repr, debug_string, lit, string_of};
use crate::str_map::StrMap;
use crate::types::PropertyScope;
use crate::yaml::{
    into_sequence, string_variant, value_sequence, value_string, yaml_emit, yaml_to_string,
    from_mapping, into_mapping, map_get, map_insert, map_swap_remove, mapping_entries,
    mapping_insert, mapping_new, mapping_remove, unique_str_keys, value_clone, yaml_tree, YamlV,
};

verus! {

/// What a note edit gives: the new content, or an error.
pub enum EditV {
    /// The frontmatter does not parse (with the parser's message).
    Invalid(Seq<char>),
    /// The new frontmatter cannot be written (with the emitter's message).
    Yaml(Seq<char>),
    /// Another failure, with its message.
    Other(Seq<char>),
}

/// An edit's executable result agrees with its specification.
pub open spec fn edit_agrees(r: Result<Note, VaultError>, path: Seq<char>, s: Result<Seq<char>, EditV>) -> bool {
    match s {
        Ok(c) => r matches Ok(n) && n.path@ == path && n.content@ == c,
        Err(EditV::Invalid(m)) => r matches Err(VaultError::InvalidFrontmatter { path: p, message })
            && p@ == path && message@ == m,
        Err(EditV::Yaml(m)) => r matches Err(VaultError::YamlParse(e)) && e@ == m,
        Err(EditV::Other(m)) => r matches Err(VaultError::Other(e)) && e@ == m,
    }
}

/// The content with new frontmatter `v`.
pub open spec fn with_fm(c: Seq<char>, v: YamlV) -> Result<Seq<char>, EditV> {
    match spec_update_frontmatter(c, v) {
        Ok(x) => Ok(x),
        Err(m) => Err(EditV::Yaml(m)),
    }
}

/// The content after removing a frontmatter key (nothing changes without a
/// frontmatter mapping that holds the key).
pub open spec fn spec_remove_fm_key(c: Seq<char>, key: Seq<char>) -> Result<Seq<char>, EditV> {
    match spec_frontmatter_value(c) {
        Err(m) => Err(EditV::Invalid(m)),
        Ok(Some(YamlV::Mapping(es))) => match map_get(es, key) {
            Some(_) => with_fm(c, YamlV::Mapping(map_swap_remove(es, key))),
            None => Ok(c),
        },
        Ok(_) => Ok(c),
    }
}

/// The content after renaming a frontmatter key: the value moves to the new
/// key, last.
pub open spec fn spec_rename_fm_key(c: Seq<char>, old_key: Seq<char>, new_key: Seq<char>) -> Result<
    Seq<char>,
    EditV,
> {
    match spec_frontmatter_value(c) {
        Err(m) => Err(EditV::Invalid(m)),
        Ok(Some(YamlV::Mapping(es))) => match map_get(es, old_key) {
            Some(v) => with_fm(
                c,
                YamlV::Mapping(map_insert(map_swap_remove(es, old_key), new_key, v)),
            ),
            None => Ok(c),
        },
        Ok(_) => Ok(c),
    }
}

/// The content after removing the inline properties at the indices `idx`,
/// last index first, each removal working on the content the one before
/// left.
pub open spec fn drop_props(c: Seq<char>, idx: Seq<int>) -> Result<Seq<char>, Seq<char>>
    decreases idx.len(),
{
    if idx.len() == 0 {
        Ok(c)
    } else {
        match select_prop(spec_inline_properties(c), None, Some(idx.last() as usize)) {
            Ok(t) => drop_props(splice_prop(c, t, Seq::empty()), idx.drop_last()),
            Err(m) => Err(m),
        }
    }
}

/// Each property that `drop_props` removes lies on one line.
pub open spec fn drop_props_on_one_line(c: Seq<char>, idx: Seq<int>) -> bool
    decreases idx.len(),
{
    if idx.len() == 0 {
        true
    } else {
        match select_prop(spec_inline_properties(c), None, Some(idx.last() as usize)) {
            Ok(t) => no_newline(c, prop_occ(c)[t].0, prop_occ(c)[t].2) && drop_props_on_one_line(
                splice_prop(c, t, Seq::empty()),
                idx.drop_last(),
            ),
            Err(_) => true,
        }
    }
}

/// The content after removing a property from frontmatter and from every
/// inline occurrence.
pub open spec fn spec_remove_everywhere(c: Seq<char>, key: Seq<char>) -> Result<Seq<char>, EditV> {
    match spec_remove_fm_key(c, key) {
        Err(e) => Err(e),
        Ok(c1) => match drop_props(c1, renamed_indices(c1, key)) {
            Ok(c2) => Ok(c2),
            Err(m) => Err(EditV::Other(m)),
        },
    }
}

/// The inline removals of `remove_property` lie on single lines.
pub open spec fn remove_everywhere_ok(c: Seq<char>, key: Seq<char>) -> bool {
    match spec_remove_fm_key(c, key) {
        Ok(c1) => drop_props_on_one_line(c1, renamed_indices(c1, key)),
        Err(_) => true,
    }
}

/// The content after renaming an inline property key everywhere.
pub open spec fn spec_rename_inline(c: Seq<char>, old_key: Seq<char>, new_key: Seq<char>) -> Seq<char> {
    if renamed_indices(c, old_key).len() == 0 {
        c
    } else {
        rename_from(c, 0, renamed_indices(c, old_key), new_key)
    }
}

/// The frontmatter entries when the frontmatter is a mapping, none
/// otherwise.
pub open spec fn fm_entries(v: Option<YamlV>) -> Seq<(YamlV, YamlV)> {
    match v {
        Some(YamlV::Mapping(es)) => es,
        _ => Seq::empty(),
    }
}

/// The list a frontmatter key holds after appending `v`: a new one-element
/// list; the old list with `v` last; or the old scalar and `v`.
pub open spec fn appended(existing: Option<YamlV>, v: YamlV) -> YamlV {
    match existing {
        None => YamlV::List(seq![v]),
        Some(YamlV::List(items)) => YamlV::List(items.push(v)),
        Some(x) => YamlV::List(seq![x, v]),
    }
}

/// The content after appending `v` to the list of a frontmatter key (a
/// frontmatter that is not a mapping starts over as an empty mapping).
pub open spec fn spec_append_fm_value(c: Seq<char>, key: Seq<char>, v: YamlV) -> Result<Seq<char>, EditV> {
    match spec_frontmatter_value(c) {
        Err(m) => Err(EditV::Invalid(m)),
        Ok(fm) => {
            let es = fm_entries(fm);
            let nv = appended(map_get(es, key), v);
            with_fm(c, YamlV::Mapping(map_insert(map_swap_remove(es, key), key, nv)))
        },
    }
}

/// The values of the inline properties with key `key`, in order.
pub open spec fn inline_values(ps: Seq<PropV>, key: Seq<char>) -> Seq<Seq<char>>
    decreases ps.len(),
{
    if ps.len() == 0 {
        Seq::empty()
    } else {
        inline_values(ps.drop_last(), key) + if ps.last().0 == key {
            seq![ps.last().1]
        } else {
            Seq::<Seq<char>>::empty()
        }
    }
}

/// A property's value: from the frontmatter mapping first; else the inline
/// value, or the list of inline values when there are several.
pub open spec fn spec_get_property(c: Seq<char>, key: Seq<char>) -> Result<Option<YamlV>, Seq<char>> {
    match spec_frontmatter_value(c) {
        Err(m) => Err(m),
        Ok(fm) => match (fm, map_get(fm_entries(fm), key)) {
            (Some(YamlV::Mapping(_)), Some(v)) => Ok(Some(v)),
            _ => {
                let vals = inline_values(spec_inline_properties(c), key);
                if vals.len() == 0 {
                    Ok(None)
                } else if vals.len() == 1 {
                    Ok(Some(YamlV::Str(vals[0])))
                } else {
                    Ok(Some(YamlV::List(vals.map_values(|x: Seq<char>| YamlV::Str(x)))))
                }
            },
        },
    }
}

/// The text an inline property takes for a value: a string as it is, any
/// other value as its YAML text, trimmed (empty when it cannot be written).
pub open spec fn inline_text(v: YamlV) -> Seq<char> {
    match v {
        YamlV::Str(s) => s,
        _ => match yaml_emit(v) {
            Ok(t) => crate::text::trim(t),
            Err(_) => Seq::empty(),
        },
    }
}

/// The frontmatter is a mapping that holds the string key `key`.
pub open spec fn fm_has_key(c: Seq<char>, key: Seq<char>) -> bool {
    match spec_frontmatter_value(c) {
        Ok(Some(YamlV::Mapping(es))) => map_get(es, key) is Some,
        _ => false,
    }
}

/// Some inline property of the content has key `key`.
pub open spec fn has_inline_key(c: Seq<char>, key: Seq<char>) -> bool {
    inline_values(spec_inline_properties(c), key).len() > 0
}

/// The content after setting a frontmatter key (a missing frontmatter
/// starts as an empty mapping; one that is not a mapping is written back
/// as it is).
pub open spec fn spec_set_fm(c: Seq<char>, key: Seq<char>, v: YamlV) -> Result<Seq<char>, EditV> {
    match spec_frontmatter_value(c) {
        Err(m) => Err(EditV::Invalid(m)),
        Ok(None) => with_fm(c, YamlV::Mapping(map_insert(Seq::empty(), key, v))),
        Ok(Some(YamlV::Mapping(es))) => with_fm(c, YamlV::Mapping(map_insert(es, key, v))),
        Ok(Some(w)) => with_fm(c, w),
    }
}

/// The content after setting the selected inline property to the text of
/// `v`.
pub open spec fn spec_set_inline(c: Seq<char>, key: Seq<char>, v: YamlV, index: Option<usize>) -> Result<
    Seq<char>,
    EditV,
> {
    match select_prop(spec_inline_properties(c), Some(key), index) {
        Ok(t) => Ok(splice_prop(c, t, prop_text(key, inline_text(v)))),
        Err(m) => Err(EditV::Other(m)),
    }
}

/// The message when `Auto` finds a key in both places.
pub open spec fn msg_in_both(key: Seq<char>) -> Seq<char> {
    "Property "@ + debug_repr(key) + " exists in both frontmatter and inline — specify a scope"@
}

/// The content after `set_property`: `Frontmatter` and `Inline` set it
/// there; `Auto` where the key is (an error when it is in both), in the
/// frontmatter for a new key; `Both` is an error.
pub open spec fn spec_set_property(c: Seq<char>, key: Seq<char>, v: YamlV, scope: PropertyScope) -> Result<
    Seq<char>,
    EditV,
> {
    match scope {
        PropertyScope::Frontmatter => spec_set_fm(c, key, v),
        PropertyScope::Inline { index } => spec_set_inline(c, key, v, index),
        PropertyScope::Auto => match spec_frontmatter_value(c) {
            Err(m) => Err(EditV::Invalid(m)),
            Ok(_) => if fm_has_key(c, key) && has_inline_key(c, key) {
                Err(EditV::Other(msg_in_both(key)))
            } else if !fm_has_key(c, key) && has_inline_key(c, key) {
                spec_set_inline(c, key, v, None)
            } else {
                spec_set_fm(c, key, v)
            },
        },
        PropertyScope::Both => Err(EditV::Other("Cannot use Both scope for set_property (ambiguous intent)"@)),
    }
}

/// The value of the inline properties with key `k`: one as a string,
/// several (or none) as a list.
pub open spec fn inline_group_value(c: Seq<char>, k: Seq<char>) -> YamlV {
    let vals = inline_values(spec_inline_properties(c), k);
    if vals.len() == 1 {
        YamlV::Str(vals[0])
    } else {
        YamlV::List(vals.map_values(|x: Seq<char>| YamlV::Str(x)))
    }
}

/// The merged properties of a note whose frontmatter is `fm`: each string
/// key of the frontmatter mapping with its value, then each other inline
/// key with the value of its inline properties.
pub open spec fn spec_properties(c: Seq<char>, fm: Option<YamlV>) -> Map<Seq<char>, YamlV> {
    Map::new(
        |k: Seq<char>| map_get(fm_entries(fm), k) is Some || has_inline_key(c, k),
        |k: Seq<char>|
            match map_get(fm_entries(fm), k) {
                Some(v) => v,
                None => inline_group_value(c, k),
            },
    )
}

/// `key_index_from` finds the first entry from `i` on with key `k`.
proof fn lemma_key_index_from(es: Seq<(YamlV, YamlV)>, k: Seq<char>, i: int)
    requires
        0 <= i,
    ensures
        match crate::yaml::key_index_from(es, k, i) {
            Some(j) => i <= j < es.len() && es[j].0 == YamlV::Str(k),
            None => forall|m: int| i <= m < es.len() ==> es[m].0 != YamlV::Str(k),
        },
    decreases es.len() - i,
{
    if i < es.len() && es[i].0 != YamlV::Str(k) {
        lemma_key_index_from(es, k, i + 1);
    }
}

/// With distinct string keys, the entry holding key `k` is the one found.
proof fn lemma_key_index_unique(es: Seq<(YamlV, YamlV)>, k: Seq<char>, j: int)
    requires
        unique_str_keys(es),
        0 <= j < es.len(),
        es[j].0 == YamlV::Str(k),
    ensures
        crate::yaml::key_index(es, k) == Some(j),
{
    lemma_key_index_from(es, k, 0);
    match crate::yaml::key_index(es, k) {
        Some(m) => {
            if m < j {
                assert(es[m].0 != es[j].0);
            } else if m > j {
                assert(es[j].0 != es[m].0);
            }
        },
        None => {},
    }
}

impl Note {
    /// The parsed frontmatter: `None` without one; an error naming the note
    /// when it does not parse.
    pub fn frontmatter(&self) -> (r: Result<Option<serde_yaml::Value>, VaultError>)
        ensures
            crate::parser::frontmatter::frontmatter_agrees(
                r,
                spec_frontmatter_value(self.content@),
                self.path@,
            ),
    {
        parse_frontmatter_with_path(self.content.as_str(), self.path.as_str())
    }

    /// The note with its frontmatter replaced by `v`.
    pub fn with_frontmatter(&self, v: &serde_yaml::Value) -> (r: Result<Note, VaultError>)
        ensures
            edit_agrees(r, self.path@, with_fm(self.content@, yaml_tree(*v))),
    {
        match update_frontmatter(self.content.as_str(), v) {
            Ok(content) => Ok(Note { path: self.path.clone(), content }),
            Err(e) => Err(e),
        }
    }

    fn unchanged(&self) -> (r: Note)
        ensures
            r.path@ == self.path@,
            r.content@ == self.content@,
    {
        Note { path: self.path.clone(), content: self.content.clone() }
    }

    /// Remove a frontmatter key. Without frontmatter, when it is not a
    /// mapping, or when the key is missing, the note comes back unchanged.
    pub fn remove_frontmatter_key(&self, key: &str) -> (r: Result<Note, VaultError>)
        ensures
            edit_agrees(r, self.path@, spec_remove_fm_key(self.content@, key@)),
    {
        match self.frontmatter() {
            Err(e) => Err(e),
            Ok(Some(v)) => match into_mapping(v) {
                Ok(mut map) => match mapping_remove(&mut map, key) {
                    Some(_) => {
                        let nv = from_mapping(map);
                        self.with_frontmatter(&nv)
                    },
                    None => Ok(self.unchanged()),
                },
                Err(_) => Ok(self.unchanged()),
            },
            Ok(None) => Ok(self.unchanged()),
        }
    }

    /// Rename a frontmatter key; its value moves to the new key (placed
    /// last). Without the key, the note is unchanged.
    pub fn rename_frontmatter_key(&self, old_key: &str, new_key: &str) -> (r: Result<Note, VaultError>)
        ensures
            edit_agrees(r, self.path@, spec_rename_fm_key(self.content@, old_key@, new_key@)),
    {
        match self.frontmatter() {
            Err(e) => Err(e),
            Ok(Some(v)) => match into_mapping(v) {
                Ok(mut map) => match mapping_remove(&mut map, old_key) {
                    Some(value) => {
                        let _ = mapping_insert(&mut map, new_key, value);
                        let nv = from_mapping(map);
                        self.with_frontmatter(&nv)
                    },
                    None => Ok(self.unchanged()),
                },
                Err(_) => Ok(self.unchanged()),
            },
            Ok(None) => Ok(self.unchanged()),
        }
    }

    /// Remove a property.
    ///
    /// `Frontmatter` and `Inline` remove it there only; `Auto` and `Both`
    /// remove it from the frontmatter and every inline occurrence.
    pub fn remove_property(&self, key: &str, scope: &PropertyScope) -> (r: Result<Note, VaultError>)
        requires
            match *scope {
                PropertyScope::Inline { index } => crate::note::selected_on_one_line(
                    self.content@,
                    Some(key@),
                    index,
                ),
                PropertyScope::Frontmatter => true,
                _ => remove_everywhere_ok(self.content@, key@),
            },
        ensures
            edit_agrees(
                r,
                self.path@,
                match *scope {
                    PropertyScope::Frontmatter => spec_remove_fm_key(self.content@, key@),
                    PropertyScope::Inline { index } => match select_prop(
                        spec_inline_properties(self.content@),
                        Some(key@),
                        index,
                    ) {
                        Ok(t) => Ok(splice_prop(self.content@, t, Seq::empty())),
                        Err(m) => Err(EditV::Other(m)),
                    },
                    _ => spec_remove_everywhere(self.content@, key@),
                },
            ),
    {
        match scope {
            PropertyScope::Frontmatter => self.remove_frontmatter_key(key),
            PropertyScope::Inline { index } => self.remove_inline_property(Some(key), *index),
            _ => {
                let mut result = match self.remove_frontmatter_key(key) {
                    Ok(n) => n,
                    Err(e) => {
                        return Err(e);
                    },
                };
                let ghost c1 = result.content@;
                let s = chars_of(result.content.as_str());
                let occ = prop_occurrences_outside_code(&s);
                let kc = chars_of(key);
                let matching = key_indices_exec(&s, &occ, &kc);
                let ghost idx = renamed_indices(c1, key@);
                assert(matching@.map_values(|x: usize| x as int) == idx);
                let mut j: usize = matching.len();
                proof {
                    assert(idx.subrange(0, idx.len() as int) == idx);
                }
                while j > 0
                    invariant
                        j <= matching@.len(),
                        matching@.map_values(|x: usize| x as int) == idx,
                        idx == renamed_indices(c1, key@),
                        !(*scope is Frontmatter) && !(*scope is Inline),
                        spec_remove_fm_key(self.content@, key@) == Ok::<Seq<char>, EditV>(c1),
                        result.path@ == self.path@,
                        drop_props(result.content@, idx.subrange(0, j as int)) == drop_props(c1, idx),
                        drop_props_on_one_line(result.content@, idx.subrange(0, j as int)),
                    decreases j,
                {
                    let t = matching[j - 1];
                    let ghost pre = idx.subrange(0, j as int);
                    proof {
                        assert(pre.last() == t as int);
                        assert(pre.drop_last() == idx.subrange(0, j - 1));
                    }
                    result = match result.remove_inline_property(None, Some(t)) {
                        Ok(n) => n,
                        Err(e) => {
                            return Err(e);
                        },
                    };
                    j = j - 1;
                }
                Ok(result)
            },
        }
    }

    /// Append a value to the list of a frontmatter key: an absent key gets
    /// a one-element list, a scalar becomes a two-element list.
    pub fn append_frontmatter_value(&self, key: &str, value: &serde_yaml::Value) -> (r: Result<Note, VaultError>)
        ensures
            edit_agrees(r, self.path@, spec_append_fm_value(self.content@, key@, yaml_tree(*value))),
    {
        let fm = match self.frontmatter() {
            Ok(fm) => fm,
            Err(e) => {
                return Err(e);
            },
        };
        let mut map = match fm {
            Some(v) => match into_mapping(v) {
                Ok(m) => m,
                Err(_) => mapping_new(),
            },
            None => mapping_new(),
        };
        let existing = mapping_remove(&mut map, key);
        let new_value = match existing {
            None => {
                let mut items: Vec<serde_yaml::Value> = Vec::new();
                items.push(value_clone(value));
                let v = value_sequence(items);
                assert(Seq::new(1, |i: int| yaml_tree(items@[i])) =~= seq![yaml_tree(*value)]);
                v
            },
            Some(e) => {
                let ghost te = yaml_tree(e);
                match into_sequence(e) {
                    Ok(mut items) => {
                        let ghost before = items@;
                        items.push(value_clone(value));
                        let v = value_sequence(items);
                        proof {
                            let old_items = Seq::new(before.len(), |i: int| yaml_tree(before[i]));
                            assert(te == YamlV::List(old_items));
                            assert(Seq::new(items@.len(), |i: int| yaml_tree(items@[i])) =~= old_items.push(
                                yaml_tree(*value),
                            ));
                        }
                        v
                    },
                    Err(scalar) => {
                        let mut items: Vec<serde_yaml::Value> = Vec::new();
                        items.push(scalar);
                        items.push(value_clone(value));
                        let v = value_sequence(items);
                        assert(Seq::new(2, |i: int| yaml_tree(items@[i])) =~= seq![te, yaml_tree(*value)]);
                        v
                    },
                }
            },
        };
        let _ = mapping_insert(&mut map, key, new_value);
        let nv = from_mapping(map);
        self.with_frontmatter(&nv)
    }

    /// A property's value: from the frontmatter first, then inline (one
    /// value as a string, several as a list).
    pub fn get_property(&self, key: &str) -> (r: Result<Option<serde_yaml::Value>, VaultError>)
        ensures
            match spec_get_property(self.content@, key@) {
                Ok(Some(v)) => r matches Ok(Some(x)) && yaml_tree(x) == v,
                Ok(None) => r matches Ok(None),
                Err(m) => r matches Err(VaultError::InvalidFrontmatter { path: p, message }) && p@
                    == self.path@ && message@ == m,
            },
    {
        let fm = match self.frontmatter() {
            Ok(fm) => fm,
            Err(e) => {
                return Err(e);
            },
        };
        match fm {
            Some(v) => match into_mapping(v) {
                Ok(map) => match crate::yaml::mapping_get(&map, key) {
                    Some(x) => {
                        return Ok(Some(value_clone(x)));
                    },
                    None => {},
                },
                Err(_) => {},
            },
            None => {},
        }
        let (n, v) = self.inline_value_of(key);
        if n == 0 {
            Ok(None)
        } else {
            Ok(Some(v))
        }
    }

    /// Rename a property key.
    ///
    /// `Frontmatter` and `Inline` rename it there only; `Auto` and `Both`
    /// rename it in the frontmatter, then inline.
    pub fn rename_property(&self, old_key: &str, new_key: &str, scope: &PropertyScope) -> (r: Result<
        Note,
        VaultError,
    >)
        requires
            match *scope {
                PropertyScope::Frontmatter => true,
                PropertyScope::Inline { .. } => key_props_on_one_line(self.content@, old_key@),
                _ => match spec_rename_fm_key(self.content@, old_key@, new_key@) {
                    Ok(c1) => key_props_on_one_line(c1, old_key@),
                    Err(_) => true,
                },
            },
        ensures
            edit_agrees(
                r,
                self.path@,
                match *scope {
                    PropertyScope::Frontmatter => spec_rename_fm_key(self.content@, old_key@, new_key@),
                    PropertyScope::Inline { .. } => Ok(
                        spec_rename_inline(self.content@, old_key@, new_key@),
                    ),
                    _ => match spec_rename_fm_key(self.content@, old_key@, new_key@) {
                        Ok(c1) => Ok(spec_rename_inline(c1, old_key@, new_key@)),
                        Err(e) => Err(e),
                    },
                },
            ),
    {
        match scope {
            PropertyScope::Frontmatter => self.rename_frontmatter_key(old_key, new_key),
            PropertyScope::Inline { .. } => self.rename_inline_property(old_key, new_key),
            _ => {
                let result = match self.rename_frontmatter_key(old_key, new_key) {
                    Ok(n) => n,
                    Err(e) => {
                        return Err(e);
                    },
                };
                result.rename_inline_property(old_key, new_key)
            },
        }
    }

    /// Whether some inline property has key `key`.
    fn has_inline_key_exec(&self, key: &str) -> (r: bool)
        ensures
            r == has_inline_key(self.content@, key@),
    {
        let props = self.inline_properties();
        let ghost ps = spec_inline_properties(self.content@);
        let mut found = false;
        let mut k: usize = 0;
        while k < props.len()
            invariant
                k <= props@.len(),
                crate::parser::inline_property::props_view(props@) == ps,
                found == (inline_values(ps.subrange(0, k as int), key@).len() > 0),
            decreases props@.len() - k,
        {
            proof {
                assert(ps.subrange(0, k + 1).drop_last() == ps.subrange(0, k as int));
                assert(ps[k as int] == crate::parser::inline_property::prop_view(props@[k as int]));
            }
            if crate::text::same_chars(chars_of(props[k].key.as_str()).as_slice(), chars_of(key).as_slice()) {
                found = true;
            }
            k = k + 1;
        }
        assert(ps.subrange(0, k as int) == ps);
        found
    }

    /// Set a frontmatter key to a value.
    fn set_frontmatter_value(&self, key: &str, value: &serde_yaml::Value) -> (r: Result<Note, VaultError>)
        ensures
            edit_agrees(r, self.path@, spec_set_fm(self.content@, key@, yaml_tree(*value))),
    {
        let fm = match self.frontmatter() {
            Err(e) => {
                return Err(e);
            },
            Ok(f) => f,
        };
        let nv = match fm {
            None => {
                let mut m = mapping_new();
                let _ = mapping_insert(&mut m, key, value_clone(value));
                from_mapping(m)
            },
            Some(v) => match into_mapping(v) {
                Ok(mut m) => {
                    let _ = mapping_insert(&mut m, key, value_clone(value));
                    from_mapping(m)
                },
                Err(w) => w,
            },
        };
        self.with_frontmatter(&nv)
    }

    /// Set a property.
    ///
    /// `Frontmatter` and `Inline` set it there. `Auto` sets it where the key
    /// is, and in the frontmatter for a new key; a key in both places is an
    /// error. `Both` is an error.
    pub fn set_property(&self, key: &str, value: &serde_yaml::Value, scope: &PropertyScope) -> (r: Result<
        Note,
        VaultError,
    >)
        requires
            match *scope {
                PropertyScope::Inline { index } => crate::note::selected_on_one_line(
                    self.content@,
                    Some(key@),
                    index,
                ),
                PropertyScope::Auto => !fm_has_key(self.content@, key@) ==> crate::note::selected_on_one_line(
                    self.content@,
                    Some(key@),
                    None,
                ),
                _ => true,
            },
        ensures
            edit_agrees(r, self.path@, spec_set_property(self.content@, key@, yaml_tree(*value), *scope)),
    {
        match scope {
            PropertyScope::Frontmatter => self.set_frontmatter_value(key, value),
            PropertyScope::Inline { index } => {
                let text = self.inline_text_of(value);
                self.set_inline_property(key, text.as_str(), *index)
            },
            PropertyScope::Auto => {
                let fm = match self.frontmatter() {
                    Err(e) => {
                        return Err(e);
                    },
                    Ok(f) => f,
                };
                let in_fm = match fm {
                    Some(v) => match into_mapping(v) {
                        Ok(m) => crate::yaml::mapping_get(&m, key).is_some(),
                        Err(_) => false,
                    },
                    None => false,
                };
                let in_inline = self.has_inline_key_exec(key);
                if in_fm && in_inline {
                    let m = concat(lit("Property "), debug_string(key).as_str());
                    let m = concat(m, " exists in both frontmatter and inline — specify a scope");
                    Err(VaultError::Other(m))
                } else if !in_fm && in_inline {
                    let text = self.inline_text_of(value);
                    self.set_inline_property(key, text.as_str(), None)
                } else {
                    self.set_frontmatter_value(key, value)
                }
            },
            PropertyScope::Both => Err(
                VaultError::Other(lit("Cannot use Both scope for set_property (ambiguous intent)")),
            ),
        }
    }

    /// The text an inline property takes for a value.
    fn inline_text_of(&self, value: &serde_yaml::Value) -> (r: String)
        ensures
            r@ == inline_text(yaml_tree(*value)),
    {
        match string_variant(value) {
            Some(s) => s.clone(),
            None => match yaml_to_string(value) {
                Ok(t) => {
                    let tv = chars_of(t.as_str());
                    string_of(crate::text::trim_vec(&tv).as_slice())
                },
                Err(_) => String::new(),
            },
        }
    }

    /// The value of the inline properties with key `key` (one as a string,
    /// several as a list), with their number.
    fn inline_value_of(&self, key: &str) -> (r: (usize, serde_yaml::Value))
        ensures
            r.0 == inline_values(spec_inline_properties(self.content@), key@).len(),
            yaml_tree(r.1) == inline_group_value(self.content@, key@),
    {
        let props = self.inline_properties();
        let ghost ps = spec_inline_properties(self.content@);
        let mut values: Vec<serde_yaml::Value> = Vec::new();
        let mut first: Option<String> = None;
        let mut k: usize = 0;
        while k < props.len()
            invariant
                k <= props@.len(),
                crate::parser::inline_property::props_view(props@) == ps,
                values@.len() == inline_values(ps.subrange(0, k as int), key@).len(),
                forall|i: int|
                    0 <= i < values@.len() ==> yaml_tree(#[trigger] values@[i]) == YamlV::Str(
                        inline_values(ps.subrange(0, k as int), key@)[i],
                    ),
                match first {
                    Some(f) => values@.len() >= 1 && f@ == inline_values(ps.subrange(0, k as int), key@)[0],
                    None => values@.len() == 0,
                },
            decreases props@.len() - k,
        {
            proof {
                assert(ps.subrange(0, k + 1).drop_last() == ps.subrange(0, k as int));
                assert(ps[k as int] == crate::parser::inline_property::prop_view(props@[k as int]));
            }
            if crate::text::same_chars(chars_of(props[k].key.as_str()).as_slice(), chars_of(key).as_slice()) {
                if first.is_none() {
                    first = Some(props[k].value.clone());
                }
                values.push(value_string(props[k].value.clone()));
            }
            k = k + 1;
        }
        assert(ps.subrange(0, k as int) == ps);
        let ghost vals = inline_values(ps, key@);
        let n = values.len();
        if n == 1 {
            match first {
                Some(f) => (n, value_string(f)),
                None => (n, value_sequence(values)),
            }
        } else {
            let ghost items = values@;
            let v = value_sequence(values);
            assert(Seq::new(items.len(), |i: int| yaml_tree(items[i])) =~= vals.map_values(
                |x: Seq<char>| YamlV::Str(x),
            ));
            (n, v)
        }
    }

    /// All properties: the frontmatter's string keys with their values, and
    /// each other inline key with its value (one as a string, several as a
    /// list).
    pub fn get_properties(&self) -> (r: Result<StrMap<serde_yaml::Value>, VaultError>)
        ensures
            match spec_frontmatter_value(self.content@) {
                Ok(fm) => r matches Ok(m) && m.wf() && m@.dom() == spec_properties(self.content@, fm).dom()
                    && forall|k: Seq<char>| #[trigger] m@.contains_key(k) ==> yaml_tree(m@[k])
                    == spec_properties(self.content@, fm)[k],
                Err(e) => r matches Err(VaultError::InvalidFrontmatter { path: p, message }) && p@
                    == self.path@ && message@ == e,
            },
    {
        let fm = match self.frontmatter() {
            Err(e) => {
                return Err(e);
            },
            Ok(f) => f,
        };
        let ghost fmv = spec_frontmatter_value(self.content@)->Ok_0;
        let ghost es = fm_entries(fmv);
        let mut merged: StrMap<serde_yaml::Value> = StrMap::new();
        match fm {
            Some(v) => match into_mapping(v) {
                Ok(m) => {
                    let entries = crate::yaml::mapping_entries_vec(&m);
                    let mut i: usize = 0;
                    while i < entries.len()
                        invariant
                            i <= entries@.len(),
                            es == mapping_entries(m),
                            unique_str_keys(es),
                            entries@.len() == es.len(),
                            forall|j: int|
                                0 <= j < entries@.len() ==> yaml_tree((#[trigger] entries@[j]).0) == es[j].0
                                    && yaml_tree(entries@[j].1) == es[j].1,
                            merged.wf(),
                            forall|k: Seq<char>| #[trigger] merged@.contains_key(k) ==> (
                                crate::yaml::key_index(es, k) matches Some(j) && j < i && yaml_tree(merged@[k])
                                    == es[j].1),
                            forall|j: int| 0 <= j < i && (#[trigger] es[j]).0 is Str ==> merged@.contains_key(
                                es[j].0->Str_0,
                            ),
                        decreases entries@.len() - i,
                    {
                        match string_variant(&entries[i].0) {
                            Some(ks) => {
                                proof {
                                    lemma_key_index_unique(es, ks@, i as int);
                                }
                                merged.insert(ks.clone(), value_clone(&entries[i].1));
                            },
                            None => {},
                        }
                        i = i + 1;
                    }
                },
                Err(_) => {},
            },
            None => {},
        }
        proof {
            assert forall|k: Seq<char>| #[trigger] map_get(es, k) is Some implies merged@.contains_key(k) by {
                lemma_key_index_from(es, k, 0);
            }
        }
        let props = self.inline_properties();
        let ghost ps = spec_inline_properties(self.content@);
        let ghost c = self.content@;
        let mut p: usize = 0;
        while p < props.len()
            invariant
                p <= props@.len(),
                crate::parser::inline_property::props_view(props@) == ps,
                ps == spec_inline_properties(c),
                c == self.content@,
                merged.wf(),
                forall|k: Seq<char>| #[trigger] merged@.contains_key(k) <==> (map_get(es, k) is Some
                    || inline_values(ps.subrange(0, p as int), k).len() > 0),
                forall|k: Seq<char>| #[trigger] merged@.contains_key(k) ==> yaml_tree(merged@[k]) == match map_get(
                    es,
                    k,
                ) {
                    Some(v) => v,
                    None => inline_group_value(c, k),
                },
            decreases props@.len() - p,
        {
            proof {
                assert(ps.subrange(0, p + 1).drop_last() == ps.subrange(0, p as int));
                assert(ps[p as int] == crate::parser::inline_property::prop_view(props@[p as int]));
                assert forall|k: Seq<char>| inline_values(ps.subrange(0, p + 1), k).len() > 0 <==> (
                    inline_values(ps.subrange(0, p as int), k).len() > 0 || ps[p as int].0 == k) by {
                    assert(ps.subrange(0, p + 1).last() == ps[p as int]);
                }
            }
            let key = props[p].key.as_str();
            if merged.get(key).is_none() {
                let (_, v) = self.inline_value_of(key);
                merged.insert(props[p].key.clone(), v);
            }
            p = p + 1;
        }
        proof {
            assert(ps.subrange(0, p as int) == ps);
            assert(merged@.dom() =~= spec_properties(c, fmv).dom());
        }
        Ok(merged)
    }
}

} // verus!
