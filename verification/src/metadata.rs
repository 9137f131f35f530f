//! The `vaultiel` frontmatter field, which gives a note a stable identity:
//!
//! ```yaml
//! vaultiel:
//!   id: "550e8400-e29b-41d4-a716-446655440000"
//!   created: "2026-02-02T18:30:00Z"
//! ```
//!
//! Fresh identifiers and timestamps come from the caller.

use vstd::prelude::*;
use crate::graph::link_graph::NoteSource;
use crate::parser::frontmatter::{parse_frontmatter, spec_frontmatter_value};
use crate::text::{chars_of, lit, same_chars};
use crate::yaml::{
    mapping_entries, from_mapping, map_get, map_insert, mapping_get, mapping_insert, mapping_new, mapping_variant,
    untag, value_as_str, value_get, value_string, yaml_tree, YamlV,
};

verus! {

/// Identity of a note.
#[derive(Debug, Clone, PartialEq, Eq)]
pub struct VaultielMetadata {
    /// Unique identifier (a UUID).
    pub id: String,
    /// Creation time (RFC 3339).
    pub created: String,
}

/// The string of a value, through its tags.
pub open spec fn str_of(v: Option<YamlV>) -> Option<Seq<char>> {
    match v {
        Some(x) => match untag(x) {
            YamlV::Str(s) => Some(s),
            _ => None,
        },
        None => None,
    }
}

/// The identity a YAML value describes: a (not tagged) mapping whose `id`
/// and `created` keys hold strings.
pub open spec fn metadata_in(v: YamlV) -> Option<(Seq<char>, Seq<char>)> {
    match v {
        YamlV::Mapping(es) => match (str_of(map_get(es, "id"@)), str_of(map_get(es, "created"@))) {
            (Some(i), Some(c)) => Some((i, c)),
            _ => None,
        },
        _ => None,
    }
}

/// The identity a note's content declares under `vaultiel`.
pub open spec fn note_metadata(c: Seq<char>) -> Option<(Seq<char>, Seq<char>)> {
    match spec_frontmatter_value(c) {
        Ok(Some(fm)) => match untag(fm) {
            YamlV::Mapping(es) => match map_get(es, "vaultiel"@) {
                Some(v) => metadata_in(v),
                None => None,
            },
            _ => None,
        },
        _ => None,
    }
}

/// An identity as plain values.
pub open spec fn meta_view(m: VaultielMetadata) -> (Seq<char>, Seq<char>) {
    (m.id@, m.created@)
}

impl VaultielMetadata {
    /// An identity with the given ID and creation time.
    pub fn with_id(id: &str, created: &str) -> (r: VaultielMetadata)
        ensures
            r.id@ == id@,
            r.created@ == created@,
    {
        VaultielMetadata { id: lit(id), created: lit(created) }
    }

    /// The identity a YAML value describes (see [`metadata_in`]).
    pub fn from_yaml(value: &serde_yaml::Value) -> (r: Option<VaultielMetadata>)
        ensures
            match metadata_in(yaml_tree(*value)) {
                Some(m) => r matches Some(x) && meta_view(x) == m,
                None => r is None,
            },
    {
        let map = match mapping_variant(value) {
            Some(m) => m,
            None => {
                return None;
            },
        };
        let id = match mapping_get(map, "id") {
            Some(v) => match value_as_str(v) {
                Some(s) => s,
                None => {
                    return None;
                },
            },
            None => {
                return None;
            },
        };
        let created = match mapping_get(map, "created") {
            Some(v) => match value_as_str(v) {
                Some(s) => s,
                None => {
                    return None;
                },
            },
            None => {
                return None;
            },
        };
        Some(VaultielMetadata { id: id.to_string(), created: created.to_string() })
    }

    /// The identity as a YAML mapping of `id` and `created`.
    pub fn to_yaml(&self) -> (r: serde_yaml::Value)
        ensures
            yaml_tree(r) == YamlV::Mapping(
                seq![(YamlV::Str("id"@), YamlV::Str(self.id@)), (YamlV::Str("created"@), YamlV::Str(self.created@))],
            ),
    {
        proof {
            reveal_strlit("id");
            reveal_strlit("created");
            assert("id"@ != "created"@) by {
                assert("id"@.len() != "created"@.len());
            }
        }
        let mut map = mapping_new();
        let _ = mapping_insert(&mut map, "id", value_string(self.id.clone()));
        let ghost e1 = mapping_entries(map);
        assert(e1 =~= seq![(YamlV::Str("id"@), YamlV::Str(self.id@))]);
        let _ = mapping_insert(&mut map, "created", value_string(self.created.clone()));
        assert(crate::yaml::key_index_from(e1, "created"@, 1) is None);
        assert(crate::yaml::key_index_from(e1, "created"@, 0) is None);
        assert(mapping_entries(map) =~= seq![
            (YamlV::Str("id"@), YamlV::Str(self.id@)),
            (YamlV::Str("created"@), YamlV::Str(self.created@)),
        ]);
        let r = from_mapping(map);
        r
    }
}

/// The identity a note's content declares (see [`note_metadata`]).
pub fn get_metadata(content: &str) -> (r: Option<VaultielMetadata>)
    ensures
        match note_metadata(content@) {
            Some(m) => r matches Some(x) && meta_view(x) == m,
            None => r is None,
        },
{
    match parse_frontmatter(content) {
        Ok(Some(fm)) => match value_get(&fm, "vaultiel") {
            Some(v) => VaultielMetadata::from_yaml(v),
            None => None,
        },
        _ => None,
    }
}

/// The note declares the identity `id`.
pub open spec fn has_id(n: NoteSource, id: Seq<char>) -> bool {
    match n.loaded {
        Ok(c) => note_metadata(c@) matches Some(m) && m.0 == id,
        Err(_) => false,
    }
}

/// The path of the first note (of those that loaded) whose identity has
/// the ID `id`.
pub fn find_by_id(notes: &[NoteSource], id: &str) -> (r: Option<String>)
    ensures
        match r {
            Some(p) => exists|k: int|
                0 <= k < notes@.len() && #[trigger] has_id(notes@[k], id@) && notes@[k].path@ == p@ && forall|m: int|
                    0 <= m < k ==> !has_id(notes@[m], id@),
            None => forall|m: int| 0 <= m < notes@.len() ==> !#[trigger] has_id(notes@[m], id@),
        },
{
    let want = chars_of(id);
    let mut i: usize = 0;
    while i < notes.len()
        invariant
            i <= notes@.len(),
            want@ == id@,
            forall|m: int| 0 <= m < i ==> !#[trigger] has_id(notes@[m], id@),
        decreases notes@.len() - i,
    {
        match &notes[i].loaded {
            Ok(c) => match get_metadata(c.as_str()) {
                Some(m) => {
                    if same_chars(chars_of(m.id.as_str()).as_slice(), want.as_slice()) {
                        assert(has_id(notes@[i as int], id@));
                        return Some(notes[i].path.clone());
                    }
                },
                None => {},
            },
            Err(_) => {},
        }
        i = i + 1;
    }
    None
}

/// The YAML tree of an identity.
pub open spec fn meta_tree(m: (Seq<char>, Seq<char>)) -> YamlV {
    YamlV::Mapping(seq![(YamlV::Str("id"@), YamlV::Str(m.0)), (YamlV::Str("created"@), YamlV::Str(m.1))])
}

/// The frontmatter (through its tags) has a `vaultiel` key.
pub open spec fn has_vaultiel_key(fm: YamlV) -> bool {
    match untag(fm) {
        YamlV::Mapping(es) => map_get(es, "vaultiel"@) is Some,
        _ => false,
    }
}

/// Giving a note the identity `m`: nothing (`None`) when its frontmatter
/// already has a `vaultiel` key and `force` is off; otherwise the content
/// with `vaultiel` set to `m` in its frontmatter mapping (a new mapping
/// when the note has no valid frontmatter; frontmatter that is no mapping
/// is written back as it is), or the error of writing the YAML.
pub open spec fn spec_init_metadata(c: Seq<char>, m: (Seq<char>, Seq<char>), force: bool) -> Result<
    Option<Seq<char>>,
    Seq<char>,
> {
    let fmv = spec_frontmatter_value(c);
    if !force && (fmv matches Ok(Some(fm)) && has_vaultiel_key(fm)) {
        Ok(None)
    } else {
        let fm = match fmv {
            Ok(Some(v)) => v,
            _ => YamlV::Mapping(Seq::empty()),
        };
        let fm2 = match fm {
            YamlV::Mapping(es) => YamlV::Mapping(map_insert(es, "vaultiel"@, meta_tree(m))),
            other => other,
        };
        match crate::parser::frontmatter::spec_update_frontmatter(c, fm2) {
            Ok(x) => Ok(Some(x)),
            Err(e) => Err(e),
        }
    }
}

/// Give a note the identity `metadata` (a fresh ID and the current time,
/// from the caller); see [`spec_init_metadata`]. `None` when the note keeps
/// the identity it has.
pub fn init_metadata(note: &crate::note::Note, metadata: &VaultielMetadata, force: bool) -> (r: Result<
    Option<crate::note::Note>,
    crate::error::VaultError,
>)
    ensures
        match spec_init_metadata(note.content@, meta_view(*metadata), force) {
            Ok(Some(c)) => r matches Ok(Some(n)) && n.path@ == note.path@ && n.content@ == c,
            Ok(None) => r matches Ok(None),
            Err(e) => r matches Err(crate::error::VaultError::YamlParse(x)) && x@ == e,
        },
{
    let parsed = parse_frontmatter(note.content.as_str());
    if !force {
        match &parsed {
            Ok(Some(fm)) => {
                if value_get(fm, "vaultiel").is_some() {
                    return Ok(None);
                }
            },
            _ => {},
        }
    }
    let fm = match parsed {
        Ok(Some(v)) => v,
        _ => from_mapping(mapping_new()),
    };
    let fm2 = match crate::yaml::into_mapping(fm) {
        Ok(mut map) => {
            let _ = mapping_insert(&mut map, "vaultiel", metadata.to_yaml());
            from_mapping(map)
        },
        Err(other) => other,
    };
    match crate::parser::frontmatter::update_frontmatter(note.content.as_str(), &fm2) {
        Ok(c) => Ok(Some(crate::note::Note { path: note.path.clone(), content: c })),
        Err(e) => Err(e),
    }
}

} // verus!
