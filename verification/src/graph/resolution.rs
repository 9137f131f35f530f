//! Link target resolution.
//!
//! A link resolves in this order:
//! 1. exact path match (when the target contains `/`);
//! 2. file name match, ignoring case;
//! 3. alias match from frontmatter.

use vstd::prelude::*;
use crate::str_map::StrMap;
use crate::text::{
    chars_of, ends_with_str, file_stem_of, find_char, find_char_from, has_suffix,
    lit, path_file_stem, same_chars, str_lowercase, string_of, sub_vec, to_lowercase,
};

verus! {

/// The part of a link target before its first `#`.
pub open spec fn before_hash(t: Seq<char>) -> Seq<char> {
    match find_char_from(t, '#', 0) {
        Some(i) => t.subrange(0, i),
        None => t,
    }
}

/// The target with a `.md` extension (kept when its lowercase form already
/// ends with `.md`).
pub open spec fn with_md(t: Seq<char>) -> Seq<char> {
    if has_suffix(str_lowercase(t), ".md"@) {
        t
    } else {
        t + ".md"@
    }
}

/// The lowercase target without a trailing `.md`.
pub open spec fn lower_stem(t: Seq<char>) -> Seq<char> {
    let l = str_lowercase(t);
    if has_suffix(l, ".md"@) {
        l.subrange(0, l.len() - 3)
    } else {
        l
    }
}

/// Note `n`'s file stem, lowercased, is `stem`.
pub open spec fn stem_matches(n: Seq<char>, stem: Seq<char>) -> bool {
    match path_file_stem(n) {
        Some(x) => str_lowercase(x) == stem,
        None => false,
    }
}

/// The first note (in list order) whose lowercase stem is `stem`.
pub open spec fn first_stem_match(notes: Seq<Seq<char>>, stem: Seq<char>) -> Option<Seq<char>>
    decreases notes.len(),
{
    if notes.len() == 0 {
        None
    } else if stem_matches(notes[0], stem) {
        Some(notes[0])
    } else {
        first_stem_match(notes.drop_first(), stem)
    }
}

/// Where a link target resolves among the vault's notes `notes`, with the
/// lowercase aliases `aliases`.
pub open spec fn spec_resolve(
    target: Seq<char>,
    notes: Seq<Seq<char>>,
    aliases: Map<Seq<char>, String>,
) -> Option<Seq<char>> {
    let t = before_hash(target);
    if find_char_from(t, '/', 0) is Some && notes.contains(with_md(t)) {
        Some(with_md(t))
    } else {
        resolve_by_name(t, notes, aliases)
    }
}

/// Resolution by file name, then by alias.
pub open spec fn resolve_by_name(
    t: Seq<char>,
    notes: Seq<Seq<char>>,
    aliases: Map<Seq<char>, String>,
) -> Option<Seq<char>> {
    match first_stem_match(notes, lower_stem(t)) {
        Some(n) => Some(n),
        None => if aliases.contains_key(str_lowercase(t)) {
            Some(aliases[str_lowercase(t)]@)
        } else {
            None
        },
    }
}

pub open spec fn strings_view(v: Seq<String>) -> Seq<Seq<char>> {
    v.map_values(|s: String| s@)
}

fn note_listed(notes: &[String], path: &Vec<char>) -> (r: bool)
    ensures
        r == strings_view(notes@).contains(path@),
{
    let mut k: usize = 0;
    while k < notes.len()
        invariant
            k <= notes@.len(),
            forall|m: int| 0 <= m < k ==> (#[trigger] notes@[m])@ != path@,
        decreases notes@.len() - k,
    {
        if same_chars(chars_of(notes[k].as_str()).as_slice(), path.as_slice()) {
            assert(strings_view(notes@)[k as int] == path@);
            return true;
        }
        k = k + 1;
    }
    proof {
        if strings_view(notes@).contains(path@) {
            let m = choose|m: int| 0 <= m < notes@.len() && strings_view(notes@)[m] == path@;
            assert(notes@[m]@ == path@);
        }
    }
    false
}

/// Resolve a link target to the path of a note of the vault.
///
/// `notes` lists the vault's notes; `aliases` maps lowercase aliases to
/// note paths. `None` means a broken link.
pub fn resolve_link_target(target: &str, notes: &[String], aliases: &StrMap<String>) -> (r: Option<String>)
    requires
        aliases.wf(),
    ensures
        match spec_resolve(target@, strings_view(notes@), aliases.view()) {
            Some(p) => r matches Some(x) && x@ == p,
            None => r is None,
        },
{
    let tc = chars_of(target);
    let t = match find_char(tc.as_slice(), '#', 0) {
        Some(i) => {
            proof {
                crate::text::lemma_find_char_found(tc@, '#', 0);
            }
            sub_vec(&tc, 0, i)
        },
        None => tc,
    };
    let ts = string_of(t.as_slice());
    let lower = chars_of(to_lowercase(ts.as_str()).as_str());
    let has_md = ends_with_str(lower.as_slice(), ".md");
    let with_ext = if has_md {
        t.clone()
    } else {
        let mut w = t.clone();
        let md = chars_of(".md");
        crate::text::append_chars(&mut w, md.as_slice());
        w
    };
    proof {
        assert(t@ == before_hash(target@));
        assert(with_ext@ == with_md(t@));
    }
    if find_char(t.as_slice(), '/', 0).is_some() {
        if note_listed(notes, &with_ext) {
            return Some(string_of(with_ext.as_slice()));
        }
    }
    proof {
        reveal_strlit(".md");
    }
    let stem = if has_md {
        sub_vec(&lower, 0, lower.len() - 3)
    } else {
        lower.clone()
    };
    assert(stem@ == lower_stem(t@));
    assert(strings_view(notes@).subrange(0, notes@.len() as int) == strings_view(notes@));
    assert(spec_resolve(target@, strings_view(notes@), aliases.view()) == resolve_by_name(
        t@,
        strings_view(notes@),
        aliases.view(),
    ));
    let mut k: usize = 0;
    while k < notes.len()
        invariant
            k <= notes@.len(),
            stem@ == lower_stem(t@),
            lower@ == str_lowercase(t@),
            spec_resolve(target@, strings_view(notes@), aliases.view()) == resolve_by_name(
                t@,
                strings_view(notes@),
                aliases.view(),
            ),
            first_stem_match(strings_view(notes@).subrange(k as int, notes@.len() as int), stem@)
                == first_stem_match(strings_view(notes@), stem@),
        decreases notes@.len() - k,
    {
        let ghost rest = strings_view(notes@).subrange(k as int, notes@.len() as int);
        assert(rest.drop_first() == strings_view(notes@).subrange(k + 1, notes@.len() as int));
        match file_stem_of(notes[k].as_str()) {
            Some(st) => {
                let sl = chars_of(to_lowercase(st.as_str()).as_str());
                if same_chars(sl.as_slice(), stem.as_slice()) {
                    assert(rest[0] == notes@[k as int]@);
                    assert(stem_matches(rest[0], stem@));
                    return Some(notes[k].clone());
                }
            },
            None => {},
        }
        k = k + 1;
    }
    assert(strings_view(notes@).subrange(k as int, notes@.len() as int) =~= Seq::<Seq<char>>::empty());
    let key = string_of(lower.as_slice());
    match aliases.get(key.as_str()) {
        Some(p) => Some(p.clone()),
        None => None,
    }
}

/// The media type of a target, by its extension (ignoring case).
pub open spec fn spec_media_type(target: Seq<char>) -> Option<Seq<char>> {
    let l = str_lowercase(target);
    if has_suffix(l, ".png"@) || has_suffix(l, ".jpg"@) || has_suffix(l, ".jpeg"@) || has_suffix(
        l,
        ".gif"@,
    ) || has_suffix(l, ".webp"@) || has_suffix(l, ".svg"@) || has_suffix(l, ".bmp"@) {
        Some("image"@)
    } else if has_suffix(l, ".mp3"@) || has_suffix(l, ".wav"@) || has_suffix(l, ".ogg"@)
        || has_suffix(l, ".m4a"@) || has_suffix(l, ".flac"@) {
        Some("audio"@)
    } else if has_suffix(l, ".mp4"@) || has_suffix(l, ".webm"@) || has_suffix(l, ".mov"@)
        || has_suffix(l, ".avi"@) {
        Some("video"@)
    } else if has_suffix(l, ".pdf"@) {
        Some("pdf"@)
    } else {
        None
    }
}

/// Whether a target looks like a media file (image, audio, video, PDF).
pub fn is_media_target(target: &str) -> (r: bool)
    ensures
        r == spec_media_type(target@) is Some,
{
    let l = chars_of(to_lowercase(target).as_str());
    let s = l.as_slice();
    ends_with_str(s, ".png") || ends_with_str(s, ".jpg") || ends_with_str(s, ".jpeg")
        || ends_with_str(s, ".gif") || ends_with_str(s, ".webp") || ends_with_str(s, ".svg")
        || ends_with_str(s, ".bmp") || ends_with_str(s, ".mp3") || ends_with_str(s, ".wav")
        || ends_with_str(s, ".ogg") || ends_with_str(s, ".m4a") || ends_with_str(s, ".flac")
        || ends_with_str(s, ".mp4") || ends_with_str(s, ".webm") || ends_with_str(s, ".mov")
        || ends_with_str(s, ".avi") || ends_with_str(s, ".pdf")
}

/// The media type of a target: `image`, `audio`, `video` or `pdf`.
pub fn get_media_type(target: &str) -> (r: Option<&'static str>)
    ensures
        match spec_media_type(target@) {
            Some(m) => r matches Some(x) && x@ == m,
            None => r is None,
        },
{
    let l = chars_of(to_lowercase(target).as_str());
    let s = l.as_slice();
    if ends_with_str(s, ".png") || ends_with_str(s, ".jpg") || ends_with_str(s, ".jpeg")
        || ends_with_str(s, ".gif") || ends_with_str(s, ".webp") || ends_with_str(s, ".svg")
        || ends_with_str(s, ".bmp") {
        Some("image")
    } else if ends_with_str(s, ".mp3") || ends_with_str(s, ".wav") || ends_with_str(s, ".ogg")
        || ends_with_str(s, ".m4a") || ends_with_str(s, ".flac") {
        Some("audio")
    } else if ends_with_str(s, ".mp4") || ends_with_str(s, ".webm") || ends_with_str(s, ".mov")
        || ends_with_str(s, ".avi") {
        Some("video")
    } else if ends_with_str(s, ".pdf") {
        Some("pdf")
    } else {
        None
    }
}

} // verus!
