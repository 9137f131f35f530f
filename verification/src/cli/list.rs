//! Listing notes by glob pattern.

use vstd::prelude::*;
use crate::error::VaultError;

verus! {

/// The text of the error that `glob::Pattern::new` gives for a pattern, or
/// none when the pattern is valid.
pub uninterp spec fn glob_error(pattern: Seq<char>) -> Option<Seq<char>>;

/// Whether a valid glob pattern matches a path (`glob::Pattern::matches`).
pub uninterp spec fn glob_match(pattern: Seq<char>, path: Seq<char>) -> bool;

/// `glob::Pattern::new`: the error's `Display` text, if the pattern is
/// invalid.
#[verifier::external_body]
fn glob_check(pattern: &str) -> (r: Option<String>)
    ensures
        match glob_error(pattern@) {
            Some(e) => r matches Some(x) && x@ == e,
            None => r is None,
        },
{
    glob::Pattern::new(pattern).err().map(|e| e.to_string())
}

/// `glob::Pattern::new(pattern)` then `Pattern::matches(path)`.
#[verifier::external_body]
fn glob_matches(pattern: &str, path: &str) -> (r: bool)
    requires
        glob_error(pattern@) is None,
    ensures
        r == glob_match(pattern@, path@),
{
    match glob::Pattern::new(pattern) {
        Ok(p) => p.matches(path),
        Err(_) => false,
    }
}

/// The texts of strings.
pub open spec fn paths_view(v: Seq<String>) -> Seq<Seq<char>> {
    v.map_values(|s: String| s@)
}

/// The notes whose path a pattern matches, in order.
pub open spec fn matching(notes: Seq<Seq<char>>, pattern: Seq<char>) -> Seq<Seq<char>>
    decreases notes.len(),
{
    if notes.len() == 0 {
        Seq::empty()
    } else {
        matching(notes.drop_last(), pattern) + if glob_match(pattern, notes.last()) {
            seq![notes.last()]
        } else {
            Seq::<Seq<char>>::empty()
        }
    }
}

/// The notes (paths relative to the vault root) that a glob pattern
/// matches, in order; the pattern's error when it is invalid.
pub fn notes_matching(notes: &Vec<String>, pattern: &str) -> (r: Result<Vec<String>, VaultError>)
    ensures
        match glob_error(pattern@) {
            Some(e) => r matches Err(VaultError::GlobPattern(m)) && m@ == e,
            None => r matches Ok(v) && paths_view(v@) == matching(paths_view(notes@), pattern@),
        },
{
    match glob_check(pattern) {
        Some(e) => Err(VaultError::GlobPattern(e)),
        None => {
            let ghost ns = paths_view(notes@);
            let mut out: Vec<String> = Vec::new();
            let mut i: usize = 0;
            while i < notes.len()
                invariant
                    i <= notes@.len(),
                    ns == paths_view(notes@),
                    glob_error(pattern@) is None,
                    paths_view(out@) == matching(ns.subrange(0, i as int), pattern@),
                decreases notes@.len() - i,
            {
                assert(ns.subrange(0, i + 1).drop_last() =~= ns.subrange(0, i as int));
                assert(ns.subrange(0, i + 1).last() == notes@[i as int]@);
                if glob_matches(pattern, notes[i].as_str()) {
                    out.push(notes[i].clone());
                }
                assert(paths_view(out@) =~= matching(ns.subrange(0, i + 1), pattern@));
                i = i + 1;
            }
            assert(ns.subrange(0, notes@.len() as int) =~= ns);
            Ok(out)
        },
    }
}

} // verus!
