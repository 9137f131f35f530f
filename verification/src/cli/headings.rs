//! Headings of a note as a nested outline.

use vstd::prelude::*;
use crate::parser::heading::{lemma_section_end_bounds, section_end, section_end_exec};
use crate::types::Heading;

verus! {

/// A heading with the headings nested under it.
#[derive(Debug)]
pub struct NestedHeading {
    pub text: String,
    pub level: u8,
    pub line: usize,
    pub slug: String,
    pub children: Vec<NestedHeading>,
}

/// A nested heading carries the fields of a heading.
pub open spec fn node_is(n: NestedHeading, h: Heading) -> bool {
    n.text@ == h.text@ && n.level == h.level && n.line == h.line && n.slug@ == h.slug@
}

/// `r` is the outline of headings `lo..hi`: the first heading, with the
/// outline of the deeper headings that follow it (up to the next heading at
/// its level or above) as its children, then the outline of the rest.
pub open spec fn outline_is(r: Seq<NestedHeading>, hs: Seq<Heading>, lo: int, hi: int) -> bool
    decreases hi - lo,
{
    if lo >= hi {
        r.len() == 0
    } else {
        let k = section_end(hs, hs[lo].level, lo + 1, hi);
        proof {
            lemma_section_end_bounds(hs, hs[lo].level, lo + 1, hi);
        }
        &&& r.len() > 0
        &&& node_is(r[0], hs[lo])
        &&& outline_is(r[0].children@, hs, lo + 1, k)
        &&& outline_is(r.subrange(1, r.len() as int), hs, k, hi)
    }
}

fn outline_range(hs: &[Heading], lo: usize, hi: usize) -> (r: Vec<NestedHeading>)
    requires
        lo <= hi <= hs@.len(),
    ensures
        outline_is(r@, hs@, lo as int, hi as int),
    decreases hi - lo,
{
    if lo >= hi {
        return Vec::new();
    }
    let h = &hs[lo];
    let k = section_end_exec(hs, h.level, lo + 1, hi);
    proof {
        lemma_section_end_bounds(hs@, h.level, lo + 1, hi as int);
    }
    let children = outline_range(hs, lo + 1, k);
    let mut rest = outline_range(hs, k, hi);
    let node = NestedHeading {
        text: h.text.clone(),
        level: h.level,
        line: h.line,
        slug: h.slug.clone(),
        children,
    };
    let mut out: Vec<NestedHeading> = Vec::new();
    out.push(node);
    let ghost rv = rest@;
    out.append(&mut rest);
    proof {
        assert(out@.subrange(1, out@.len() as int) =~= rv);
    }
    out
}

/// The headings as an outline: each heading holds the deeper headings that
/// follow it, up to the next heading at its level or above.
pub fn build_nested_headings(headings: &[Heading]) -> (r: Vec<NestedHeading>)
    ensures
        outline_is(r@, headings@, 0, headings@.len() as int),
{
    outline_range(headings, 0, headings.len())
}

} // verus!
