//! Filtering of links by kind and context.

use vstd::prelude::*;
use crate::graph::link_graph::{IncomingLink, LinkInfo};
use crate::graph::resolution::{get_media_type, is_media_target, spec_media_type};
use crate::text::lit;
use crate::text::{chars_of, ends_with_str, has_prefix, has_suffix, same_chars, starts_with_str, sub_vec};
use crate::types::context_text;

verus! {

/// Which links a listing shows.
#[derive(Debug, Clone)]
pub struct LinkFilter {
    /// Only links whose context matches this pattern.
    pub context: Option<String>,
    /// Only embeds.
    pub embeds_only: bool,
    /// No embeds.
    pub no_embeds: bool,
    /// Only media embeds.
    pub media_only: bool,
    /// Only embeds of notes.
    pub notes_only: bool,
}

/// A context matches a pattern: `*` matches all; `prefix*` and `*suffix`
/// match by prefix and suffix; any other pattern matches itself.
pub open spec fn spec_context_matches(context: Seq<char>, pattern: Seq<char>) -> bool {
    if pattern == "*"@ {
        true
    } else if has_suffix(pattern, "*"@) {
        has_prefix(context, pattern.subrange(0, pattern.len() - 1))
    } else if has_prefix(pattern, "*"@) {
        has_suffix(context, pattern.subrange(1, pattern.len() as int))
    } else {
        context == pattern
    }
}

/// Whether a context matches a pattern (with `*` wildcards at either end).
pub fn context_matches(context: &str, pattern: &str) -> (r: bool)
    ensures
        r == spec_context_matches(context@, pattern@),
{
    let p = chars_of(pattern);
    let c = chars_of(context);
    proof {
        reveal_strlit("*");
    }
    if same_chars(p.as_slice(), chars_of("*").as_slice()) {
        return true;
    }
    if ends_with_str(p.as_slice(), "*") {
        let prefix = sub_vec(&p, 0, p.len() - 1);
        crate::text::matches_at(c.as_slice(), 0, prefix.as_slice())
    } else if starts_with_str(p.as_slice(), "*") {
        let suffix = sub_vec(&p, 1, p.len());
        if suffix.len() > c.len() {
            return false;
        }
        crate::text::matches_at(c.as_slice(), c.len() - suffix.len(), suffix.as_slice())
    } else {
        same_chars(c.as_slice(), p.as_slice())
    }
}

/// The context filter passes.
pub open spec fn context_passes(pattern: Option<String>, ctx: crate::types::LinkContext) -> bool {
    match pattern {
        Some(p) => spec_context_matches(context_text(ctx), p@),
        None => true,
    }
}

impl LinkFilter {
    /// Whether an outgoing link passes the filter.
    pub fn matches_outgoing(&self, link: &LinkInfo) -> (r: bool)
        ensures
            r == (!(self.embeds_only && !link.link.embed) && !(self.no_embeds && link.link.embed)
                && !(self.media_only && (!link.link.embed || spec_media_type(link.link.target@) is None))
                && !(self.notes_only && (!link.link.embed || spec_media_type(link.link.target@) is Some))
                && context_passes(self.context, link.context)),
    {
        if self.embeds_only && !link.link.embed {
            return false;
        }
        if self.no_embeds && link.link.embed {
            return false;
        }
        if self.media_only {
            if !link.link.embed || !is_media_target(link.link.target.as_str()) {
                return false;
            }
        }
        if self.notes_only {
            if !link.link.embed || is_media_target(link.link.target.as_str()) {
                return false;
            }
        }
        match &self.context {
            Some(pattern) => {
                let ctx = link.context.as_string();
                context_matches(ctx.as_str(), pattern.as_str())
            },
            None => true,
        }
    }

    /// Whether an incoming link passes the filter (media settings do not
    /// apply to incoming links).
    pub fn matches_incoming(&self, link: &IncomingLink) -> (r: bool)
        ensures
            r == (!(self.embeds_only && !link.link.embed) && !(self.no_embeds && link.link.embed)
                && context_passes(self.context, link.context)),
    {
        if self.embeds_only && !link.link.embed {
            return false;
        }
        if self.no_embeds && link.link.embed {
            return false;
        }
        match &self.context {
            Some(pattern) => {
                let ctx = link.context.as_string();
                context_matches(ctx.as_str(), pattern.as_str())
            },
            None => true,
        }
    }
}

/// An embed of a note, as the embeds listing shows it.
#[derive(Debug, Clone)]
pub struct EmbedOutput {
    pub target: String,
    pub line: usize,
    /// `note`, or the media type (`image`, `audio`, ...).
    pub embed_type: String,
    pub heading: Option<String>,
    pub block_id: Option<String>,
    /// The alias, when it is made of digits and `x` only (dimensions).
    pub size: Option<String>,
}

/// An embed as plain values.
pub type EmbedV = (Seq<char>, int, Seq<char>, Option<Seq<char>>, Option<Seq<char>>, Option<Seq<char>>);

pub open spec fn ostr(o: Option<String>) -> Option<Seq<char>> {
    match o {
        Some(t) => Some(t@),
        None => None,
    }
}

pub open spec fn embed_view(e: EmbedOutput) -> EmbedV {
    (e.target@, e.line as int, e.embed_type@, ostr(e.heading), ostr(e.block_id), ostr(e.size))
}

/// An embed passes the media/notes choice.
pub open spec fn embed_shown(l: LinkInfo, media_only: bool, notes_only: bool) -> bool {
    l.link.embed && if media_only {
        spec_media_type(l.link.target@) is Some
    } else if notes_only {
        spec_media_type(l.link.target@) is None
    } else {
        true
    }
}

/// Every character is an ASCII digit or `x`.
pub open spec fn dims_text(a: Seq<char>) -> bool {
    forall|i: int| 0 <= i < a.len() ==> ('0' <= #[trigger] a[i] <= '9' || a[i] == 'x')
}

/// What the listing shows of an embed.
pub open spec fn embed_of(l: LinkInfo) -> EmbedV {
    let t = l.link.target@;
    (
        t,
        l.link.line as int,
        match spec_media_type(t) {
            Some(m) => m,
            None => "note"@,
        },
        ostr(l.link.heading),
        ostr(l.link.block_id),
        match ostr(l.link.alias) {
            Some(a) => if dims_text(a) {
                Some(a)
            } else {
                None
            },
            None => None,
        },
    )
}

/// The embeds among the outgoing links `ls`, in order.
pub open spec fn embeds_of(ls: Seq<LinkInfo>, media_only: bool, notes_only: bool) -> Seq<EmbedV>
    decreases ls.len(),
{
    if ls.len() == 0 {
        Seq::empty()
    } else {
        embeds_of(ls.drop_last(), media_only, notes_only) + if embed_shown(ls.last(), media_only, notes_only) {
            seq![embed_of(ls.last())]
        } else {
            Seq::<EmbedV>::empty()
        }
    }
}

fn dims_exec(a: &str) -> (r: bool)
    ensures
        r == dims_text(a@),
{
    let v = chars_of(a);
    let mut i: usize = 0;
    while i < v.len()
        invariant
            i <= v@.len(),
            v@ == a@,
            forall|k: int| 0 <= k < i ==> ('0' <= #[trigger] v@[k] <= '9' || v@[k] == 'x'),
        decreases v@.len() - i,
    {
        if !(('0' <= v[i] && v[i] <= '9') || v[i] == 'x') {
            return false;
        }
        i = i + 1;
    }
    true
}

fn clone_ostr(o: &Option<String>) -> (r: Option<String>)
    ensures
        ostr(r) == ostr(*o),
{
    match o {
        Some(t) => Some(t.clone()),
        None => None,
    }
}

/// The embeds of a note given its outgoing links: embeds only, then media
/// only or notes only when asked, each with its type and, from its alias,
/// its size.
pub fn get_embeds(outgoing: &Vec<&LinkInfo>, media_only: bool, notes_only: bool) -> (r: Vec<EmbedOutput>)
    ensures
        r@.map_values(|e: EmbedOutput| embed_view(e)) == embeds_of(
            outgoing@.map_values(|l: &LinkInfo| *l),
            media_only,
            notes_only,
        ),
{
    let ghost ls = outgoing@.map_values(|l: &LinkInfo| *l);
    let mut out: Vec<EmbedOutput> = Vec::new();
    let mut i: usize = 0;
    while i < outgoing.len()
        invariant
            i <= outgoing@.len(),
            ls == outgoing@.map_values(|l: &LinkInfo| *l),
            out@.map_values(|e: EmbedOutput| embed_view(e)) == embeds_of(ls.subrange(0, i as int), media_only, notes_only),
        decreases outgoing@.len() - i,
    {
        let l = outgoing[i];
        assert(ls.subrange(0, i + 1).drop_last() =~= ls.subrange(0, i as int));
        assert(ls.subrange(0, i + 1).last() == *l);
        let media = is_media_target(l.link.target.as_str());
        let shown = l.link.embed && if media_only {
            media
        } else if notes_only {
            !media
        } else {
            true
        };
        if shown {
            let embed_type = match get_media_type(l.link.target.as_str()) {
                Some(m) => lit(m),
                None => lit("note"),
            };
            let size = match &l.link.alias {
                Some(a) => if dims_exec(a.as_str()) {
                    Some(a.clone())
                } else {
                    None
                },
                None => None,
            };
            let e = EmbedOutput {
                target: l.link.target.clone(),
                line: l.link.line,
                embed_type,
                heading: clone_ostr(&l.link.heading),
                block_id: clone_ostr(&l.link.block_id),
                size,
            };
            assert(embed_view(e) == embed_of(*l));
            out.push(e);
        }
        assert(out@.map_values(|e: EmbedOutput| embed_view(e)) =~= embeds_of(ls.subrange(0, i + 1), media_only, notes_only));
        i = i + 1;
    }
    assert(ls.subrange(0, outgoing@.len() as int) =~= ls);
    out
}

} // verus!
