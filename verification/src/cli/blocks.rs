//! References to the block IDs of a note.

use vstd::prelude::*;
use crate::graph::link_graph::{ilink_refs, IncomingLink};
use crate::parser::block_id::{blocks_view, parse_block_ids, spec_block_ids};
use crate::text::{chars_of, same_chars};
use crate::types::{context_text, BlockType};

verus! {

/// A link into one of a note's blocks.
#[derive(Debug, Clone, PartialEq, Eq)]
pub struct BlockRef {
    /// The referenced block ID.
    pub block_id: String,
    /// Path of the note that holds the link.
    pub from: String,
    /// Line of the link in that note.
    pub line: usize,
    /// Where the link appears, as text (`body`, `task`, ...).
    pub context: String,
}

/// A block reference as plain values.
pub open spec fn block_ref_view(b: BlockRef) -> (Seq<char>, Seq<char>, int, Seq<char>) {
    (b.block_id@, b.from@, b.line as int, b.context@)
}

/// Block references as plain values.
pub open spec fn block_refs_view(v: Seq<BlockRef>) -> Seq<(Seq<char>, Seq<char>, int, Seq<char>)> {
    v.map_values(|b: BlockRef| block_ref_view(b))
}

/// `id` is one of the block IDs listed.
pub open spec fn has_block_id(ids: Seq<(Seq<char>, int, BlockType)>, id: Seq<char>) -> bool {
    exists|i: int| 0 <= i < ids.len() && (#[trigger] ids[i]).0 == id
}

/// The incoming links that name a block ID of the note with content `c`,
/// in order, each as its block ID, source note, line and context.
pub open spec fn spec_block_refs(c: Seq<char>, inc: Seq<IncomingLink>) -> Seq<(Seq<char>, Seq<char>, int, Seq<char>)>
    decreases inc.len(),
{
    if inc.len() == 0 {
        Seq::empty()
    } else {
        let l = inc.last();
        spec_block_refs(c, inc.drop_last()) + match l.link.block_id {
            Some(b) => if has_block_id(spec_block_ids(c), b@) {
                seq![(b@, l.from@, l.link.line as int, context_text(l.context))]
            } else {
                Seq::empty()
            },
            None => Seq::empty(),
        }
    }
}

/// The references to the blocks of a note with content `content`, among the
/// links `incoming` into it: those whose block ID is one of the note's, in
/// order.
pub fn block_refs(content: &str, incoming: &Vec<&IncomingLink>) -> (r: Vec<BlockRef>)
    ensures
        block_refs_view(r@) == spec_block_refs(content@, ilink_refs(incoming@)),
{
    let blocks = parse_block_ids(content);
    let ghost ids = blocks_view(blocks@);
    let ghost inc = ilink_refs(incoming@);
    let mut r: Vec<BlockRef> = Vec::new();
    let mut i: usize = 0;
    while i < incoming.len()
        invariant
            i <= incoming@.len(),
            ids == blocks_view(blocks@),
            ids == spec_block_ids(content@),
            inc == ilink_refs(incoming@),
            block_refs_view(r@) == spec_block_refs(content@, inc.subrange(0, i as int)),
        decreases incoming@.len() - i,
    {
        let l: &IncomingLink = incoming[i];
        let ghost before = r@;
        proof {
            assert(inc.subrange(0, i + 1).drop_last() =~= inc.subrange(0, i as int));
            assert(inc.subrange(0, i + 1).last() == *l);
        }
        match &l.link.block_id {
            Some(b) => {
                let bc = chars_of(b.as_str());
                let mut found = false;
                let mut k: usize = 0;
                while k < blocks.len()
                    invariant
                        k <= blocks@.len(),
                        ids == blocks_view(blocks@),
                        bc@ == b@,
                        found == exists|x: int| 0 <= x < k && (#[trigger] ids[x]).0 == b@,
                    decreases blocks@.len() - k,
                {
                    let c = chars_of(blocks[k].id.as_str());
                    if same_chars(c.as_slice(), bc.as_slice()) {
                        found = true;
                    }
                    assert(ids[k as int].0 == blocks@[k as int].id@);
                    k = k + 1;
                }
                if found {
                    let e = BlockRef {
                        block_id: b.clone(),
                        from: l.from.clone(),
                        line: l.link.line,
                        context: l.context.as_string(),
                    };
                    r.push(e);
                    proof {
                        assert(block_refs_view(r@) =~= block_refs_view(before).push(block_ref_view(e)));
                    }
                } else {
                    assert(block_refs_view(r@) =~= spec_block_refs(content@, inc.subrange(0, i + 1)));
                }
            },
            None => {
                assert(block_refs_view(r@) =~= spec_block_refs(content@, inc.subrange(0, i + 1)));
            },
        }
        i = i + 1;
    }
    assert(inc.subrange(0, incoming@.len() as int) =~= inc);
    r
}

} // verus!
