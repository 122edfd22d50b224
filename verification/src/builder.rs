//! Inserting operations in sequence at a point in a block.
use vstd::prelude::*;

use crate::context::Context;
use crate::ids::{BlockId, OpId};

verus! {

/// Where a builder puts the next operation: a block, and a position in it,
/// or none to append after whatever the block holds when the op arrives.
pub struct IRBuilder {
    pub block: BlockId,
    pub position: Option<usize>,
}

impl IRBuilder {
    /// A builder that appends to the end of `block`.
    pub fn new(block: BlockId) -> (r: IRBuilder)
        ensures
            r.block == block,
            r.position is None,
    {
        IRBuilder { block, position: None }
    }

    /// Put `op` at the insertion point and move the point past it.
    pub fn insert(&mut self, context: &mut Context, op: OpId) -> (r: OpId)
        requires
            old(context).can_edit_block(old(self).block),
            old(context).off_spine(old(self).block, op),
            (op.0 as int) < usize::MAX,
            old(self).position matches Some(p) ==> p < usize::MAX
                && (old(context).spec_block(old(self).block) is Some ==> p <= old(context).block_ops(old(self).block).len()),
        ensures
            r == op,
            final(self).block == old(self).block,
            final(self).position == match old(self).position {
                Some(p) => Some((p + 1) as usize),
                None => None,
            },
            Context::block_changed(old(context).spec_block(old(self).block), final(context).spec_block(old(self).block),
                match old(self).position {
                    Some(p) => old(context).block_ops(old(self).block).insert(p as int, op),
                    None => old(context).block_ops(old(self).block).push(op),
                }),
            forall|b: BlockId| b != old(self).block ==> #[trigger] final(context).spec_block(b) == old(context).spec_block(b),
            forall|o: OpId| #[trigger] final(context).spec_parent_block(o) == if o == op { Some(old(self).block) } else { old(context).spec_parent_block(o) },
            final(context).block_edited(old(context), old(self).block),
            final(context).same_ops(old(context)),
            final(context).same_values(old(context)),
            final(context).same_regions(old(context)),
            final(context).same_counters(old(context)),
    {
        match self.position {
            Some(p) => {
                context.insert_op(self.block, p, op);
                self.position = Some(p + 1);
            },
            None => {
                context.append_op(self.block, op);
            },
        }
        op
    }

    /// Move the insertion point to the start of `block`.
    pub fn set_insertion_point_to_start(&mut self, block: BlockId)
        ensures
            final(self).block == block,
            final(self).position == Some(0usize),
    {
        self.block = block;
        self.position = Some(0);
    }
}

} // verus!
