//! Which operations the selection view reads as memory accesses, and which it
//! renders as terms.
use vstd::prelude::*;

use crate::effects::OpHandle;

verus! {

/// What the selection view needs to know of an operation's shape: its
/// result count, and whether it is a terminator, constant-like, or has
/// semantics saying what it computes.
#[derive(Clone, Copy, Debug, PartialEq, Eq, Structural)]
pub struct OpShape {
    pub result_count: usize,
    pub is_terminator: bool,
    pub is_constant_like: bool,
    pub has_semantics: bool,
}

/// Whether `op` reads or writes memory through its interfaces.
pub fn accesses_memory(op: &OpHandle) -> (r: bool)
    ensures
        r == (op.memory_read is Some || op.memory_write is Some),
{
    op.memory_read.is_some() || op.memory_write.is_some()
}

/// Whether the view renders `op` as a term: one value result computed from
/// its operands, and semantics saying what it computes. A terminator is
/// control flow, which the view does not model.
pub fn renders(op: &OpShape) -> (r: bool)
    ensures
        r == (op.result_count == 1 && !op.is_terminator && (op.is_constant_like || op.has_semantics)),
{
    if op.result_count != 1 || op.is_terminator {
        return false;
    }
    if op.is_constant_like {
        return true;
    }
    op.has_semantics
}

} // verus!
