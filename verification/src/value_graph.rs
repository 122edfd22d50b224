//! The values of a function and the operations over them, as the pointer
//! analyses read them: where each value comes from, which operations use
//! it, and what each operation is to memory.
//!
//! Operations are held by number, as in the context's slab: an erased one
//! is gone. A value is a result of an operation, a parameter of the
//! function, or something else (an argument of an inner block, say).
use vstd::prelude::*;

use crate::effects::OpHandle;
use crate::ids::{OpId, TypeId, ValueId};

verus! {

/// What the pointer analyses need to know of an operation's kind.
#[derive(Clone, Copy, Debug, PartialEq, Eq, Structural)]
pub enum OpClass {
    /// Pointer arithmetic: its first operand is the pointer it offsets.
    PtrAdd,
    /// A module-level global declaration.
    Global,
    Other,
}

/// An operation: its kind, the location it opens as a promotable
/// allocation, its memory interfaces, its operands and its results.
pub struct GraphOp {
    pub class: OpClass,
    pub allocation: Option<ValueId>,
    pub handle: OpHandle,
    pub operands: Vec<ValueId>,
    pub results: Vec<ValueId>,
}

/// Where a value comes from.
#[derive(Clone, Copy, Debug, PartialEq, Eq, Structural)]
pub enum ValueSource {
    /// A result of the operation.
    Result(OpId),
    /// A parameter of the function (a port of its body, or an argument of
    /// the body's entry block), `noalias` where the function says so.
    Parameter { noalias: bool },
    /// Neither: an argument of an inner block or region.
    Other,
}

/// The values of a function and the operations over them.
pub struct ValueGraph {
    /// Operations by number; `None` where erased.
    pub ops: Vec<Option<GraphOp>>,
    /// Where each value comes from, by value number.
    pub sources: Vec<ValueSource>,
    /// The type of each value, by value number.
    pub types: Vec<TypeId>,
    /// The region each value is defined in, by value number.
    pub region_of: Vec<Option<usize>>,
    /// For each region, the values the results of the regions nested in it
    /// (itself included) name.
    pub nested_results: Vec<Vec<ValueId>>,
}

impl ValueGraph {
    /// The live operation numbered `i`.
    pub open spec fn op(&self, i: int) -> Option<GraphOp> {
        if 0 <= i < self.ops@.len() {
            self.ops@[i]
        } else {
            None
        }
    }

    /// Every value named anywhere is a value of the graph, every result
    /// names a live operation, and pointer arithmetic has its pointer.
    pub open spec fn well_formed(&self) -> bool {
        let n = self.sources@.len();
        &&& self.region_of@.len() == n
        &&& self.types@.len() == n
        &&& forall|v: int| 0 <= v < n ==> (#[trigger] self.sources@[v] matches ValueSource::Result(op) ==> self.op(op.0 as int) is Some)
        &&& forall|v: int| 0 <= v < n ==> (#[trigger] self.region_of@[v] matches Some(r) ==> r < self.nested_results@.len())
        &&& forall|i: int| 0 <= i < self.ops@.len() && (#[trigger] self.ops@[i]) is Some ==> op_within(self.ops@[i]->0, n)
    }
}

/// Every value operation `op` names is a value of the graph.
pub open spec fn op_within(op: GraphOp, n: nat) -> bool {
    &&& op.class == OpClass::PtrAdd ==> op.operands@.len() >= 1
    &&& forall|k: int| 0 <= k < op.operands@.len() ==> (#[trigger] op.operands@[k]).0 < n
    &&& forall|k: int| 0 <= k < op.results@.len() ==> (#[trigger] op.results@[k]).0 < n
    &&& op.allocation matches Some(a) ==> a.0 < n
    &&& op.handle.memory_write matches Some(w) ==> w.location.0 < n && w.value.0 < n
    &&& op.handle.memory_read matches Some(r) ==> r.location.0 < n && r.value.0 < n
}

/// Whether `op` uses `v` among its operands.
pub open spec fn uses(op: GraphOp, v: ValueId) -> bool {
    op.operands@.contains(v)
}

/// The location an operation accesses: where it writes if it writes, else
/// where it reads.
pub open spec fn access_location(op: GraphOp) -> Option<ValueId> {
    match op.handle.memory_write {
        Some(w) => Some(w.location),
        None => match op.handle.memory_read {
            Some(r) => Some(r.location),
            None => None,
        },
    }
}

/// How many times `v` occurs among `vals`.
pub open spec fn occurrences(vals: Seq<ValueId>, v: ValueId) -> nat
    decreases vals.len(),
{
    if vals.len() == 0 {
        0
    } else {
        occurrences(vals.drop_last(), v) + if vals.last() == v { 1nat } else { 0nat }
    }
}

pub fn access_location_exec(op: &GraphOp) -> (r: Option<ValueId>)
    ensures
        r == access_location(*op),
{
    match op.handle.memory_write {
        Some(w) => Some(w.location),
        None => match op.handle.memory_read {
            Some(rd) => Some(rd.location),
            None => None,
        },
    }
}

pub fn occurrences_exec(vals: &Vec<ValueId>, v: ValueId) -> (r: usize)
    ensures
        r == occurrences(vals@, v),
{
    let mut count: usize = 0;
    let mut k: usize = 0;
    while k < vals.len()
        invariant
            k <= vals@.len(),
            count == occurrences(vals@.subrange(0, k as int), v),
            count <= k,
        decreases vals.len() - k,
    {
        proof {
            assert(vals@.subrange(0, k + 1).drop_last() =~= vals@.subrange(0, k as int));
        }
        if vals[k] == v {
            count = count + 1;
        }
        k = k + 1;
    }
    assert(vals@.subrange(0, vals@.len() as int) =~= vals@);
    count
}

pub fn uses_exec(op: &GraphOp, v: ValueId) -> (r: bool)
    ensures
        r == uses(*op, v),
{
    let mut k: usize = 0;
    while k < op.operands.len()
        invariant
            k <= op.operands@.len(),
            forall|j: int| 0 <= j < k ==> op.operands@[j] != v,
        decreases op.operands.len() - k,
    {
        if op.operands[k] == v {
            assert(op.operands@[k as int] == v);
            return true;
        }
        k = k + 1;
    }
    false
}

} // verus!
