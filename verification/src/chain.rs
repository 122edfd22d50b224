//! One step back along a memory chain: the state a state carries on from.
//!
//! Where that step lands is [`back`]'s to say; what to make of a merge or of
//! a port is the walker's own fold, since a root, a value and a refusal are
//! different answers to different questions.
//!
//! The graph is held as plain values: where each value comes from (a
//! result, a region port, a block argument), each region's ports and the op
//! owning it, each block's region and arguments, and for each operation
//! what the chain walk reads of it.
use vstd::prelude::*;

use crate::effects::{access_of, spec_access_of, OpHandle};
use crate::ids::{copy_vec, OpId, ValueId};

verus! {

/// What a state carries on from.
#[derive(Debug, Clone, PartialEq, Eq)]
pub enum Step {
    /// The chain opens here: an entry state, an allocation, or a state
    /// nothing in the IR says more about.
    Root,
    /// The one state it carries on from.
    From(ValueId),
    /// The states a merge brings together, the changer's own chain first.
    Merge(Vec<ValueId>),
    /// A state a structured `op` names at `index` of its dependency
    /// partition: the port a region is entered on when `entering`, the state
    /// the op left otherwise.
    Port { op: OpId, index: usize, entering: bool },
}

/// Where a value comes from.
#[derive(Clone, Copy, Debug, PartialEq, Eq, Structural)]
pub enum StateSource {
    /// A result of the operation.
    Result(OpId),
    /// A port of the region (by number).
    Port(usize),
    /// An argument of the block (by number).
    BlockArg(usize),
    Other,
}

/// A region: the op owning it, its dependency ports and its value ports.
#[derive(Debug, Clone, PartialEq, Eq)]
pub struct ChainRegion {
    pub parent: Option<OpId>,
    pub dep_arguments: Vec<ValueId>,
    pub value_arguments: Vec<ValueId>,
}

/// A block: its region and its arguments.
#[derive(Debug, Clone, PartialEq, Eq)]
pub struct ChainBlock {
    pub region: Option<usize>,
    pub arguments: Vec<ValueId>,
}

/// What a chain walk needs to know of an operation's kind.
#[derive(Clone, Copy, Debug, PartialEq, Eq, Structural)]
pub enum ChainKind {
    /// Brings chains together.
    Join,
    /// Hands the chains an effect crossed back one by one.
    Split,
    Other,
}

/// Which value operands of a structured op feed which value ports of its
/// regions: operand `operands_start + i` feeds port `ports_start + i`.
#[derive(Clone, Copy, Debug, PartialEq, Eq, Structural)]
pub struct PortBinding {
    pub operands_start: usize,
    pub ports_start: usize,
}

/// Whether an op is a loop (its carried binding), a gate (its forwarded
/// binding), or neither.
#[derive(Clone, Copy, Debug, PartialEq, Eq, Structural)]
pub enum Structure {
    Theta(PortBinding),
    Gamma(PortBinding),
    Plain,
}

/// An operation as the chain walk reads it.
pub struct ChainOp {
    pub kind: ChainKind,
    pub structure: Structure,
    pub handle: OpHandle,
    pub operands: Vec<ValueId>,
    pub dep_operands: Vec<ValueId>,
    pub dep_results: Vec<ValueId>,
    pub value_operands: Vec<ValueId>,
}

/// The values of a function and what the chain walk reads of them.
pub struct ChainGraph {
    /// Operations by number; `None` where erased.
    pub ops: Vec<Option<ChainOp>>,
    /// Where each value comes from, by value number.
    pub values: Vec<StateSource>,
    pub regions: Vec<ChainRegion>,
    pub blocks: Vec<ChainBlock>,
}

impl ChainGraph {
    pub open spec fn op(&self, id: OpId) -> Option<ChainOp> {
        if (id.0 as int) < self.ops@.len() {
            self.ops@[id.0 as int]
        } else {
            None
        }
    }

    pub open spec fn source(&self, v: ValueId) -> StateSource {
        if (v.0 as int) < self.values@.len() {
            self.values@[v.0 as int]
        } else {
            StateSource::Other
        }
    }

    /// Every operation a value, a region or a block names exists, and so do
    /// the regions and blocks named.
    pub open spec fn well_formed(&self) -> bool {
        &&& forall|v: int| 0 <= v < self.values@.len() ==> match #[trigger] self.values@[v] {
            StateSource::Result(op) => self.op(op) is Some,
            StateSource::Port(r) => r < self.regions@.len(),
            StateSource::BlockArg(b) => b < self.blocks@.len(),
            StateSource::Other => true,
        }
        &&& forall|r: int| 0 <= r < self.regions@.len() ==> (#[trigger] self.regions@[r].parent matches Some(op) ==> self.op(op) is Some)
        &&& forall|b: int| 0 <= b < self.blocks@.len() ==> (#[trigger] self.blocks@[b].region matches Some(r) ==> r < self.regions@.len())
    }
}

/// The first position of `x` in `s`.
pub open spec fn index_of(s: Seq<ValueId>, x: ValueId) -> Option<int>
    decreases s.len(),
{
    if s.len() == 0 {
        None
    } else if s[0] == x {
        Some(0)
    } else {
        match index_of(s.drop_first(), x) {
            Some(i) => Some(i + 1),
            None => None,
        }
    }
}

proof fn lemma_index_of(s: Seq<ValueId>, x: ValueId)
    ensures
        index_of(s, x) matches Some(i) ==> 0 <= i < s.len() && s[i] == x,
    decreases s.len(),
{
    if s.len() > 0 && s[0] != x {
        lemma_index_of(s.drop_first(), x);
    }
}

fn index_of_exec(s: &Vec<ValueId>, x: ValueId) -> (r: Option<usize>)
    ensures
        match r {
            Some(i) => index_of(s@, x) == Some(i as int) && (i as int) < s@.len(),
            None => index_of(s@, x) is None,
        },
{
    let mut k: usize = 0;
    assert(s@.subrange(0, s@.len() as int) =~= s@);
    while k < s.len()
        invariant
            k <= s@.len(),
            index_of(s@, x) == match index_of(s@.subrange(k as int, s@.len() as int), x) {
                Some(i) => Some(i + k),
                None => None,
            },
        decreases s.len() - k,
    {
        proof {
            let rest = s@.subrange(k as int, s@.len() as int);
            assert(rest.drop_first() =~= s@.subrange(k + 1, s@.len() as int));
            assert(rest[0] == s@[k as int]);
        }
        if s[k] == x {
            return Some(k);
        }
        k = k + 1;
    }
    None
}

/// The value `v` at position `i` of `s`, if there is one.
pub open spec fn get(s: Seq<ValueId>, i: int) -> Option<ValueId> {
    if 0 <= i < s.len() {
        Some(s[i])
    } else {
        None
    }
}

fn get_exec(s: &Vec<ValueId>, i: usize) -> (r: Option<ValueId>)
    ensures
        r == get(s@, i as int),
{
    if i < s.len() {
        Some(s[i])
    } else {
        None
    }
}

/// The value a region port or a block argument stands for outside the
/// region: a dependency port the owner's dependency operand at the same
/// position; a value port the value operand its owner's binding feeds it
/// with; an argument of a gate's arm the operand at the same position from
/// the end of that gate's operands.
pub open spec fn spec_port_incoming(g: &ChainGraph, argument: ValueId) -> Option<ValueId> {
    match g.source(argument) {
        StateSource::Port(r) => {
            let handle = g.regions@[r as int];
            match handle.parent {
                None => None,
                Some(owner_id) => {
                    let owner = g.op(owner_id)->0;
                    match index_of(handle.dep_arguments@, argument) {
                        Some(index) => get(owner.dep_operands@, index),
                        None => match index_of(handle.value_arguments@, argument) {
                            None => None,
                            Some(index) => {
                                let binding = match owner.structure {
                                    Structure::Theta(b) => Some(b),
                                    Structure::Gamma(b) => Some(b),
                                    Structure::Plain => None,
                                };
                                match binding {
                                    None => None,
                                    Some(b) => if b.operands_start + index >= b.ports_start {
                                        get(owner.value_operands@, b.operands_start + index - b.ports_start)
                                    } else {
                                        None
                                    },
                                }
                            },
                        },
                    }
                },
            }
        },
        StateSource::BlockArg(b) => {
            let block = g.blocks@[b as int];
            match block.region {
                None => None,
                Some(r) => match g.regions@[r as int].parent {
                    None => None,
                    Some(op_id) => {
                        let op = g.op(op_id)->0;
                        match index_of(block.arguments@, argument) {
                            None => None,
                            Some(index) => if op.operands@.len() >= block.arguments@.len() {
                                get(op.operands@, op.operands@.len() - block.arguments@.len() + index)
                            } else {
                                None
                            },
                        }
                    },
                },
            }
        },
        _ => None,
    }
}

pub fn port_incoming(g: &ChainGraph, argument: ValueId) -> (r: Option<ValueId>)
    requires
        g.well_formed(),
    ensures
        r == spec_port_incoming(g, argument),
{
    let source = if (argument.0 as usize) < g.values.len() { g.values[argument.0 as usize] } else { StateSource::Other };
    match source {
        StateSource::Port(r) => {
            let handle = &g.regions[r];
            let owner_id = match handle.parent {
                Some(o) => o,
                None => {
                    return None;
                },
            };
            let owner = match &g.ops[owner_id.0 as usize] {
                Some(o) => o,
                None => {
                    return None;
                },
            };
            match index_of_exec(&handle.dep_arguments, argument) {
                Some(index) => get_exec(&owner.dep_operands, index),
                None => match index_of_exec(&handle.value_arguments, argument) {
                    None => None,
                    Some(index) => {
                        let binding = match owner.structure {
                            Structure::Theta(b) => b,
                            Structure::Gamma(b) => b,
                            Structure::Plain => {
                                return None;
                            },
                        };
                        let count = owner.value_operands.len();
                        let position = if binding.ports_start <= binding.operands_start {
                            (binding.operands_start - binding.ports_start).checked_add(index)
                        } else {
                            let gap = binding.ports_start - binding.operands_start;
                            if index >= gap {
                                Some(index - gap)
                            } else {
                                return None;
                            }
                        };
                        match position {
                            Some(p) => get_exec(&owner.value_operands, p),
                            None => None,
                        }
                    },
                },
            }
        },
        StateSource::BlockArg(b) => {
            let block = &g.blocks[b];
            let r = match block.region {
                Some(r) => r,
                None => {
                    return None;
                },
            };
            let op_id = match g.regions[r].parent {
                Some(o) => o,
                None => {
                    return None;
                },
            };
            let op = match &g.ops[op_id.0 as usize] {
                Some(o) => o,
                None => {
                    return None;
                },
            };
            match index_of_exec(&block.arguments, argument) {
                None => None,
                Some(index) => if op.operands.len() >= block.arguments.len() {
                    get_exec(&op.operands, (op.operands.len() - block.arguments.len()) + index)
                } else {
                    None
                },
            }
        },
        _ => None,
    }
}

/// A step as a mathematical value.
pub enum StepView {
    Root,
    From(ValueId),
    Merge(Seq<ValueId>),
    Port { op: OpId, index: int, entering: bool },
}

pub open spec fn step_view(s: Step) -> StepView {
    match s {
        Step::Root => StepView::Root,
        Step::From(v) => StepView::From(v),
        Step::Merge(vs) => StepView::Merge(vs@),
        Step::Port { op, index, entering } => StepView::Port { op, index: index as int, entering },
    }
}

/// The state one chain stood at before the effect whose result `split`
/// names again: the effect took the merge of the chains it crosses, in the
/// order the split hands them back, so chain `state` came in on the merge's
/// operand at the same position. The chains a function opens are one entry
/// state split: each is a chain of its own, rooted where the split names it.
pub open spec fn spec_split_source(g: &ChainGraph, split: ChainOp, state: ValueId) -> Option<ValueId> {
    match index_of(split.dep_results@, state) {
        None => None,
        Some(index) => if split.dep_operands@.len() == 0 {
            None
        } else {
            match g.source(split.dep_operands@[0]) {
                StateSource::Result(changer_id) => {
                    let changer = g.op(changer_id)->0;
                    if changer.dep_operands@.len() == 1 {
                        match g.source(changer.dep_operands@[0]) {
                            StateSource::Result(merge_id) => {
                                let merge = g.op(merge_id)->0;
                                if merge.kind == ChainKind::Join { get(merge.dep_operands@, index) } else { None }
                            },
                            _ => None,
                        }
                    } else if changer.dep_operands@.len() == 0 {
                        Some(state)
                    } else {
                        None
                    }
                },
                _ => None,
            }
        },
    }
}

/// What a state a port or an argument stands for carries on from: the
/// value it stands for outside, or nothing (a root).
pub open spec fn from_incoming(g: &ChainGraph, state: ValueId) -> StepView {
    match spec_port_incoming(g, state) {
        Some(v) => StepView::From(v),
        None => StepView::Root,
    }
}

/// The state `state` carries on from: a dependency port is the port its
/// owner enters the region on; another port or an argument the value it
/// stands for outside; a merge's result the states merged; a split's result
/// where its chain stood before the effect; an access's result the state
/// it observed; a structured op's dependency result the port it leaves on.
pub open spec fn spec_back(g: &ChainGraph, state: ValueId) -> StepView {
    match g.source(state) {
        StateSource::Port(r) => {
            let handle = g.regions@[r as int];
            match (handle.parent, index_of(handle.dep_arguments@, state)) {
                (Some(op), Some(index)) => StepView::Port { op, index, entering: true },
                _ => from_incoming(g, state),
            }
        },
        StateSource::Result(id) => {
            let op = g.op(id)->0;
            if op.kind == ChainKind::Join {
                StepView::Merge(op.dep_operands@)
            } else if op.kind == ChainKind::Split {
                match spec_split_source(g, op, state) {
                    Some(source) => if source != state { StepView::From(source) } else { StepView::Root },
                    None => StepView::Root,
                }
            } else if spec_access_of(&op.handle) is Some && spec_access_of(&op.handle)->0.state is Some {
                StepView::From(spec_access_of(&op.handle)->0.state->0)
            } else if op.structure != Structure::Plain && index_of(op.dep_results@, state) is Some {
                StepView::Port { op: id, index: index_of(op.dep_results@, state)->0, entering: false }
            } else {
                StepView::Root
            }
        },
        _ => from_incoming(g, state),
    }
}

fn split_source(g: &ChainGraph, split: &ChainOp, state: ValueId) -> (r: Option<ValueId>)
    requires
        g.well_formed(),
    ensures
        r == spec_split_source(g, *split, state),
{
    let index = match index_of_exec(&split.dep_results, state) {
        Some(i) => i,
        None => {
            return None;
        },
    };
    if split.dep_operands.len() == 0 {
        return None;
    }
    let changed = split.dep_operands[0];
    let changer_id = match source_exec(g, changed) {
        StateSource::Result(id) => id,
        _ => {
            return None;
        },
    };
    let changer = match &g.ops[changer_id.0 as usize] {
        Some(o) => o,
        None => {
            return None;
        },
    };
    if changer.dep_operands.len() != 1 {
        return if changer.dep_operands.len() == 0 { Some(state) } else { None };
    }
    let taken = changer.dep_operands[0];
    let merge_id = match source_exec(g, taken) {
        StateSource::Result(id) => id,
        _ => {
            return None;
        },
    };
    let merge = match &g.ops[merge_id.0 as usize] {
        Some(o) => o,
        None => {
            return None;
        },
    };
    if merge.kind == ChainKind::Join {
        get_exec(&merge.dep_operands, index)
    } else {
        None
    }
}

fn source_exec(g: &ChainGraph, v: ValueId) -> (r: StateSource)
    requires
        g.well_formed(),
    ensures
        r == g.source(v),
        r matches StateSource::Result(op) ==> g.op(op) is Some && (op.0 as int) < g.ops@.len(),
        r matches StateSource::Port(x) ==> x < g.regions@.len(),
        r matches StateSource::BlockArg(x) ==> x < g.blocks@.len(),
{
    if (v.0 as usize) < g.values.len() {
        g.values[v.0 as usize]
    } else {
        StateSource::Other
    }
}

/// The state `state` carries on from.
pub fn back(g: &ChainGraph, state: ValueId) -> (r: Step)
    requires
        g.well_formed(),
    ensures
        step_view(r) == spec_back(g, state),
{
    match source_exec(g, state) {
        StateSource::Port(region) => {
            let handle = &g.regions[region];
            let index = index_of_exec(&handle.dep_arguments, state);
            match (handle.parent, index) {
                (Some(op), Some(index)) => {
                    return Step::Port { op, index, entering: true };
                },
                _ => {},
            }
            match port_incoming(g, state) {
                Some(v) => Step::From(v),
                None => Step::Root,
            }
        },
        StateSource::Result(id) => {
            let op = match &g.ops[id.0 as usize] {
                Some(o) => o,
                None => {
                    return Step::Root;
                },
            };
            if op.kind == ChainKind::Join {
                return Step::Merge(copy_vec(&op.dep_operands));
            }
            if op.kind == ChainKind::Split {
                return match split_source(g, op, state) {
                    Some(source) => if source != state { Step::From(source) } else { Step::Root },
                    None => Step::Root,
                };
            }
            match access_of(&op.handle) {
                Some(access) => match access.state {
                    Some(observed) => {
                        return Step::From(observed);
                    },
                    None => {},
                },
                None => {},
            }
            if op.structure != Structure::Plain {
                match index_of_exec(&op.dep_results, state) {
                    Some(index) => {
                        return Step::Port { op: id, index, entering: false };
                    },
                    None => {},
                }
            }
            Step::Root
        },
        _ => match port_incoming(g, state) {
            Some(v) => Step::From(v),
            None => Step::Root,
        },
    }
}

} // verus!
