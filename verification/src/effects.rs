//! What an operation does to the memory it names, and where it names it.
//!
//! An operation declares its memory behaviour through interfaces: a list of
//! resource effects (which state resource it reads or changes, and the chain
//! states it observes and produces), and, for loads and stores, where the
//! access lands and which value it moves. [`OpHandle`] holds what an
//! operation declares through those interfaces.
use vstd::prelude::*;

use crate::ids::{copy_vec, ValueId};

verus! {

/// A piece of machine state an operation can declare an effect on.
#[derive(Clone, Copy, Debug, PartialEq, Eq, Structural)]
pub enum StateResource {
    Memory,
}

/// How an operation treats a state resource.
#[derive(Clone, Copy, Debug, PartialEq, Eq, Structural)]
pub enum ResourceAccess {
    Read,
    Change,
}

/// One declared effect on a state resource: its access, and the chain states
/// it observes and leaves behind.
#[derive(Debug)]
pub struct ResourceEffect {
    pub resource: StateResource,
    pub access: ResourceAccess,
    pub observed: Vec<ValueId>,
    pub produced: Vec<ValueId>,
}

/// Where a declared memory access lands and the value it moves.
#[derive(Clone, Copy, Debug, PartialEq, Eq, Structural)]
pub struct MemoryAccessDecl {
    pub location: ValueId,
    pub value: ValueId,
}

/// What an operation declares through its effect and memory interfaces:
/// `None` where it does not carry the interface.
pub struct OpHandle {
    pub resource_effects: Option<Vec<ResourceEffect>>,
    pub memory_write: Option<MemoryAccessDecl>,
    pub memory_read: Option<MemoryAccessDecl>,
}

/// What one operation does to the memory it names.
#[derive(Clone, Copy, PartialEq, Eq, Debug, Structural)]
pub enum Effect {
    /// Observes a memory and leaves it as it found it.
    Read,
    /// Leaves a memory at an address that the reads after it see.
    Change,
}

/// The position of the first declared effect on `resource`.
pub open spec fn first_effect(effects: Seq<ResourceEffect>, resource: StateResource) -> Option<int>
    decreases effects.len(),
{
    if effects.len() == 0 {
        None
    } else if effects[0].resource == resource {
        Some(0)
    } else {
        match first_effect(effects.drop_first(), resource) {
            Some(i) => Some(i + 1),
            None => None,
        }
    }
}

/// The first effect `op` declares on `resource`, if it declares effects at
/// all.
pub open spec fn spec_resource_effect(op: &OpHandle, resource: StateResource) -> Option<ResourceEffect> {
    match op.resource_effects {
        Some(effects) => match first_effect(effects@, resource) {
            Some(i) => Some(effects@[i]),
            None => None,
        },
        None => None,
    }
}

/// Two effects that carry the same declaration.
pub open spec fn same_effect(a: ResourceEffect, b: ResourceEffect) -> bool {
    &&& a.resource == b.resource
    &&& a.access == b.access
    &&& a.observed@ == b.observed@
    &&& a.produced@ == b.produced@
}

proof fn lemma_first_effect(effects: Seq<ResourceEffect>, resource: StateResource)
    ensures
        first_effect(effects, resource) matches Some(i) ==> 0 <= i < effects.len() && effects[i].resource == resource
            && forall|j: int| 0 <= j < i ==> (#[trigger] effects[j]).resource != resource,
        first_effect(effects, resource) is None ==> forall|j: int| 0 <= j < effects.len() ==> (#[trigger] effects[j]).resource != resource,
    decreases effects.len(),
{
    if effects.len() > 0 && effects[0].resource != resource {
        lemma_first_effect(effects.drop_first(), resource);
        assert forall|j: int| 1 <= j < effects.len() implies effects[j] == effects.drop_first()[j - 1] by {}
    }
}

impl ResourceEffect {
    /// A copy of the declaration.
    pub fn duplicate(&self) -> (r: ResourceEffect)
        ensures
            same_effect(r, *self),
    {
        ResourceEffect {
            resource: self.resource,
            access: self.access,
            observed: copy_vec(&self.observed),
            produced: copy_vec(&self.produced),
        }
    }
}

/// The effect `op` declares on `resource`: the first one its effect
/// interface lists for that resource.
pub fn resource_effect(op: &OpHandle, resource: StateResource) -> (r: Option<ResourceEffect>)
    ensures
        match spec_resource_effect(op, resource) {
            Some(e) => r matches Some(x) && same_effect(x, e),
            None => r is None,
        },
{
    match &op.resource_effects {
        None => None,
        Some(effects) => {
            proof {
                lemma_first_effect(effects@, resource);
            }
            let mut k: usize = 0;
            while k < effects.len()
                invariant
                    k <= effects@.len(),
                    op.resource_effects == Some(*effects),
                    forall|j: int| 0 <= j < k ==> (#[trigger] effects@[j]).resource != resource,
                decreases effects.len() - k,
            {
                if effects[k].resource == resource {
                    proof {
                        match first_effect(effects@, resource) {
                            Some(i) => {
                                if i < k {
                                    assert(effects@[i].resource != resource);
                                } else if i > k {
                                    assert(effects@[k as int].resource != resource);
                                }
                            },
                            None => {
                                assert(effects@[k as int].resource != resource);
                            },
                        }
                    }
                    return Some(effects[k].duplicate());
                }
                k = k + 1;
            }
            None
        },
    }
}

/// What `op` declares it does to memory.
pub fn effect_of(op: &OpHandle) -> (r: Option<Effect>)
    ensures
        r == match spec_resource_effect(op, StateResource::Memory) {
            Some(e) => Some(
                match e.access {
                    ResourceAccess::Read => Effect::Read,
                    ResourceAccess::Change => Effect::Change,
                },
            ),
            None => None,
        },
{
    match resource_effect(op, StateResource::Memory) {
        Some(effect) => match effect.access {
            ResourceAccess::Read => Some(Effect::Read),
            ResourceAccess::Change => Some(Effect::Change),
        },
        None => None,
    }
}

/// The first state of `states`, if any.
pub open spec fn first_state(states: Seq<ValueId>) -> Option<ValueId> {
    if states.len() == 0 {
        None
    } else {
        Some(states[0])
    }
}

/// The one state `op` observes, if it has been put on a chain.
pub fn observed_state(op: &OpHandle) -> (r: Option<ValueId>)
    ensures
        r == match spec_resource_effect(op, StateResource::Memory) {
            Some(e) => first_state(e.observed@),
            None => None,
        },
{
    match resource_effect(op, StateResource::Memory) {
        Some(effect) => {
            if effect.observed.len() > 0 {
                Some(effect.observed[0])
            } else {
                None
            }
        },
        None => None,
    }
}

/// The one state `op` leaves behind, if it has been put on a chain.
pub fn produced_state(op: &OpHandle) -> (r: Option<ValueId>)
    ensures
        r == match spec_resource_effect(op, StateResource::Memory) {
            Some(e) => first_state(e.produced@),
            None => None,
        },
{
    match resource_effect(op, StateResource::Memory) {
        Some(effect) => {
            if effect.produced.len() > 0 {
                Some(effect.produced[0])
            } else {
                None
            }
        },
        None => None,
    }
}

/// One declared access: where it lands, the value it names there, the state
/// it observes, and whether it puts the value in memory or takes it out.
#[derive(Clone, Copy, Debug, PartialEq, Eq, Structural)]
pub struct Access {
    pub location: ValueId,
    pub value: ValueId,
    pub state: Option<ValueId>,
    pub write: bool,
}

/// The access `op` declares, read off its memory interface: a write where it
/// carries one, else a read.
pub open spec fn spec_access_of(op: &OpHandle) -> Option<Access> {
    let state = match spec_resource_effect(op, StateResource::Memory) {
        Some(e) => first_state(e.observed@),
        None => None,
    };
    match op.memory_write {
        Some(w) => Some(Access { location: w.location, value: w.value, state, write: true }),
        None => match op.memory_read {
            Some(rd) => Some(Access { location: rd.location, value: rd.value, state, write: false }),
            None => None,
        },
    }
}

/// The access `op` declares, read off whichever memory interface it carries.
pub fn access_of(op: &OpHandle) -> (r: Option<Access>)
    ensures
        r == spec_access_of(op),
{
    if let Some(write) = op.memory_write {
        return Some(Access {
            location: write.location,
            value: write.value,
            state: observed_state(op),
            write: true,
        });
    }
    match op.memory_read {
        Some(read) => Some(Access {
            location: read.location,
            value: read.value,
            state: observed_state(op),
            write: false,
        }),
        None => None,
    }
}

} // verus!
