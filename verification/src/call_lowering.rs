//! Where a call's arguments and results travel under an ABI: the decisions
//! behind lowering a call to register copies, stack stores and a virtual
//! call.
use vstd::prelude::*;

use crate::rules::PassError;
use crate::sem_expr::{decimal, push_decimal};

use crate::abi::{
    exhaust_argument_registers, find_seq, find_sequence, next_register, no_visits, round_up, spec_exhaust, spec_group_fits,
    spec_next_register, spec_stack_class, stack_class, AbiInfo, GroupRollback, NextSlot, PassSeq,
    PhysReg, RegClassId, ValueKind,
};

verus! {

/// Where one argument value is passed.
#[derive(Debug, Clone, Copy, PartialEq, Eq, Structural)]
pub enum ArgumentLocation {
    Register(PhysReg),
    Stack { class: RegClassId, offset: i64 },
}

impl ArgumentLocation {
    /// The register class the argument is copied through.
    pub fn class(self) -> (r: RegClassId)
        ensures
            r == match self {
                ArgumentLocation::Register(reg) => reg.0,
                ArgumentLocation::Stack { class, .. } => class,
            },
    {
        match self {
            ArgumentLocation::Register(register) => register.0,
            ArgumentLocation::Stack { class, .. } => class,
        }
    }
}

/// Why a call cannot be lowered under the ABI.
#[derive(Debug, Clone, Copy, PartialEq, Eq, Structural)]
pub enum CallLoweringError {
    /// The ABI names no register for an indirect result's address.
    NoIndirectResultRegister,
    /// A stack-passed argument's kind has no argument sequence to copy through.
    NoArgumentSequence,
    /// The ABI has no integer argument registers (for an indirect callee).
    NoIntegerArgumentRegisters,
    /// The ABI has no register for a scalar result.
    NoReturnRegister,
    /// The ABI has no return register for the tuple element at this index.
    NoTupleReturnRegister(usize),
    /// A read of a tuple result names an element the tuple does not have.
    TupleIndexOutOfBounds,
}

/// What a pass reports for `e`, in the words users see.
pub open spec fn spec_call_error_message(e: CallLoweringError) -> Seq<char> {
    match e {
        CallLoweringError::NoIndirectResultRegister => "ABI has no indirect result register"@,
        CallLoweringError::NoArgumentSequence => "ABI has no argument sequence"@,
        CallLoweringError::NoIntegerArgumentRegisters => "ABI has no integer argument registers"@,
        CallLoweringError::NoReturnRegister => "ABI has no return register"@,
        CallLoweringError::NoTupleReturnRegister(i) => "ABI has no return register for tuple element "@ + decimal(i as nat),
        CallLoweringError::TupleIndexOutOfBounds => "tuple_get index is out of bounds"@,
    }
}

impl CallLoweringError {
    /// The pass error reported for this, with its message.
    pub fn to_pass_error(self) -> (r: PassError)
        ensures
            r matches PassError::InvalidRuleSet(m) && m@ == spec_call_error_message(self),
    {
        let mut m = String::new();
        match self {
            CallLoweringError::NoIndirectResultRegister => m.append("ABI has no indirect result register"),
            CallLoweringError::NoArgumentSequence => m.append("ABI has no argument sequence"),
            CallLoweringError::NoIntegerArgumentRegisters => m.append("ABI has no integer argument registers"),
            CallLoweringError::NoReturnRegister => m.append("ABI has no return register"),
            CallLoweringError::NoTupleReturnRegister(i) => {
                m.append("ABI has no return register for tuple element ");
                push_decimal(&mut m, i as u64);
            },
            CallLoweringError::TupleIndexOutOfBounds => m.append("tuple_get index is out of bounds"),
        }
        proof {
            assert(m@ =~= spec_call_error_message(self));
        }
        PassError::InvalidRuleSet(m)
    }
}

/// The registers a group of arguments goes in when all of them fit, and the
/// slots after taking them; `None` as soon as one value has no register.
pub open spec fn spec_direct(seqs: Seq<PassSeq>, kinds: Seq<ValueKind>, slots: NextSlot) -> Option<(Seq<PhysReg>, NextSlot)>
    decreases kinds.len(),
{
    if kinds.len() == 0 {
        Some((Seq::empty(), slots))
    } else {
        match spec_direct(seqs, kinds.drop_last(), slots) {
            None => None,
            Some((regs, s)) => match spec_next_register(seqs, kinds.last(), s, no_visits()) {
                (Some(r), s2) => Some((regs.push(r), s2)),
                (None, _) => None,
            },
        }
    }
}

/// A group that does not fit in registers goes on the stack, value by value:
/// the locations, the slots after (used up when the ABI exhausts a spilled
/// group's sequences), and the stack arguments so far.
pub open spec fn spec_stack_group(
    abi: &AbiInfo,
    kinds: Seq<ValueKind>,
    slots: NextSlot,
    stack_args: nat,
) -> Result<(Seq<ArgumentLocation>, NextSlot, nat), CallLoweringError>
    decreases kinds.len(),
{
    if kinds.len() == 0 {
        Ok((Seq::empty(), slots, stack_args))
    } else {
        match spec_stack_group(abi, kinds.drop_last(), slots, stack_args) {
            Err(e) => Err(e),
            Ok((locs, s, n)) => {
                let kind = kinds.last();
                let s2 = if abi.argument_group_rollback == GroupRollback::Exhaust {
                    spec_exhaust(abi.args@, kind, s, no_visits())
                } else {
                    s
                };
                match spec_stack_class(abi.args@, kind, None, no_visits()) {
                    None => Err(CallLoweringError::NoArgumentSequence),
                    Some(class) => Ok(
                        (locs.push(ArgumentLocation::Stack { class, offset: (n * abi.stack.slot_size) as i64 }), s2, n + 1),
                    ),
                }
            },
        }
    }
}

/// Register locations for a list of registers.
pub open spec fn register_locations(regs: Seq<PhysReg>) -> Seq<ArgumentLocation> {
    regs.map_values(|r: PhysReg| ArgumentLocation::Register(r))
}

/// The locations of every argument of the groups, in order: a group goes in
/// registers when it may and all its values find one, and otherwise entirely
/// on the stack. Also the slots afterwards and the number of stack arguments.
pub open spec fn spec_plan_groups(abi: &AbiInfo, groups: Seq<Seq<ValueKind>>) -> Result<(Seq<ArgumentLocation>, NextSlot, nat), CallLoweringError>
    decreases groups.len(),
{
    if groups.len() == 0 {
        Ok((Seq::empty(), NextSlot { int: 0, float: 0, vector: 0 }, 0))
    } else {
        match spec_plan_groups(abi, groups.drop_last()) {
            Err(e) => Err(e),
            Ok((locs, s, n)) => {
                let g = groups.last();
                let direct = if spec_group_fits(abi, g.len()) {
                    spec_direct(abi.args@, g, s)
                } else {
                    None
                };
                match direct {
                    Some((regs, s2)) => Ok((locs + register_locations(regs), s2, n)),
                    None => match spec_stack_group(abi, g, s, n) {
                        Err(e) => Err(e),
                        Ok((l2, s3, n3)) => Ok((locs + l2, s3, n3)),
                    },
                }
            },
        }
    }
}

/// The outgoing argument area: the stack arguments' slots rounded up to the
/// stack alignment, or nothing without stack arguments.
pub open spec fn spec_outgoing_size(stack_args: nat, slot_size: u32, align: u32) -> int {
    if stack_args == 0 {
        0
    } else {
        round_up(stack_args * slot_size, align as int)
    }
}

/// The number of argument values across all groups.
pub open spec fn total_values(groups: Seq<Vec<ValueKind>>) -> nat
    decreases groups.len(),
{
    if groups.len() == 0 {
        0
    } else {
        total_values(groups.drop_last()) + groups.last()@.len()
    }
}

/// The groups' kinds as mathematical sequences.
pub open spec fn group_kinds(groups: Seq<Vec<ValueKind>>) -> Seq<Seq<ValueKind>> {
    groups.map_values(|g: Vec<ValueKind>| g@)
}

/// Where every argument of a call goes, and the size of the outgoing stack
/// area the stack-passed ones need.
#[derive(Debug, Clone, PartialEq, Eq)]
pub struct ArgumentPlan {
    pub locations: Vec<ArgumentLocation>,
    pub outgoing_size: u32,
}

fn direct_registers(abi: &AbiInfo, kinds: &Vec<ValueKind>, slots: &mut NextSlot) -> (r: Option<Vec<PhysReg>>)
    ensures
        match spec_direct(abi.args@, kinds@, *old(slots)) {
            None => r is None,
            Some((regs, s)) => r matches Some(v) && v@ == regs && *final(slots) == s,
        },
{
    let ghost start = *slots;
    let mut regs: Vec<PhysReg> = Vec::new();
    let mut i: usize = 0;
    while i < kinds.len()
        invariant
            i <= kinds@.len(),
            start == *old(slots),
            spec_direct(abi.args@, kinds@.subrange(0, i as int), start) == Some((regs@, *slots)),
        decreases kinds.len() - i,
    {
        assert(kinds@.subrange(0, i + 1).drop_last() =~= kinds@.subrange(0, i as int));
        match next_register(abi, kinds[i], slots) {
            Some(reg) => {
                regs.push(reg);
            },
            None => {
                proof {
                    lemma_direct_none_stays(abi.args@, kinds@, start, i as int + 1);
                }
                return None;
            },
        }
        i = i + 1;
    }
    assert(kinds@.subrange(0, kinds@.len() as int) =~= kinds@);
    Some(regs)
}

proof fn lemma_direct_none_stays(seqs: Seq<PassSeq>, kinds: Seq<ValueKind>, slots: NextSlot, i: int)
    requires
        0 <= i <= kinds.len(),
        spec_direct(seqs, kinds.subrange(0, i), slots) is None,
    ensures
        spec_direct(seqs, kinds, slots) is None,
    decreases kinds.len() - i,
{
    if i < kinds.len() {
        assert(kinds.subrange(0, i + 1).drop_last() =~= kinds.subrange(0, i));
        lemma_direct_none_stays(seqs, kinds, slots, i + 1);
    } else {
        assert(kinds.subrange(0, i) =~= kinds);
    }
}

proof fn lemma_stack_group_err_stays(abi: &AbiInfo, kinds: Seq<ValueKind>, slots: NextSlot, n: nat, i: int)
    requires
        0 <= i <= kinds.len(),
        spec_stack_group(abi, kinds.subrange(0, i), slots, n) is Err,
    ensures
        spec_stack_group(abi, kinds, slots, n) == spec_stack_group(abi, kinds.subrange(0, i), slots, n),
    decreases kinds.len() - i,
{
    if i < kinds.len() {
        assert(kinds.subrange(0, i + 1).drop_last() =~= kinds.subrange(0, i));
        lemma_stack_group_err_stays(abi, kinds, slots, n, i + 1);
    } else {
        assert(kinds.subrange(0, i) =~= kinds);
    }
}

proof fn lemma_stack_group_count(abi: &AbiInfo, kinds: Seq<ValueKind>, slots: NextSlot, n: nat)
    ensures
        spec_stack_group(abi, kinds, slots, n) matches Ok((locs, _, m)) ==> m == n + kinds.len() && locs.len() == kinds.len(),
    decreases kinds.len(),
{
    if kinds.len() > 0 {
        lemma_stack_group_count(abi, kinds.drop_last(), slots, n);
    }
}

proof fn lemma_direct_len(seqs: Seq<PassSeq>, kinds: Seq<ValueKind>, slots: NextSlot)
    ensures
        spec_direct(seqs, kinds, slots) matches Some((regs, _)) ==> regs.len() == kinds.len(),
    decreases kinds.len(),
{
    if kinds.len() > 0 {
        lemma_direct_len(seqs, kinds.drop_last(), slots);
    }
}

pub(crate) proof fn lemma_plan_count(abi: &AbiInfo, groups: Seq<Vec<ValueKind>>)
    ensures
        spec_plan_groups(abi, group_kinds(groups)) matches Ok((locs, _, n)) ==> n <= total_values(groups) && locs.len() == total_values(groups),
    decreases groups.len(),
{
    if groups.len() > 0 {
        let p = groups.drop_last();
        assert(group_kinds(groups).drop_last() =~= group_kinds(p));
        lemma_plan_count(abi, p);
        let g = groups.last()@;
        assert(group_kinds(groups).last() == g);
        match spec_plan_groups(abi, group_kinds(p)) {
            Ok((_, s, n)) => {
                lemma_direct_len(abi.args@, g, s);
                lemma_stack_group_count(abi, g, s, n);
            },
            Err(_) => {},
        }
    }
}

/// The stack arguments fit the 32-bit offsets and sizes the lowering
/// computes: every value of the call could go on the stack and the area
/// still be rounded up to the alignment.
pub open spec fn plan_fits(abi: &AbiInfo, groups: Seq<Vec<ValueKind>>) -> bool {
    &&& total_values(groups) <= u32::MAX
    &&& total_values(groups) * abi.stack.slot_size + abi.stack.align <= u32::MAX
    &&& (spec_plan_groups(abi, group_kinds(groups)) matches Ok((_, _, n)) && n > 0 ==> abi.stack.align > 0)
}

proof fn lemma_total_values_prefix(groups: Seq<Vec<ValueKind>>, i: int)
    requires
        0 <= i <= groups.len(),
    ensures
        total_values(groups.subrange(0, i)) <= total_values(groups),
        i < groups.len() ==> total_values(groups.subrange(0, i + 1)) == total_values(groups.subrange(0, i)) + groups[i]@.len(),
    decreases groups.len() - i,
{
    if i < groups.len() {
        assert(groups.subrange(0, i + 1).drop_last() =~= groups.subrange(0, i));
        lemma_total_values_prefix(groups, i + 1);
    } else {
        assert(groups.subrange(0, i) =~= groups);
    }
}

proof fn lemma_plan_err_stays(abi: &AbiInfo, groups: Seq<Vec<ValueKind>>, i: int)
    requires
        0 <= i <= groups.len(),
        spec_plan_groups(abi, group_kinds(groups.subrange(0, i))) is Err,
    ensures
        spec_plan_groups(abi, group_kinds(groups)) == spec_plan_groups(abi, group_kinds(groups.subrange(0, i))),
    decreases groups.len() - i,
{
    if i < groups.len() {
        assert(group_kinds(groups.subrange(0, i + 1)).drop_last() =~= group_kinds(groups.subrange(0, i)));
        lemma_plan_err_stays(abi, groups, i + 1);
    } else {
        assert(groups.subrange(0, i) =~= groups);
    }
}

/// Assign every argument of a call a location: each group of values (a
/// scalar argument is a group of one; a tuple argument is one group of its
/// elements) goes entirely in registers when it may and every value finds
/// one, and otherwise entirely on the stack in consecutive slots.
pub fn plan_arguments(abi: &AbiInfo, groups: &Vec<Vec<ValueKind>>) -> (r: Result<ArgumentPlan, CallLoweringError>)
    requires
        plan_fits(abi, groups@),
    ensures
        match spec_plan_groups(abi, group_kinds(groups@)) {
            Err(e) => r == Err::<ArgumentPlan, CallLoweringError>(e),
            Ok((locs, _, n)) => r matches Ok(plan) && plan.locations@ == locs
                && plan.outgoing_size == spec_outgoing_size(n, abi.stack.slot_size, abi.stack.align),
        },
{
    let mut next_slot = NextSlot::new();
    let mut locations: Vec<ArgumentLocation> = Vec::new();
    let mut stack_args: u32 = 0;
    let mut gi: usize = 0;
    assert(group_kinds(groups@.subrange(0, 0)) =~= Seq::<Seq<ValueKind>>::empty());
    while gi < groups.len()
        invariant
            gi <= groups@.len(),
            plan_fits(abi, groups@),
            spec_plan_groups(abi, group_kinds(groups@.subrange(0, gi as int))) == Ok::<_, CallLoweringError>(
                (locations@, next_slot, stack_args as nat),
            ),
            stack_args <= total_values(groups@.subrange(0, gi as int)),
        decreases groups.len() - gi,
    {
        proof {
            lemma_total_values_prefix(groups@, gi as int);
            lemma_total_values_prefix(groups@, gi as int + 1);
            assert(group_kinds(groups@.subrange(0, gi + 1)).drop_last() =~= group_kinds(groups@.subrange(0, gi as int)));
            assert(group_kinds(groups@.subrange(0, gi + 1)).last() == groups@[gi as int]@);
        }
        let values = &groups[gi];
        let ghost locs_before = locations@;
        let ghost slots_before = next_slot;
        let ghost n_before = stack_args as nat;
        let mut trial = next_slot;
        let direct = if abi.argument_group_fits_register_limit(values.len()) {
            direct_registers(abi, values, &mut trial)
        } else {
            None
        };
        match direct {
            Some(regs) => {
                next_slot = trial;
                let mut k: usize = 0;
                while k < regs.len()
                    invariant
                        k <= regs@.len(),
                        locations@ == locs_before + register_locations(regs@.subrange(0, k as int)),
                    decreases regs.len() - k,
                {
                    locations.push(ArgumentLocation::Register(regs[k]));
                    assert(register_locations(regs@.subrange(0, k + 1)) =~= register_locations(regs@.subrange(0, k as int)).push(ArgumentLocation::Register(regs@[k as int])));
                    k = k + 1;
                }
                assert(regs@.subrange(0, regs@.len() as int) =~= regs@);
            },
            None => {
                let mut j: usize = 0;
                assert(values@.subrange(0, 0) =~= Seq::<ValueKind>::empty());
                while j < values.len()
                    invariant
                        j <= values@.len(),
                        spec_stack_group(abi, values@.subrange(0, j as int), slots_before, n_before) matches Ok((l2, s3, n3))
                            && locations@ == locs_before + l2 && next_slot == s3 && stack_args as nat == n3,
                        n_before + values@.len() <= total_values(groups@),
                        plan_fits(abi, groups@),
                        gi < groups@.len(),
                        values@ == groups@[gi as int]@,
                        spec_plan_groups(abi, group_kinds(groups@.subrange(0, gi as int))) == Ok::<_, CallLoweringError>(
                            (locs_before, slots_before, n_before),
                        ),
                        group_kinds(groups@.subrange(0, gi + 1)).drop_last() == group_kinds(groups@.subrange(0, gi as int)),
                        group_kinds(groups@.subrange(0, gi + 1)).last() == values@,
                        (if spec_group_fits(abi, values@.len()) {
                            spec_direct(abi.args@, values@, slots_before)
                        } else {
                            None
                        }) is None,
                    decreases values.len() - j,
                {
                    proof {
                        assert(values@.subrange(0, j + 1).drop_last() =~= values@.subrange(0, j as int));
                        lemma_stack_group_count(abi, values@.subrange(0, j as int), slots_before, n_before);
                        assert(stack_args as nat == n_before + j);
                        assert((stack_args as nat) * abi.stack.slot_size <= total_values(groups@) * abi.stack.slot_size) by (nonlinear_arith)
                            requires stack_args as nat <= total_values(groups@);
                    }
                    let kind = values[j];
                    if abi.argument_group_rollback == GroupRollback::Exhaust {
                        exhaust_argument_registers(abi, kind, &mut next_slot);
                    }
                    let class = match stack_class(abi, kind) {
                        Some(c) => c,
                        None => {
                            proof {
                                lemma_stack_group_err_stays(abi, values@, slots_before, n_before, j as int + 1);
                                lemma_plan_err_stays(abi, groups@, gi as int + 1);
                            }
                            return Err(CallLoweringError::NoArgumentSequence);
                        },
                    };
                    let offset = (stack_args * abi.stack.slot_size) as i64;
                    locations.push(ArgumentLocation::Stack { class, offset });
                    stack_args = stack_args + 1;
                    j = j + 1;
                }
                assert(values@.subrange(0, values@.len() as int) =~= values@);
                proof {
                    lemma_stack_group_count(abi, values@, slots_before, n_before);
                }
            },
        }
        gi = gi + 1;
    }
    assert(groups@.subrange(0, groups@.len() as int) =~= groups@);
    let outgoing_size = if stack_args == 0 {
        0
    } else {
        proof {
            assert((stack_args as nat) * abi.stack.slot_size <= total_values(groups@) * abi.stack.slot_size) by (nonlinear_arith)
                requires stack_args as nat <= total_values(groups@);
        }
        let bytes = stack_args * abi.stack.slot_size;
        let align = abi.stack.align;
        let q0 = bytes / align;
        proof {
            assert(q0 <= bytes) by (nonlinear_arith)
                requires align > 0, q0 as int == bytes as int / align as int;
        }
        let q = if bytes % align == 0 { q0 } else { q0 + 1 };
        proof {
            assert(q as int == (bytes as int + align as int - 1) / (align as int)) by (nonlinear_arith)
                requires
                    align > 0,
                    q0 as int == bytes as int / align as int,
                    q as int == q0 as int + if bytes as int % align as int == 0 { 0int } else { 1int },
            ;
            assert(q as int * align as int <= bytes as int + align as int) by (nonlinear_arith)
                requires
                    align > 0,
                    q as int == (bytes as int + align as int - 1) / (align as int),
            ;
        }
        q * align
    };
    Ok(ArgumentPlan { locations, outgoing_size })
}

/// How many of the locations are on the stack.
pub open spec fn stack_count(locs: Seq<ArgumentLocation>) -> nat
    decreases locs.len(),
{
    if locs.len() == 0 {
        0
    } else {
        stack_count(locs.drop_last()) + if locs.last() is Stack { 1nat } else { 0nat }
    }
}

/// Every stack location sits in its own slot, in order: the k-th stack
/// argument at `k * slot_size` (as the 64-bit offset the lowering computes).
pub open spec fn consecutive_stack_slots(locs: Seq<ArgumentLocation>, slot_size: u32) -> bool {
    forall|i: int|
        0 <= i < locs.len() ==> (#[trigger] locs[i] matches ArgumentLocation::Stack { offset, .. } ==> offset
            == (stack_count(locs.subrange(0, i)) * slot_size) as i64)
}

proof fn lemma_stack_count_append(a: Seq<ArgumentLocation>, b: Seq<ArgumentLocation>)
    ensures
        stack_count(a + b) == stack_count(a) + stack_count(b),
    decreases b.len(),
{
    if b.len() == 0 {
        assert(a + b =~= a);
    } else {
        lemma_stack_count_append(a, b.drop_last());
        assert((a + b).drop_last() =~= a + b.drop_last());
    }
}

proof fn lemma_register_locations_no_stack(regs: Seq<PhysReg>)
    ensures
        stack_count(register_locations(regs)) == 0,
        forall|i: int| 0 <= i < regs.len() ==> register_locations(regs)[i] is Register,
    decreases regs.len(),
{
    if regs.len() > 0 {
        lemma_register_locations_no_stack(regs.drop_last());
        assert(register_locations(regs).drop_last() =~= register_locations(regs.drop_last()));
    }
}

proof fn lemma_stack_group_slots(abi: &AbiInfo, kinds: Seq<ValueKind>, slots: NextSlot, n: nat)
    ensures
        spec_stack_group(abi, kinds, slots, n) matches Ok((locs, _, m)) ==> {
            &&& m == n + stack_count(locs)
            &&& forall|i: int| 0 <= i < locs.len() ==> (#[trigger] locs[i] matches ArgumentLocation::Stack { offset, .. }
                && offset == ((n + stack_count(locs.subrange(0, i))) * abi.stack.slot_size) as i64)
        },
    decreases kinds.len(),
{
    if kinds.len() > 0 {
        lemma_stack_group_slots(abi, kinds.drop_last(), slots, n);
        match spec_stack_group(abi, kinds.drop_last(), slots, n) {
            Err(_) => {},
            Ok((p, s0, m0)) => {
                let kind = kinds.last();
                match spec_stack_class(abi.args@, kind, None, no_visits()) {
                    None => {},
                    Some(class) => {
                        let loc = ArgumentLocation::Stack { class, offset: (m0 * abi.stack.slot_size) as i64 };
                        let locs = p.push(loc);
                        assert(locs.drop_last() =~= p);
                        assert(stack_count(locs) == stack_count(p) + 1);
                        assert forall|i: int| 0 <= i < locs.len() implies (#[trigger] locs[i] matches ArgumentLocation::Stack { offset, .. }
                            && offset == ((n + stack_count(locs.subrange(0, i))) * abi.stack.slot_size) as i64) by {
                            if i < p.len() {
                                assert(locs.subrange(0, i) =~= p.subrange(0, i));
                                assert(locs[i] == p[i]);
                            } else {
                                assert(locs.subrange(0, i) =~= p);
                                assert(locs[i] == loc);
                            }
                        }
                    },
                }
            },
        }
    }
}

/// Stack-passed arguments take consecutive slots of the outgoing area in
/// argument order, and the plan's count of stack arguments is the number of
/// stack locations.
pub proof fn lemma_plan_stack_slots(abi: &AbiInfo, groups: Seq<Seq<ValueKind>>)
    ensures
        spec_plan_groups(abi, groups) matches Ok((locs, _, n)) ==> n == stack_count(locs)
            && consecutive_stack_slots(locs, abi.stack.slot_size),
    decreases groups.len(),
{
    if groups.len() > 0 {
        lemma_plan_stack_slots(abi, groups.drop_last());
        if let Ok((locs0, s, n0)) = spec_plan_groups(abi, groups.drop_last()) {
            let g = groups.last();
            let direct = if spec_group_fits(abi, g.len()) { spec_direct(abi.args@, g, s) } else { None };
            match direct {
                Some((regs, s2)) => {
                    let added = register_locations(regs);
                    lemma_register_locations_no_stack(regs);
                    lemma_stack_count_append(locs0, added);
                    let locs = locs0 + added;
                    assert forall|i: int| 0 <= i < locs.len() implies (#[trigger] locs[i] matches ArgumentLocation::Stack { offset, .. } ==> offset
                        == (stack_count(locs.subrange(0, i)) * abi.stack.slot_size) as i64) by {
                        if i < locs0.len() {
                            assert(locs.subrange(0, i) =~= locs0.subrange(0, i));
                            assert(locs[i] == locs0[i]);
                        } else {
                            assert(locs[i] == added[i - locs0.len()]);
                        }
                    }
                },
                None => {
                    lemma_stack_group_slots(abi, g, s, n0);
                    if let Ok((l2, s3, n3)) = spec_stack_group(abi, g, s, n0) {
                        lemma_stack_count_append(locs0, l2);
                        let locs = locs0 + l2;
                        assert forall|i: int| 0 <= i < locs.len() implies (#[trigger] locs[i] matches ArgumentLocation::Stack { offset, .. } ==> offset
                            == (stack_count(locs.subrange(0, i)) * abi.stack.slot_size) as i64) by {
                            if i < locs0.len() {
                                assert(locs.subrange(0, i) =~= locs0.subrange(0, i));
                                assert(locs[i] == locs0[i]);
                            } else {
                                let k = i - locs0.len();
                                assert(locs[i] == l2[k]);
                                assert(locs.subrange(0, i) =~= locs0 + l2.subrange(0, k));
                                lemma_stack_count_append(locs0, l2.subrange(0, k));
                            }
                        }
                    }
                },
            }
        }
    }
}

/// The outgoing area covers every stack slot and keeps the stack aligned.
pub proof fn lemma_outgoing_area(stack_args: nat, slot_size: u32, align: u32)
    requires
        stack_args > 0 ==> align > 0,
    ensures
        spec_outgoing_size(stack_args, slot_size, align) >= stack_args * slot_size,
        stack_args > 0 ==> spec_outgoing_size(stack_args, slot_size, align) % (align as int) == 0,
{
    if stack_args > 0 {
        let b = stack_args * slot_size;
        let a = align as int;
        assert(round_up(b, a) >= b && round_up(b, a) % a == 0) by (nonlinear_arith)
            requires
                a > 0,
                b >= 0,
                round_up(b, a) == ((b + a - 1) / a) * a,
        ;
    } else {
        assert(stack_args * slot_size == 0);
    }
}

/// The register class an indirect callee is copied through: the class of the
/// first integer argument register.
pub fn indirect_callee_class(abi: &AbiInfo) -> (r: Result<RegClassId, CallLoweringError>)
    ensures
        match find_seq(abi.args@, ValueKind::Int) {
            Some(i) => if abi.args@[i].regs@.len() > 0 {
                r == Ok::<RegClassId, CallLoweringError>(abi.args@[i].regs@[0].0)
            } else {
                r == Err::<RegClassId, CallLoweringError>(CallLoweringError::NoIntegerArgumentRegisters)
            },
            None => r == Err::<RegClassId, CallLoweringError>(CallLoweringError::NoIntegerArgumentRegisters),
        },
{
    match find_sequence(&abi.args, ValueKind::Int) {
        Some(i) => {
            if abi.args[i].regs.len() > 0 {
                Ok(abi.args[i].regs[0].0)
            } else {
                Err(CallLoweringError::NoIntegerArgumentRegisters)
            }
        },
        None => Err(CallLoweringError::NoIntegerArgumentRegisters),
    }
}

/// The register holding an indirect result's address.
pub fn indirect_result_register(abi: &AbiInfo) -> (r: Result<PhysReg, CallLoweringError>)
    ensures
        match abi.indirect_result {
            Some(reg) => r == Ok::<PhysReg, CallLoweringError>(reg),
            None => r == Err::<PhysReg, CallLoweringError>(CallLoweringError::NoIndirectResultRegister),
        },
{
    match abi.indirect_result {
        Some(reg) => Ok(reg),
        None => Err(CallLoweringError::NoIndirectResultRegister),
    }
}

/// The register a scalar result of `kind` comes back in: the first register
/// of its return sequence, falling back to the integer one for other kinds.
pub open spec fn spec_return_register(rets: Seq<PassSeq>, kind: ValueKind) -> Option<PhysReg> {
    let seq = match find_seq(rets, kind) {
        Some(i) => Some(i),
        None => if kind != ValueKind::Int { find_seq(rets, ValueKind::Int) } else { None },
    };
    match seq {
        Some(i) => if rets[i].regs@.len() > 0 { Some(rets[i].regs@[0]) } else { None },
        None => None,
    }
}

pub fn return_register(abi: &AbiInfo, kind: ValueKind) -> (r: Result<PhysReg, CallLoweringError>)
    ensures
        match spec_return_register(abi.rets@, kind) {
            Some(reg) => r == Ok::<PhysReg, CallLoweringError>(reg),
            None => r == Err::<PhysReg, CallLoweringError>(CallLoweringError::NoReturnRegister),
        },
{
    let found = match find_sequence(&abi.rets, kind) {
        Some(i) => Some(i),
        None => if kind != ValueKind::Int {
            find_sequence(&abi.rets, ValueKind::Int)
        } else {
            None
        },
    };
    match found {
        Some(i) => {
            if abi.rets[i].regs.len() > 0 {
                Ok(abi.rets[i].regs[0])
            } else {
                Err(CallLoweringError::NoReturnRegister)
            }
        },
        None => Err(CallLoweringError::NoReturnRegister),
    }
}

/// The registers a tuple result's elements come back in: each element takes
/// the next register of its kind's return sequence. `None` for the first
/// element with no register left.
pub open spec fn spec_tuple_returns(rets: Seq<PassSeq>, kinds: Seq<ValueKind>) -> Result<(Seq<PhysReg>, NextSlot), CallLoweringError>
    decreases kinds.len(),
{
    if kinds.len() == 0 {
        Ok((Seq::empty(), NextSlot { int: 0, float: 0, vector: 0 }))
    } else {
        match spec_tuple_returns(rets, kinds.drop_last()) {
            Err(e) => Err(e),
            Ok((regs, slots)) => {
                let kind = kinds.last();
                let slot = slots.spec_get(kind);
                match find_seq(rets, kind) {
                    Some(i) => if slot < rets[i].regs@.len() {
                        Ok((regs.push(rets[i].regs@[slot as int]), slots.spec_set(kind, (slot + 1) as usize)))
                    } else {
                        Err(CallLoweringError::NoTupleReturnRegister(regs.len() as usize))
                    },
                    None => Err(CallLoweringError::NoTupleReturnRegister(regs.len() as usize)),
                }
            },
        }
    }
}

proof fn lemma_tuple_returns_len(rets: Seq<PassSeq>, kinds: Seq<ValueKind>)
    ensures
        spec_tuple_returns(rets, kinds) matches Ok((regs, _)) ==> regs.len() == kinds.len(),
    decreases kinds.len(),
{
    if kinds.len() > 0 {
        lemma_tuple_returns_len(rets, kinds.drop_last());
    }
}

proof fn lemma_tuple_returns_err_stays(rets: Seq<PassSeq>, kinds: Seq<ValueKind>, i: int)
    requires
        0 <= i <= kinds.len(),
        spec_tuple_returns(rets, kinds.subrange(0, i)) is Err,
    ensures
        spec_tuple_returns(rets, kinds) == spec_tuple_returns(rets, kinds.subrange(0, i)),
    decreases kinds.len() - i,
{
    if i < kinds.len() {
        assert(kinds.subrange(0, i + 1).drop_last() =~= kinds.subrange(0, i));
        lemma_tuple_returns_err_stays(rets, kinds, i + 1);
    } else {
        assert(kinds.subrange(0, i) =~= kinds);
    }
}

pub fn tuple_return_registers(abi: &AbiInfo, kinds: &Vec<ValueKind>) -> (r: Result<Vec<PhysReg>, CallLoweringError>)
    ensures
        match spec_tuple_returns(abi.rets@, kinds@) {
            Ok((regs, _)) => r matches Ok(v) && v@ == regs,
            Err(e) => r == Err::<Vec<PhysReg>, CallLoweringError>(e),
        },
{
    let mut slots = NextSlot::new();
    let mut registers: Vec<PhysReg> = Vec::new();
    let mut i: usize = 0;
    while i < kinds.len()
        invariant
            i <= kinds@.len(),
            spec_tuple_returns(abi.rets@, kinds@.subrange(0, i as int)) == Ok::<_, CallLoweringError>((registers@, slots)),
        decreases kinds.len() - i,
    {
        assert(kinds@.subrange(0, i + 1).drop_last() =~= kinds@.subrange(0, i as int));
        proof {
            lemma_tuple_returns_len(abi.rets@, kinds@.subrange(0, i as int));
        }
        let kind = kinds[i];
        let slot = slots.get(kind);
        match find_sequence(&abi.rets, kind) {
            Some(s) => {
                if slot < abi.rets[s].regs.len() {
                    registers.push(abi.rets[s].regs[slot]);
                    slots.set(kind, slot + 1);
                } else {
                    proof {
                        lemma_tuple_returns_err_stays(abi.rets@, kinds@, i as int + 1);
                    }
                    return Err(CallLoweringError::NoTupleReturnRegister(registers.len()));
                }
            },
            None => {
                proof {
                    lemma_tuple_returns_err_stays(abi.rets@, kinds@, i as int + 1);
                }
                return Err(CallLoweringError::NoTupleReturnRegister(registers.len()));
            },
        }
        i = i + 1;
    }
    assert(kinds@.subrange(0, kinds@.len() as int) =~= kinds@);
    Ok(registers)
}

} // verus!
