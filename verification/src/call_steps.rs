//! The order in which a call is lowered: the decisions of call lowering as a
//! list of steps the backend carries out on the IR (copies through fresh
//! values, stack stores, the call itself, the results and what is erased).
use vstd::prelude::*;

use crate::abi::{find_seq, AbiInfo, PhysReg, RegClassId, ValueKind};
use crate::call_lowering::{
    group_kinds, indirect_callee_class, indirect_result_register, lemma_plan_count, plan_arguments, plan_fits,
    return_register, spec_outgoing_size, spec_plan_groups, spec_return_register, spec_tuple_returns,
    total_values, tuple_return_registers, ArgumentLocation, CallLoweringError,
};
use crate::ids::{OpId, ValueId};

verus! {

/// One use of a tuple call result: the `tuple_get` op `op` reads element
/// `index` into `value`.
#[derive(Debug, Clone, Copy, PartialEq, Eq, Structural)]
pub struct TupleExtract {
    pub index: usize,
    pub value: ValueId,
    pub op: OpId,
}

/// What a call calls: a symbol, or the function a value holds.
#[derive(Debug, Clone, Copy, PartialEq, Eq, Structural)]
pub enum CallTarget {
    Direct,
    Indirect(ValueId),
}

/// What becomes of a call's result.
pub enum CallResult {
    /// Nothing is returned.
    Unit,
    /// One value of `kind`.
    Scalar { value: ValueId, kind: ValueKind },
    /// A tuple with elements of `kinds`, read by the `tuple_get` ops of
    /// `extracts`.
    Tuple { kinds: Vec<ValueKind>, extracts: Vec<TupleExtract> },
}

/// A call as the lowering reads it off the IR.
pub struct CallShape {
    pub target: CallTarget,
    /// The kinds of each argument group: a scalar argument is a group of
    /// one, a tuple argument the group of its elements.
    pub groups: Vec<Vec<ValueKind>>,
    /// The argument values, group after group, one per kind.
    pub values: Vec<ValueId>,
    /// Where the callee writes an indirect result, if it does.
    pub indirect_result: Option<ValueId>,
    pub result: CallResult,
    /// The `make_tuple` ops of the tuple arguments, erased once consumed.
    pub tuple_makers: Vec<OpId>,
}

/// One step of lowering a call. Steps that copy into a fresh value make
/// fresh values numbered in order from 0; later steps name them by number.
#[derive(Debug, Clone, Copy, PartialEq, Eq, Structural)]
pub enum CallStep {
    /// Copy `value` into the next fresh value, of register class `class`.
    Detach { value: ValueId, class: RegClassId },
    /// Copy fresh value `fresh` into physical register `reg`.
    MoveToRegister { fresh: u64, reg: PhysReg },
    /// Store fresh value `fresh` (of `class`) at `offset` in an outgoing
    /// argument area of `outgoing_size` bytes.
    StoreToStack { fresh: u64, class: RegClassId, outgoing_size: u32, offset: i64 },
    /// Copy the return-address register into a new value.
    SaveReturnAddress(PhysReg),
    /// The target's instructions before a call with this outgoing area.
    Prefix(u32),
    /// Call the symbol, clobbering the caller-saved registers.
    CallDirect,
    /// Call through fresh value `fresh` (of `class`), clobbering the
    /// caller-saved registers.
    CallIndirect { fresh: u64, class: RegClassId },
    /// The target's instructions after a call with this outgoing area.
    Suffix(u32),
    /// Copy the saved return address back into its register.
    RestoreReturnAddress(PhysReg),
    /// Copy physical register `reg` into `value`, before the call op.
    MoveFromRegister { value: ValueId, reg: PhysReg },
    /// Erase operation `op`.
    Erase(OpId),
    /// Erase the call op.
    EraseCall,
    /// Replace the call op by a copy of physical register `reg` into
    /// `value`.
    ReplaceWithMove { value: ValueId, reg: PhysReg },
}

/// Whether `a` comes before `b` in the order tuple results are copied out:
/// by element index, then by value number.
pub open spec fn extract_before(a: TupleExtract, b: TupleExtract) -> bool {
    a.index < b.index || (a.index == b.index && a.value.0 < b.value.0)
}

/// Where `x` goes among the sorted `s` from position `k` on: before the
/// first element it comes before, else at the end.
pub open spec fn insert_pos(s: Seq<TupleExtract>, x: TupleExtract, k: int) -> int
    decreases s.len() - k,
{
    if k >= s.len() || extract_before(x, s[k]) {
        k
    } else {
        insert_pos(s, x, k + 1)
    }
}

/// `s` in copy-out order; extracts that tie keep their order.
pub open spec fn sort_extracts(s: Seq<TupleExtract>) -> Seq<TupleExtract>
    decreases s.len(),
{
    if s.len() == 0 {
        s
    } else {
        let t = sort_extracts(s.drop_last());
        t.insert(insert_pos(t, s.last(), 0), s.last())
    }
}

proof fn lemma_insert_pos(s: Seq<TupleExtract>, x: TupleExtract, k: int)
    requires
        0 <= k <= s.len(),
    ensures
        k <= insert_pos(s, x, k) <= s.len(),
    decreases s.len() - k,
{
    if k < s.len() && !extract_before(x, s[k]) {
        lemma_insert_pos(s, x, k + 1);
    }
}

/// Sorting keeps the length, and every element it gives back is one of
/// `s`'s.
proof fn lemma_sort_extracts(s: Seq<TupleExtract>)
    ensures
        sort_extracts(s).len() == s.len(),
        forall|k: int| 0 <= k < s.len() ==> exists|j: int| 0 <= j < s.len() && s[j] == #[trigger] sort_extracts(s)[k],
    decreases s.len(),
{
    if s.len() > 0 {
        let u = s.drop_last();
        lemma_sort_extracts(u);
        let t = sort_extracts(u);
        let p = insert_pos(t, s.last(), 0);
        lemma_insert_pos(t, s.last(), 0);
        assert forall|k: int| 0 <= k < s.len() implies exists|j: int| 0 <= j < s.len() && s[j] == #[trigger] sort_extracts(s)[k] by {
            let r = t.insert(p, s.last());
            if k < p {
                assert(r[k] == t[k]);
                let j = choose|j: int| 0 <= j < u.len() && u[j] == t[k];
                assert(s[j] == u[j]);
            } else if k == p {
                assert(r[k] == s.last());
                assert(s[s.len() - 1] == s.last());
            } else {
                assert(r[k] == t[k - 1]);
                let j = choose|j: int| 0 <= j < u.len() && u[j] == t[k - 1];
                assert(s[j] == u[j]);
            }
        }
    }
}

fn sort_extracts_exec(extracts: &Vec<TupleExtract>) -> (r: Vec<TupleExtract>)
    ensures
        r@ == sort_extracts(extracts@),
{
    let mut out: Vec<TupleExtract> = Vec::new();
    let mut i: usize = 0;
    while i < extracts.len()
        invariant
            i <= extracts@.len(),
            out@ == sort_extracts(extracts@.subrange(0, i as int)),
        decreases extracts.len() - i,
    {
        let x = extracts[i];
        proof {
            assert(extracts@.subrange(0, i + 1).drop_last() =~= extracts@.subrange(0, i as int));
            assert(extracts@.subrange(0, i + 1).last() == x);
            lemma_insert_pos(out@, x, 0);
        }
        let mut k: usize = 0;
        while k < out.len() && !(x.index < out[k].index || (x.index == out[k].index && x.value.0 < out[k].value.0))
            invariant
                k <= out@.len(),
                insert_pos(out@, x, k as int) == insert_pos(out@, x, 0),
            decreases out.len() - k,
        {
            k = k + 1;
        }
        out.insert(k, x);
        i = i + 1;
    }
    assert(extracts@.subrange(0, extracts@.len() as int) =~= extracts@);
    out
}

/// Copy each extract's element out of its register, in copy-out order.
pub open spec fn extract_moves(sorted: Seq<TupleExtract>, regs: Seq<PhysReg>) -> Seq<CallStep> {
    Seq::new(sorted.len(), |k: int| CallStep::MoveFromRegister { value: sorted[k].value, reg: regs[sorted[k].index as int] })
}

/// Erase each extract's `tuple_get`, in copy-out order.
pub open spec fn extract_erasures(sorted: Seq<TupleExtract>) -> Seq<CallStep> {
    Seq::new(sorted.len(), |k: int| CallStep::Erase(sorted[k].op))
}

/// The steps after the call for a tuple result of `kinds` read by
/// `extracts`: each element read is copied out of its return register, in
/// copy-out order, then the reads and the call are erased.
pub open spec fn spec_tuple_result_steps(abi: &AbiInfo, kinds: Seq<ValueKind>, extracts: Seq<TupleExtract>) -> Result<Seq<CallStep>, CallLoweringError> {
    match spec_tuple_returns(abi.rets@, kinds) {
        Err(e) => Err(e),
        Ok((regs, _)) => if exists|j: int| 0 <= j < extracts.len() && #[trigger] extracts[j].index >= regs.len() {
            Err(CallLoweringError::TupleIndexOutOfBounds)
        } else {
            let sorted = sort_extracts(extracts);
            Ok(extract_moves(sorted, regs) + extract_erasures(sorted) + seq![CallStep::EraseCall])
        },
    }
}

/// The steps after the call for its result: none to copy for a unit result
/// (the call is erased), a copy out of the return register replacing the
/// call for a scalar, and the tuple steps for a tuple.
pub open spec fn spec_result_steps(abi: &AbiInfo, result: &CallResult) -> Result<Seq<CallStep>, CallLoweringError> {
    match result {
        CallResult::Unit => Ok(seq![CallStep::EraseCall]),
        CallResult::Scalar { value, kind } => match spec_return_register(abi.rets@, *kind) {
            Some(reg) => Ok(seq![CallStep::ReplaceWithMove { value: *value, reg }]),
            None => Err(CallLoweringError::NoReturnRegister),
        },
        CallResult::Tuple { kinds, extracts } => spec_tuple_result_steps(abi, kinds@, extracts@),
    }
}

fn tuple_result_steps(abi: &AbiInfo, kinds: &Vec<ValueKind>, extracts: &Vec<TupleExtract>) -> (r: Result<Vec<CallStep>, CallLoweringError>)
    ensures
        match spec_tuple_result_steps(abi, kinds@, extracts@) {
            Ok(steps) => r matches Ok(v) && v@ == steps,
            Err(e) => r == Err::<Vec<CallStep>, CallLoweringError>(e),
        },
{
    let regs = match tuple_return_registers(abi, kinds) {
        Ok(regs) => regs,
        Err(e) => return Err(e),
    };
    let mut j: usize = 0;
    while j < extracts.len()
        invariant
            j <= extracts@.len(),
            spec_tuple_returns(abi.rets@, kinds@) matches Ok((rs, _)) && rs == regs@,
            forall|i: int| 0 <= i < j ==> #[trigger] extracts@[i].index < regs@.len(),
        decreases extracts.len() - j,
    {
        if extracts[j].index >= regs.len() {
            proof {
                assert(extracts@[j as int].index >= regs@.len());
            }
            return Err(CallLoweringError::TupleIndexOutOfBounds);
        }
        j = j + 1;
    }
    let sorted = sort_extracts_exec(extracts);
    proof {
        lemma_sort_extracts(extracts@);
    }
    let ghost n = sorted@.len();
    let mut steps: Vec<CallStep> = Vec::new();
    let mut k: usize = 0;
    while k < sorted.len()
        invariant
            k <= sorted@.len(),
            spec_tuple_returns(abi.rets@, kinds@) matches Ok((rs, _)) && rs == regs@,
            sorted@ == sort_extracts(extracts@),
            sorted@.len() == extracts@.len(),
            forall|i: int| 0 <= i < extracts@.len() ==> #[trigger] extracts@[i].index < regs@.len(),
            forall|i: int| 0 <= i < extracts@.len() ==> exists|j: int| 0 <= j < extracts@.len() && extracts@[j] == #[trigger] sorted@[i],
            steps@ == extract_moves(sorted@, regs@).subrange(0, k as int),
        decreases sorted.len() - k,
    {
        let e = sorted[k];
        proof {
            let j = choose|j: int| 0 <= j < extracts@.len() && extracts@[j] == sorted@[k as int];
            assert(extracts@[j].index < regs@.len());
        }
        steps.push(CallStep::MoveFromRegister { value: e.value, reg: regs[e.index] });
        assert(steps@ =~= extract_moves(sorted@, regs@).subrange(0, k + 1));
        k = k + 1;
    }
    assert(steps@ =~= extract_moves(sorted@, regs@));
    let mut k: usize = 0;
    while k < sorted.len()
        invariant
            k <= sorted@.len(),
            spec_tuple_returns(abi.rets@, kinds@) matches Ok((rs, _)) && rs == regs@,
            sorted@ == sort_extracts(extracts@),
            forall|i: int| 0 <= i < extracts@.len() ==> #[trigger] extracts@[i].index < regs@.len(),
            steps@ == extract_moves(sorted@, regs@) + extract_erasures(sorted@).subrange(0, k as int),
        decreases sorted.len() - k,
    {
        steps.push(CallStep::Erase(sorted[k].op));
        assert(steps@ =~= extract_moves(sorted@, regs@) + extract_erasures(sorted@).subrange(0, k + 1));
        k = k + 1;
    }
    assert(extract_erasures(sorted@).subrange(0, sorted@.len() as int) =~= extract_erasures(sorted@));
    steps.push(CallStep::EraseCall);
    Ok(steps)
}

fn result_steps(abi: &AbiInfo, result: &CallResult) -> (r: Result<Vec<CallStep>, CallLoweringError>)
    ensures
        match spec_result_steps(abi, result) {
            Ok(steps) => r matches Ok(v) && v@ == steps,
            Err(e) => r == Err::<Vec<CallStep>, CallLoweringError>(e),
        },
{
    match result {
        CallResult::Unit => Ok(vec![CallStep::EraseCall]),
        CallResult::Scalar { value, kind } => match return_register(abi, *kind) {
            Ok(reg) => Ok(vec![CallStep::ReplaceWithMove { value: *value, reg }]),
            Err(e) => Err(e),
        },
        CallResult::Tuple { kinds, extracts } => tuple_result_steps(abi, kinds, extracts),
    }
}

/// The register class an argument travels through to its location.
pub open spec fn location_class(l: ArgumentLocation) -> RegClassId {
    match l {
        ArgumentLocation::Register(reg) => reg.0,
        ArgumentLocation::Stack { class, .. } => class,
    }
}

/// The class an indirect callee is copied through: that of the first
/// integer argument register, if the ABI has one.
pub open spec fn spec_callee_class(abi: &AbiInfo) -> Option<RegClassId> {
    match find_seq(abi.args@, ValueKind::Int) {
        Some(i) => if abi.args@[i].regs@.len() > 0 { Some(abi.args@[i].regs@[0].0) } else { None },
        None => None,
    }
}

/// How many fresh values the callee takes: one for an indirect callee.
pub open spec fn callee_fresh(target: CallTarget) -> nat {
    if target is Indirect { 1 } else { 0 }
}

pub open spec fn callee_detach(target: CallTarget, class: RegClassId) -> Seq<CallStep> {
    match target {
        CallTarget::Indirect(v) => seq![CallStep::Detach { value: v, class }],
        CallTarget::Direct => Seq::empty(),
    }
}

pub open spec fn indirect_result_detach(ir: Option<(ValueId, PhysReg)>) -> Seq<CallStep> {
    match ir {
        Some((v, reg)) => seq![CallStep::Detach { value: v, class: reg.0 }],
        None => Seq::empty(),
    }
}

/// Detach each argument value into the class of its location.
pub open spec fn argument_detaches(values: Seq<ValueId>, locs: Seq<ArgumentLocation>) -> Seq<CallStep> {
    Seq::new(values.len(), |k: int| CallStep::Detach { value: values[k], class: location_class(locs[k]) })
}

/// Put argument `k`'s fresh value (number `base + k`) in its place.
pub open spec fn argument_move(l: ArgumentLocation, fresh: u64, outgoing: u32) -> CallStep {
    match l {
        ArgumentLocation::Register(reg) => CallStep::MoveToRegister { fresh, reg },
        ArgumentLocation::Stack { class, offset } => CallStep::StoreToStack { fresh, class, outgoing_size: outgoing, offset },
    }
}

pub open spec fn argument_moves(locs: Seq<ArgumentLocation>, base: nat, outgoing: u32) -> Seq<CallStep> {
    Seq::new(locs.len(), |k: int| argument_move(locs[k], (base + k) as u64, outgoing))
}

pub open spec fn indirect_result_move(ir: Option<(ValueId, PhysReg)>, fresh: nat) -> Seq<CallStep> {
    match ir {
        Some((_, reg)) => seq![CallStep::MoveToRegister { fresh: fresh as u64, reg }],
        None => Seq::empty(),
    }
}

pub open spec fn save_return_address(ra: Option<PhysReg>) -> Seq<CallStep> {
    match ra {
        Some(reg) => seq![CallStep::SaveReturnAddress(reg)],
        None => Seq::empty(),
    }
}

pub open spec fn restore_return_address(ra: Option<PhysReg>) -> Seq<CallStep> {
    match ra {
        Some(reg) => seq![CallStep::RestoreReturnAddress(reg)],
        None => Seq::empty(),
    }
}

pub open spec fn call_step(target: CallTarget, class: RegClassId) -> CallStep {
    match target {
        CallTarget::Direct => CallStep::CallDirect,
        CallTarget::Indirect(_) => CallStep::CallIndirect { fresh: 0, class },
    }
}

pub open spec fn erase_all(ops: Seq<OpId>) -> Seq<CallStep> {
    Seq::new(ops.len(), |k: int| CallStep::Erase(ops[k]))
}

/// The register an indirect result's address goes in, when the call has
/// one.
pub open spec fn spec_indirect_result(abi: &AbiInfo, ir: Option<ValueId>) -> Result<Option<(ValueId, PhysReg)>, CallLoweringError> {
    match ir {
        None => Ok(None),
        Some(v) => match abi.indirect_result {
            Some(reg) => Ok(Some((v, reg))),
            None => Err(CallLoweringError::NoIndirectResultRegister),
        },
    }
}

/// How a call is lowered, in order: every value the call reads is first
/// copied into a fresh value (an indirect callee, then an indirect result's
/// address, then each argument into the class of its location); each
/// argument then goes to its register or stack slot, and the indirect
/// result's address to its register; the return address is saved, the
/// target's prefix, the call and its suffix follow, and the return address
/// is restored; then the result steps, and last the tuple arguments'
/// `make_tuple` ops are erased. The errors, in the order they are found:
/// planning the arguments, the indirect callee class (needed even for a
/// direct call), the indirect result register, the result registers.
pub open spec fn spec_call_steps(abi: &AbiInfo, call: &CallShape) -> Result<Seq<CallStep>, CallLoweringError> {
    match spec_plan_groups(abi, group_kinds(call.groups@)) {
        Err(e) => Err(e),
        Ok((locs, _, n)) => match spec_callee_class(abi) {
            None => Err(CallLoweringError::NoIntegerArgumentRegisters),
            Some(class) => match spec_indirect_result(abi, call.indirect_result) {
                Err(e) => Err(e),
                Ok(ir) => match spec_result_steps(abi, &call.result) {
                    Err(e) => Err(e),
                    Ok(after) => {
                        let out = spec_outgoing_size(n, abi.stack.slot_size, abi.stack.align) as u32;
                        let base = callee_fresh(call.target) + if ir is Some { 1nat } else { 0nat };
                        Ok(callee_detach(call.target, class) + indirect_result_detach(ir)
                            + argument_detaches(call.values@, locs) + argument_moves(locs, base, out)
                            + indirect_result_move(ir, callee_fresh(call.target)) + save_return_address(abi.ra)
                            + seq![CallStep::Prefix(out), call_step(call.target, class), CallStep::Suffix(out)]
                            + restore_return_address(abi.ra) + after + erase_all(call.tuple_makers@))
                    },
                },
            },
        },
    }
}

fn push_argument_detaches(steps: &mut Vec<CallStep>, values: &Vec<ValueId>, locs: &Vec<ArgumentLocation>)
    requires
        values@.len() == locs@.len(),
    ensures
        final(steps)@ == old(steps)@ + argument_detaches(values@, locs@),
{
    let ghost head = steps@;
    let n = values.len();
    let mut k: usize = 0;
    while k < n
        invariant
            k <= n,
            n == values@.len(),
            locs@.len() == n,
            steps@ == head + argument_detaches(values@, locs@).subrange(0, k as int),
        decreases n - k,
    {
        let class = locs[k].class();
        steps.push(CallStep::Detach { value: values[k], class });
        assert(steps@ =~= head + argument_detaches(values@, locs@).subrange(0, k + 1));
        k = k + 1;
    }
    assert(argument_detaches(values@, locs@).subrange(0, n as int) =~= argument_detaches(values@, locs@));
}

fn push_argument_moves(steps: &mut Vec<CallStep>, locs: &Vec<ArgumentLocation>, base: u64, out: u32)
    requires
        locs@.len() <= u32::MAX,
        base <= 2,
    ensures
        final(steps)@ == old(steps)@ + argument_moves(locs@, base as nat, out),
{
    let ghost head = steps@;
    let n = locs.len();
    let mut k: usize = 0;
    while k < n
        invariant
            k <= n,
            n == locs@.len(),
            n <= u32::MAX,
            base <= 2,
            steps@ == head + argument_moves(locs@, base as nat, out).subrange(0, k as int),
        decreases n - k,
    {
        let fresh: u64 = base + k as u64;
        let step = match locs[k] {
            ArgumentLocation::Register(reg) => CallStep::MoveToRegister { fresh, reg },
            ArgumentLocation::Stack { class, offset } => CallStep::StoreToStack { fresh, class, outgoing_size: out, offset },
        };
        steps.push(step);
        assert(steps@ =~= head + argument_moves(locs@, base as nat, out).subrange(0, k + 1));
        k = k + 1;
    }
    assert(argument_moves(locs@, base as nat, out).subrange(0, n as int) =~= argument_moves(locs@, base as nat, out));
}

fn push_steps(steps: &mut Vec<CallStep>, more: &Vec<CallStep>)
    ensures
        final(steps)@ == old(steps)@ + more@,
{
    let ghost head = steps@;
    let mut k: usize = 0;
    while k < more.len()
        invariant
            k <= more@.len(),
            steps@ == head + more@.subrange(0, k as int),
        decreases more.len() - k,
    {
        steps.push(more[k]);
        assert(steps@ =~= head + more@.subrange(0, k + 1));
        k = k + 1;
    }
    assert(more@.subrange(0, more@.len() as int) =~= more@);
}

fn push_erasures(steps: &mut Vec<CallStep>, ops: &Vec<OpId>)
    ensures
        final(steps)@ == old(steps)@ + erase_all(ops@),
{
    let ghost head = steps@;
    let mut k: usize = 0;
    while k < ops.len()
        invariant
            k <= ops@.len(),
            steps@ == head + erase_all(ops@).subrange(0, k as int),
        decreases ops.len() - k,
    {
        steps.push(CallStep::Erase(ops[k]));
        assert(steps@ =~= head + erase_all(ops@).subrange(0, k + 1));
        k = k + 1;
    }
    assert(erase_all(ops@).subrange(0, ops@.len() as int) =~= erase_all(ops@));
}

/// The steps between the argument moves and the result: the indirect
/// result's address to its register, the saved return address, the
/// target's prefix, the call, its suffix, and the restored return address.
fn push_call(steps: &mut Vec<CallStep>, target: CallTarget, class: RegClassId, ir: Option<(ValueId, PhysReg)>, ir_fresh: u64, ra: Option<PhysReg>, out: u32)
    ensures
        final(steps)@ == old(steps)@ + indirect_result_move(ir, ir_fresh as nat) + save_return_address(ra)
            + seq![CallStep::Prefix(out), call_step(target, class), CallStep::Suffix(out)] + restore_return_address(ra),
{
    let ghost head = steps@;
    match ir {
        Some((_, reg)) => steps.push(CallStep::MoveToRegister { fresh: ir_fresh, reg }),
        None => {},
    }
    match ra {
        Some(reg) => steps.push(CallStep::SaveReturnAddress(reg)),
        None => {},
    }
    steps.push(CallStep::Prefix(out));
    match target {
        CallTarget::Direct => steps.push(CallStep::CallDirect),
        CallTarget::Indirect(_) => steps.push(CallStep::CallIndirect { fresh: 0, class }),
    }
    steps.push(CallStep::Suffix(out));
    match ra {
        Some(reg) => steps.push(CallStep::RestoreReturnAddress(reg)),
        None => {},
    }
    assert(steps@ =~= head + indirect_result_move(ir, ir_fresh as nat) + save_return_address(ra)
        + seq![CallStep::Prefix(out), call_step(target, class), CallStep::Suffix(out)] + restore_return_address(ra));
}

/// The steps that lower `call` under `abi`, or why it cannot be lowered.
pub fn call_steps(abi: &AbiInfo, call: &CallShape) -> (r: Result<Vec<CallStep>, CallLoweringError>)
    requires
        plan_fits(abi, call.groups@),
        call.values@.len() == total_values(call.groups@),
    ensures
        match spec_call_steps(abi, call) {
            Ok(steps) => r matches Ok(v) && v@ == steps,
            Err(e) => r == Err::<Vec<CallStep>, CallLoweringError>(e),
        },
{
    proof {
        lemma_plan_count(abi, call.groups@);
    }
    let plan = match plan_arguments(abi, &call.groups) {
        Ok(plan) => plan,
        Err(e) => return Err(e),
    };
    let class = match indirect_callee_class(abi) {
        Ok(class) => class,
        Err(e) => return Err(e),
    };
    let ir: Option<(ValueId, PhysReg)> = match call.indirect_result {
        None => None,
        Some(v) => match indirect_result_register(abi) {
            Ok(reg) => Some((v, reg)),
            Err(e) => return Err(e),
        },
    };
    let after = match result_steps(abi, &call.result) {
        Ok(steps) => steps,
        Err(e) => return Err(e),
    };
    let out = plan.outgoing_size;
    let mut steps: Vec<CallStep> = Vec::new();
    let mut base: u64 = 0;
    match call.target {
        CallTarget::Indirect(v) => {
            steps.push(CallStep::Detach { value: v, class });
            base = 1;
        },
        CallTarget::Direct => {},
    }
    let ir_fresh = base;
    match ir {
        Some((v, reg)) => {
            steps.push(CallStep::Detach { value: v, class: reg.0 });
            base = base + 1;
        },
        None => {},
    }
    let ghost s0 = steps@;
    push_argument_detaches(&mut steps, &call.values, &plan.locations);
    push_argument_moves(&mut steps, &plan.locations, base, out);
    push_call(&mut steps, call.target, class, ir, ir_fresh, abi.ra, out);
    push_steps(&mut steps, &after);
    push_erasures(&mut steps, &call.tuple_makers);
    proof {
        let locs = plan.locations@;
        assert(s0 =~= callee_detach(call.target, class) + indirect_result_detach(ir));
        assert(ir_fresh as nat == callee_fresh(call.target));
        assert(base as nat == callee_fresh(call.target) + if ir is Some { 1nat } else { 0nat });
        let s = spec_call_steps(abi, call)->Ok_0;
        assert(steps@ =~= s);
    }
    Ok(steps)
}

/// Lowering an indirect-result op: it becomes a copy of the ABI's indirect
/// result register into its result.
pub fn indirect_result_step(abi: &AbiInfo, result: ValueId) -> (r: Result<CallStep, CallLoweringError>)
    ensures
        match abi.indirect_result {
            Some(reg) => r == Ok::<CallStep, CallLoweringError>(CallStep::ReplaceWithMove { value: result, reg }),
            None => r == Err::<CallStep, CallLoweringError>(CallLoweringError::NoIndirectResultRegister),
        },
{
    match indirect_result_register(abi) {
        Ok(reg) => Ok(CallStep::ReplaceWithMove { value: result, reg }),
        Err(e) => Err(e),
    }
}

/// The fresh value a step reads, if it reads one.
pub open spec fn fresh_read(s: CallStep) -> Option<u64> {
    match s {
        CallStep::MoveToRegister { fresh, .. } => Some(fresh),
        CallStep::StoreToStack { fresh, .. } => Some(fresh),
        CallStep::CallIndirect { fresh, .. } => Some(fresh),
        _ => None,
    }
}

/// How many fresh values `steps` make.
pub open spec fn fresh_made(steps: Seq<CallStep>) -> nat
    decreases steps.len(),
{
    if steps.len() == 0 {
        0
    } else {
        fresh_made(steps.drop_last()) + if steps.last() is Detach { 1nat } else { 0nat }
    }
}

proof fn lemma_fresh_made_concat(a: Seq<CallStep>, b: Seq<CallStep>)
    ensures
        fresh_made(a + b) == fresh_made(a) + fresh_made(b),
    decreases b.len(),
{
    if b.len() == 0 {
        assert(a + b =~= a);
    } else {
        lemma_fresh_made_concat(a, b.drop_last());
        assert((a + b).drop_last() =~= a + b.drop_last());
    }
}

proof fn lemma_fresh_made_all_detach(a: Seq<CallStep>)
    requires
        forall|k: int| 0 <= k < a.len() ==> #[trigger] a[k] is Detach,
    ensures
        fresh_made(a) == a.len(),
    decreases a.len(),
{
    if a.len() > 0 {
        lemma_fresh_made_all_detach(a.drop_last());
    }
}

/// Every fresh value a lowering step reads was made by an earlier step:
/// the copies into fresh values all come first.
pub proof fn law_fresh_values_made_before_read(abi: &AbiInfo, call: &CallShape)
    requires
        plan_fits(abi, call.groups@),
        call.values@.len() == total_values(call.groups@),
    ensures
        spec_call_steps(abi, call) matches Ok(steps) ==> forall|i: int| 0 <= i < steps.len()
            ==> (fresh_read(#[trigger] steps[i]) matches Some(f) ==> f < fresh_made(steps.subrange(0, i))),
{
    lemma_plan_count(abi, call.groups@);
    if let Ok(steps) = spec_call_steps(abi, call) {
        let (locs, _, n) = spec_plan_groups(abi, group_kinds(call.groups@))->Ok_0;
        let class = spec_callee_class(abi)->0;
        let ir = spec_indirect_result(abi, call.indirect_result)->Ok_0;
        let after = spec_result_steps(abi, &call.result)->Ok_0;
        let out = spec_outgoing_size(n, abi.stack.slot_size, abi.stack.align) as u32;
        let base = callee_fresh(call.target) + if ir is Some { 1nat } else { 0nat };
        let d = callee_detach(call.target, class) + indirect_result_detach(ir) + argument_detaches(call.values@, locs);
        let rest = argument_moves(locs, base, out) + indirect_result_move(ir, callee_fresh(call.target)) + save_return_address(abi.ra)
            + seq![CallStep::Prefix(out), call_step(call.target, class), CallStep::Suffix(out)]
            + restore_return_address(abi.ra) + after + erase_all(call.tuple_makers@);
        assert(steps =~= d + rest);
        let len = d.len();
        assert(len == base + locs.len());
        assert forall|k: int| 0 <= k < d.len() implies #[trigger] d[k] is Detach by {}
        lemma_fresh_made_all_detach(d);
        assert forall|k: int| 0 <= k < rest.len() implies (fresh_read(#[trigger] rest[k]) matches Some(f) ==> f < len) by {
            let m = argument_moves(locs, base, out);
            let m2 = m + indirect_result_move(ir, callee_fresh(call.target));
            if k < m.len() {
                assert(rest[k] == m[k]);
            } else if k < m2.len() {
                assert(rest[k] == m2[k]);
            } else {
                let c0 = m2 + save_return_address(abi.ra);
                let c1 = c0 + seq![CallStep::Prefix(out), call_step(call.target, class), CallStep::Suffix(out)];
                let c2 = c1 + restore_return_address(abi.ra);
                let c3 = c2 + after;
                if k < c0.len() {
                    assert(rest[k] == c0[k]);
                } else if k < c1.len() {
                    assert(rest[k] == c1[k]);
                } else if k < c2.len() {
                    assert(rest[k] == c2[k]);
                } else if k < c3.len() {
                    assert(rest[k] == after[k - c2.len()]);
                    lemma_result_steps_read_nothing(abi, &call.result);
                } else {
                    assert(rest[k] == erase_all(call.tuple_makers@)[k - c3.len()]);
                }
            }
        }
        assert forall|i: int| 0 <= i < steps.len() implies (fresh_read(#[trigger] steps[i]) matches Some(f) ==> f < fresh_made(steps.subrange(0, i))) by {
            if i < len {
                assert(steps[i] == d[i]);
            } else {
                assert(steps[i] == rest[i - len]);
                let p = steps.subrange(0, i);
                assert(p =~= d + rest.subrange(0, i - len));
                lemma_fresh_made_concat(d, rest.subrange(0, i - len));
            }
        }
    }
}

proof fn lemma_result_steps_read_nothing(abi: &AbiInfo, result: &CallResult)
    ensures
        spec_result_steps(abi, result) matches Ok(after) ==> forall|k: int| 0 <= k < after.len() ==> fresh_read(#[trigger] after[k]) is None,
{
    if let CallResult::Tuple { kinds, extracts } = result {
        if let Ok(after) = spec_tuple_result_steps(abi, kinds@, extracts@) {
            let (regs, _) = spec_tuple_returns(abi.rets@, kinds@)->Ok_0;
            let sorted = sort_extracts(extracts@);
            let a = extract_moves(sorted, regs);
            let b = extract_erasures(sorted);
            assert forall|k: int| 0 <= k < after.len() implies fresh_read(#[trigger] after[k]) is None by {
                if k < a.len() {
                    assert(after[k] == a[k]);
                } else if k < a.len() + b.len() {
                    assert(after[k] == b[k - a.len()]);
                } else {
                    assert(after[k] == CallStep::EraseCall);
                }
            }
        }
    }
}

} // verus!
