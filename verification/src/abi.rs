//! Calling-convention tables and the register-assignment walks over them.
use vstd::prelude::*;

verus! {

/// How the ABI classifies a value for register assignment.
#[derive(Debug, Clone, Copy, PartialEq, Eq, Hash, Structural)]
pub enum ValueKind {
    Int,
    Float,
    Vector,
}

/// A register class, by its index in the target's register-class table.
#[derive(Debug, Clone, Copy, PartialEq, Eq, Hash, Structural)]
pub struct RegClassId(pub u32);

/// What the target's register-class table records of one class: its name,
/// and the bit offset within its register file of the view the class reads.
#[derive(Debug, Clone, Copy)]
pub struct RegClassInfo {
    pub name: &'static str,
    pub view_bit_offset: u32,
}

/// A physical register: its class and encoding index.
#[derive(Debug, Clone, Copy, PartialEq, Eq, Hash, Structural)]
pub struct PhysReg(pub RegClassId, pub u16);

/// Where a sequence's values go once its registers run out.
#[derive(Debug, Clone, Copy, PartialEq, Eq, Structural)]
pub enum Overflow {
    /// Continue in the sequence of another kind.
    Chain(ValueKind),
    /// Continue on the stack.
    Stack,
}

#[derive(Debug, Clone, Copy, PartialEq, Eq, Structural)]
pub enum SaveStyle {
    FrameSlots,
    PushPop,
}

#[derive(Debug, Clone, Copy, PartialEq, Eq, Structural)]
pub enum ClassifierKind {
    Riscv,
    Aapcs64,
    Sysv,
}

/// Whether an argument group that does not fit in registers also uses up the
/// registers left in its sequences.
#[derive(Debug, Clone, Copy, PartialEq, Eq, Structural)]
pub enum GroupRollback {
    /// The remaining registers of the group's sequences are skipped.
    Exhaust,
    /// Later arguments may still take the remaining registers.
    Keep,
}

#[derive(Debug, Clone, Copy, PartialEq, Eq, Structural)]
pub struct StackLayout {
    pub align: u32,
    pub slot_size: u32,
    pub red_zone: u32,
    pub grows_down: bool,
    pub save_style: SaveStyle,
}

/// The registers values of one kind are passed in, in order, and where they
/// continue once those run out.
#[derive(Debug, Clone, PartialEq, Eq)]
pub struct PassSeq {
    pub kind: ValueKind,
    pub regs: Vec<PhysReg>,
    pub overflow: Overflow,
}

#[derive(Debug, Clone, Copy, PartialEq, Eq, Structural)]
pub struct ArgumentGroupAlignment {
    pub kind: ValueKind,
    pub minimum_source_alignment: u64,
    pub register_multiple: usize,
}

/// `slot` rounded up to a multiple of `m`.
pub open spec fn round_up(slot: int, m: int) -> int {
    ((slot + m - 1) / m) * m
}

/// The slot an aligned argument group starts at.
pub open spec fn spec_align_slot(a: ArgumentGroupAlignment, kind: ValueKind, source_alignment: u64, slot: usize) -> int {
    if kind != a.kind || source_alignment < a.minimum_source_alignment {
        slot as int
    } else {
        round_up(slot as int, a.register_multiple as int)
    }
}

/// The alignment applies and rounding up stays in range.
pub open spec fn align_slot_ok(a: ArgumentGroupAlignment, kind: ValueKind, source_alignment: u64, slot: usize) -> bool {
    kind != a.kind || source_alignment < a.minimum_source_alignment || (a.register_multiple > 0
        && round_up(slot as int, a.register_multiple as int) <= usize::MAX)
}

impl ArgumentGroupAlignment {
    /// The first slot at or after `slot` an aligned group of `kind` may start
    /// at: a multiple of `register_multiple` when the group's source alignment
    /// calls for it, `slot` otherwise.
    pub fn align_slot(self, kind: ValueKind, source_alignment: u64, slot: usize) -> (r: usize)
        requires
            align_slot_ok(self, kind, source_alignment, slot),
        ensures
            r == spec_align_slot(self, kind, source_alignment, slot),
    {
        if kind != self.kind || source_alignment < self.minimum_source_alignment {
            return slot;
        }
        let m = self.register_multiple;
        let q0 = slot / m;
        proof {
            assert(slot as int % m as int != 0 ==> m >= 2) by (nonlinear_arith)
                requires m > 0;
            assert(m >= 2 ==> q0 as int <= usize::MAX as int / 2) by (nonlinear_arith)
                requires q0 as int == slot as int / m as int, m > 0, slot <= usize::MAX;
        }
        let q = if slot % m == 0 { q0 } else { q0 + 1 };
        proof {
            assert(q as int == (slot as int + m as int - 1) / (m as int)) by (nonlinear_arith)
                requires
                    m > 0,
                    q as int == slot as int / m as int + if slot as int % m as int == 0 { 0int } else { 1int },
            ;
        }
        q * m
    }
}

/// A calling convention.
#[derive(Debug, Clone, PartialEq, Eq)]
pub struct AbiInfo {
    pub name: String,
    pub stack: StackLayout,
    pub sp: PhysReg,
    pub ra: Option<PhysReg>,
    pub fp: Option<PhysReg>,
    pub indirect_result: Option<PhysReg>,
    pub argument_group_alignment: Option<ArgumentGroupAlignment>,
    /// The most values one argument group may pass in registers, if bounded.
    pub argument_group_register_limit: Option<usize>,
    pub argument_group_rollback: GroupRollback,
    pub args: Vec<PassSeq>,
    pub rets: Vec<PassSeq>,
    pub callee_saved: Vec<PhysReg>,
    pub caller_saved: Vec<PhysReg>,
    pub reserved: Vec<PhysReg>,
    pub classifier: ClassifierKind,
}

/// Whether an argument group of `n` values may go in registers at all.
pub open spec fn spec_group_fits(abi: &AbiInfo, n: nat) -> bool {
    match abi.argument_group_register_limit {
        Some(limit) => n <= limit,
        None => true,
    }
}

impl AbiInfo {
    pub fn argument_group_fits_register_limit(&self, n: usize) -> (r: bool)
        ensures
            r == spec_group_fits(self, n as nat),
    {
        match self.argument_group_register_limit {
            Some(limit) => n <= limit,
            None => true,
        }
    }
}

/// The next unused register slot of each kind's argument sequence.
#[derive(Debug, Clone, Copy, PartialEq, Eq, Structural)]
pub struct NextSlot {
    pub int: usize,
    pub float: usize,
    pub vector: usize,
}

impl NextSlot {
    pub open spec fn spec_get(self, kind: ValueKind) -> usize {
        match kind {
            ValueKind::Int => self.int,
            ValueKind::Float => self.float,
            ValueKind::Vector => self.vector,
        }
    }

    pub open spec fn spec_set(self, kind: ValueKind, slot: usize) -> NextSlot {
        match kind {
            ValueKind::Int => NextSlot { int: slot, ..self },
            ValueKind::Float => NextSlot { float: slot, ..self },
            ValueKind::Vector => NextSlot { vector: slot, ..self },
        }
    }

    /// No sequence has handed out a register yet.
    pub fn new() -> (r: Self)
        ensures
            r.int == 0 && r.float == 0 && r.vector == 0,
    {
        NextSlot { int: 0, float: 0, vector: 0 }
    }

    pub fn get(&self, kind: ValueKind) -> (r: usize)
        ensures
            r == self.spec_get(kind),
    {
        match kind {
            ValueKind::Int => self.int,
            ValueKind::Float => self.float,
            ValueKind::Vector => self.vector,
        }
    }

    pub fn set(&mut self, kind: ValueKind, slot: usize)
        ensures
            *final(self) == old(self).spec_set(kind, slot),
    {
        match kind {
            ValueKind::Int => self.int = slot,
            ValueKind::Float => self.float = slot,
            ValueKind::Vector => self.vector = slot,
        }
    }
}

/// Round the slot of the alignment's kind up to the group alignment, when
/// the group holds a value of that kind.
pub open spec fn spec_align_argument_group(
    abi: &AbiInfo,
    source_alignment: u64,
    kinds: Seq<ValueKind>,
    slots: NextSlot,
) -> NextSlot {
    match abi.argument_group_alignment {
        None => slots,
        Some(a) => if kinds.contains(a.kind) {
            slots.spec_set(a.kind, spec_align_slot(a, a.kind, source_alignment, slots.spec_get(a.kind)) as usize)
        } else {
            slots
        },
    }
}

/// Start an argument group holding `kinds` at a properly aligned slot.
pub fn align_argument_group(abi: &AbiInfo, source_alignment: u64, kinds: &[ValueKind], next_slot: &mut NextSlot)
    requires
        abi.argument_group_alignment matches Some(a) ==> align_slot_ok(
            a,
            a.kind,
            source_alignment,
            old(next_slot).spec_get(a.kind),
        ),
    ensures
        *final(next_slot) == spec_align_argument_group(abi, source_alignment, kinds@, *old(next_slot)),
{
    let alignment = match abi.argument_group_alignment {
        Some(a) => a,
        None => return,
    };
    let mut found = false;
    let mut i: usize = 0;
    while i < kinds.len()
        invariant
            i <= kinds@.len(),
            found == exists|j: int| 0 <= j < i && kinds@[j] == alignment.kind,
        decreases kinds.len() - i,
    {
        if kinds[i] == alignment.kind {
            found = true;
        }
        i = i + 1;
    }
    if !found {
        assert(!kinds@.contains(alignment.kind));
        return;
    }
    assert(kinds@.contains(alignment.kind));
    let slot = next_slot.get(alignment.kind);
    let aligned = alignment.align_slot(alignment.kind, source_alignment, slot);
    next_slot.set(alignment.kind, aligned);
}

/// The kinds a walk along a chain of sequences has passed.
#[derive(Clone, Copy)]
pub struct Visited {
    pub int: bool,
    pub float: bool,
    pub vector: bool,
}

pub open spec fn visited_has(v: Visited, kind: ValueKind) -> bool {
    match kind {
        ValueKind::Int => v.int,
        ValueKind::Float => v.float,
        ValueKind::Vector => v.vector,
    }
}

pub open spec fn visited_mark(v: Visited, kind: ValueKind) -> Visited {
    match kind {
        ValueKind::Int => Visited { int: true, ..v },
        ValueKind::Float => Visited { float: true, ..v },
        ValueKind::Vector => Visited { vector: true, ..v },
    }
}

/// How many kinds a walk may still pass.
pub open spec fn unvisited(v: Visited) -> nat {
    (if v.int { 0nat } else { 1nat }) + (if v.float { 0nat } else { 1nat }) + (if v.vector { 0nat } else { 1nat })
}

pub open spec fn no_visits() -> Visited {
    Visited { int: false, float: false, vector: false }
}

/// The index of the first sequence for `kind`.
pub open spec fn find_seq(seqs: Seq<PassSeq>, kind: ValueKind) -> Option<int>
    decreases seqs.len(),
{
    if seqs.len() == 0 {
        None
    } else if find_seq(seqs.drop_last(), kind) is Some {
        find_seq(seqs.drop_last(), kind)
    } else if seqs.last().kind == kind {
        Some(seqs.len() - 1)
    } else {
        None
    }
}

pub proof fn lemma_find_seq(seqs: Seq<PassSeq>, kind: ValueKind)
    ensures
        match find_seq(seqs, kind) {
            Some(i) => 0 <= i < seqs.len() && seqs[i].kind == kind && forall|j: int| 0 <= j < i ==> seqs[j].kind != kind,
            None => forall|j: int| 0 <= j < seqs.len() ==> seqs[j].kind != kind,
        },
    decreases seqs.len(),
{
    if seqs.len() > 0 {
        let p = seqs.drop_last();
        lemma_find_seq(p, kind);
        assert(forall|j: int| 0 <= j < p.len() ==> p[j] == seqs[j]);
    }
}

/// The first sequence for `kind`: what `args.iter().find(..)` yields.
pub fn find_sequence(seqs: &Vec<PassSeq>, kind: ValueKind) -> (r: Option<usize>)
    ensures
        r matches Some(j) ==> find_seq(seqs@, kind) == Some(j as int) && j < seqs@.len(),
        r is None ==> find_seq(seqs@, kind) is None,
{
    proof {
        lemma_find_seq(seqs@, kind);
    }
    let mut i: usize = 0;
    while i < seqs.len()
        invariant
            i <= seqs@.len(),
            forall|j: int| 0 <= j < i ==> seqs@[j].kind != kind,
            match find_seq(seqs@, kind) {
                Some(k) => 0 <= k < seqs@.len() && seqs@[k].kind == kind && forall|j: int| 0 <= j < k ==> seqs@[j].kind != kind,
                None => forall|j: int| 0 <= j < seqs@.len() ==> seqs@[j].kind != kind,
            },
        decreases seqs.len() - i,
    {
        if seqs[i].kind == kind {
            return Some(i);
        }
        i = i + 1;
    }
    None
}

/// The register the next argument of `kind` is passed in, and the slots
/// after taking it; walking along overflow chains (a kind with no sequence
/// of its own falls back to the integer one) and giving up on a cycle, an
/// exhausted chain ending on the stack, or no integer sequence.
pub open spec fn spec_next_register(
    seqs: Seq<PassSeq>,
    kind: ValueKind,
    slots: NextSlot,
    visited: Visited,
) -> (Option<PhysReg>, NextSlot)
    decreases unvisited(visited),
{
    if visited_has(visited, kind) {
        (None, slots)
    } else {
        let seen = visited_mark(visited, kind);
        match find_seq(seqs, kind) {
            None => if kind != ValueKind::Int {
                spec_next_register(seqs, ValueKind::Int, slots, seen)
            } else {
                (None, slots)
            },
            Some(i) => {
                let slot = slots.spec_get(kind);
                if slot < seqs[i].regs@.len() {
                    (Some(seqs[i].regs@[slot as int]), slots.spec_set(kind, (slot + 1) as usize))
                } else {
                    match seqs[i].overflow {
                        Overflow::Chain(next) => spec_next_register(seqs, next, slots, seen),
                        Overflow::Stack => (None, slots),
                    }
                }
            },
        }
    }
}

/// The slots after the sequences a value of `kind` could use are all marked
/// used up: what an argument group passed on the stack leaves behind.
pub open spec fn spec_exhaust(seqs: Seq<PassSeq>, kind: ValueKind, slots: NextSlot, visited: Visited) -> NextSlot
    decreases unvisited(visited),
{
    if visited_has(visited, kind) {
        slots
    } else {
        let seen = visited_mark(visited, kind);
        match find_seq(seqs, kind) {
            None => if kind != ValueKind::Int {
                spec_exhaust(seqs, ValueKind::Int, slots, seen)
            } else {
                slots
            },
            Some(i) => {
                let slots2 = slots.spec_set(kind, seqs[i].regs@.len() as usize);
                match seqs[i].overflow {
                    Overflow::Chain(next) => spec_exhaust(seqs, next, slots2, seen),
                    Overflow::Stack => slots2,
                }
            },
        }
    }
}

fn mark(visited: &mut Visited, kind: ValueKind) -> (already: bool)
    ensures
        already == visited_has(*old(visited), kind),
        *final(visited) == visited_mark(*old(visited), kind),
        !already ==> unvisited(*final(visited)) < unvisited(*old(visited)),
{
    match kind {
        ValueKind::Int => {
            let a = visited.int;
            visited.int = true;
            a
        },
        ValueKind::Float => {
            let a = visited.float;
            visited.float = true;
            a
        },
        ValueKind::Vector => {
            let a = visited.vector;
            visited.vector = true;
            a
        },
    }
}

/// Mark every register a value of `kind` could still take as used.
pub fn exhaust_argument_registers(abi: &AbiInfo, kind: ValueKind, next_slot: &mut NextSlot)
    ensures
        *final(next_slot) == spec_exhaust(abi.args@, kind, *old(next_slot), no_visits()),
{
    let ghost start = *next_slot;
    let ghost first = kind;
    let mut cur = kind;
    let mut visited = Visited { int: false, float: false, vector: false };
    loop
        invariant
            spec_exhaust(abi.args@, cur, *next_slot, visited) == spec_exhaust(abi.args@, first, start, no_visits()),
            first == kind,
            start == *old(next_slot),
        decreases unvisited(visited),
    {
        if mark(&mut visited, cur) {
            return;
        }
        proof {
            lemma_find_seq(abi.args@, cur);
        }
        match find_sequence(&abi.args, cur) {
            None => {
                if cur != ValueKind::Int {
                    cur = ValueKind::Int;
                } else {
                    return;
                }
            },
            Some(i) => {
                next_slot.set(cur, abi.args[i].regs.len());
                match abi.args[i].overflow {
                    Overflow::Chain(next) => {
                        cur = next;
                    },
                    Overflow::Stack => {
                        return;
                    },
                }
            },
        }
    }
}

/// The register the next argument of `kind` is passed in: the next unused
/// register of its sequence, following overflow chains; `None` when the
/// value goes on the stack. Takes the register from `next_slot`.
pub fn next_register(abi: &AbiInfo, kind: ValueKind, next_slot: &mut NextSlot) -> (r: Option<PhysReg>)
    ensures
        (r, *final(next_slot)) == spec_next_register(abi.args@, kind, *old(next_slot), no_visits()),
{
    let ghost start = *next_slot;
    let ghost first = kind;
    let mut cur = kind;
    let mut visited = Visited { int: false, float: false, vector: false };
    loop
        invariant
            spec_next_register(abi.args@, cur, *next_slot, visited) == spec_next_register(abi.args@, first, start, no_visits()),
            first == kind,
            start == *old(next_slot),
            *next_slot == start,
        decreases unvisited(visited),
    {
        if mark(&mut visited, cur) {
            return None;
        }
        proof {
            lemma_find_seq(abi.args@, cur);
        }
        match find_sequence(&abi.args, cur) {
            None => {
                if cur != ValueKind::Int {
                    cur = ValueKind::Int;
                } else {
                    return None;
                }
            },
            Some(i) => {
                let slot = next_slot.get(cur);
                if slot < abi.args[i].regs.len() {
                    let register = abi.args[i].regs[slot];
                    next_slot.set(cur, slot + 1);
                    return Some(register);
                }
                match abi.args[i].overflow {
                    Overflow::Chain(next) => {
                        cur = next;
                    },
                    Overflow::Stack => {
                        return None;
                    },
                }
            },
        }
    }
}

/// The register class a stack-passed value of `kind` is copied through: the
/// class of the first register of the first sequence on its chain. `None`
/// when the chain cycles, has no integer sequence to fall back to, or passes
/// a sequence with no registers before reaching the stack.
pub open spec fn spec_stack_class(seqs: Seq<PassSeq>, kind: ValueKind, found: Option<RegClassId>, visited: Visited) -> Option<RegClassId>
    decreases unvisited(visited),
{
    if visited_has(visited, kind) {
        None
    } else {
        let seen = visited_mark(visited, kind);
        match find_seq(seqs, kind) {
            None => if kind != ValueKind::Int {
                spec_stack_class(seqs, ValueKind::Int, found, seen)
            } else {
                None
            },
            Some(i) => if seqs[i].regs@.len() == 0 {
                None
            } else {
                let class = match found {
                    Some(c) => c,
                    None => seqs[i].regs@[0].0,
                };
                match seqs[i].overflow {
                    Overflow::Chain(next) => spec_stack_class(seqs, next, Some(class), seen),
                    Overflow::Stack => Some(class),
                }
            },
        }
    }
}

pub fn stack_class(abi: &AbiInfo, kind: ValueKind) -> (r: Option<RegClassId>)
    ensures
        r == spec_stack_class(abi.args@, kind, None, no_visits()),
{
    let ghost first = kind;
    let mut cur = kind;
    let mut visited = Visited { int: false, float: false, vector: false };
    let mut value_class: Option<RegClassId> = None;
    loop
        invariant
            spec_stack_class(abi.args@, cur, value_class, visited) == spec_stack_class(abi.args@, first, None, no_visits()),
            first == kind,
        decreases unvisited(visited),
    {
        if mark(&mut visited, cur) {
            return None;
        }
        proof {
            lemma_find_seq(abi.args@, cur);
        }
        match find_sequence(&abi.args, cur) {
            None => {
                if cur != ValueKind::Int {
                    cur = ValueKind::Int;
                } else {
                    return None;
                }
            },
            Some(i) => {
                if abi.args[i].regs.len() == 0 {
                    return None;
                }
                if value_class.is_none() {
                    value_class = Some(abi.args[i].regs[0].0);
                }
                match abi.args[i].overflow {
                    Overflow::Chain(next) => {
                        cur = next;
                    },
                    Overflow::Stack => {
                        return value_class;
                    },
                }
            },
        }
    }
}

} // verus!
