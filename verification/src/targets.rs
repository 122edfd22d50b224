//! The concrete targets the tools can select: their names, the machine
//! models they offer, and the RISC-V register allocator's spill and frame
//! code.
use vstd::prelude::*;

use crate::attributes::{AttributeValue, AttributeValueView, NamedAttribute, RegisterAttr, RegisterAttrView};
use crate::rules::EmittedOp;
use crate::text::str_eq;

verus! {

/// The cycle-approximate machine models a target offers.
#[derive(Clone, Copy, Debug, PartialEq, Eq, Structural)]
pub enum MachineModelKind {
    InOrder,
    OutOfOrder,
}

pub open spec fn spec_machine_model_kind(name: Seq<char>) -> Option<MachineModelKind> {
    if name == "in-order"@ || name == "inorder"@ {
        Some(MachineModelKind::InOrder)
    } else if name == "ooo"@ || name == "out-of-order"@ {
        Some(MachineModelKind::OutOfOrder)
    } else {
        None
    }
}

/// The machine model a target offers under `name`, if any.
pub fn machine_model_kind(name: &str) -> (r: Option<MachineModelKind>)
    ensures
        r == spec_machine_model_kind(name@),
{
    if str_eq(name, "in-order") || str_eq(name, "inorder") {
        Some(MachineModelKind::InOrder)
    } else if str_eq(name, "ooo") || str_eq(name, "out-of-order") {
        Some(MachineModelKind::OutOfOrder)
    } else {
        None
    }
}

/// The AArch64 target, under the canonical name its configuration chose.
pub struct Arm64Target {
    canonical_name: &'static str,
}

/// The RISC-V target, under the canonical name its configuration chose.
pub struct RiscvTarget {
    canonical_name: &'static str,
}

impl Arm64Target {
    pub fn new(canonical_name: &'static str) -> (r: Self)
        ensures
            r.spec_name() == canonical_name,
    {
        Arm64Target { canonical_name }
    }

    pub closed spec fn spec_name(&self) -> &'static str {
        self.canonical_name
    }

    pub fn name(&self) -> (r: &'static str)
        ensures
            r == self.spec_name(),
    {
        self.canonical_name
    }

    pub fn machine_model(&self, name: &str) -> (r: Option<MachineModelKind>)
        ensures
            r == spec_machine_model_kind(name@),
    {
        machine_model_kind(name)
    }
}

impl RiscvTarget {
    pub fn new(canonical_name: &'static str) -> (r: Self)
        ensures
            r.spec_name() == canonical_name,
    {
        RiscvTarget { canonical_name }
    }

    pub closed spec fn spec_name(&self) -> &'static str {
        self.canonical_name
    }

    pub fn name(&self) -> (r: &'static str)
        ensures
            r == self.spec_name(),
    {
        self.canonical_name
    }

    pub fn machine_model(&self, name: &str) -> (r: Option<MachineModelKind>)
        ensures
            r == spec_machine_model_kind(name@),
    {
        machine_model_kind(name)
    }
}

/// The RISC-V stack pointer: `x2` of the general-purpose register file.
pub const SP_CLASS: &'static str = "GPR";
pub const SP_INDEX: u16 = 2;

/// RISC-V register allocation target: `sd`/`ld` spill code and an
/// `addi sp, sp, -frame` / `addi sp, sp, frame` prologue and epilogue.
pub struct RiscvRegAlloc;

pub open spec fn phys_view(frame: (Seq<char>, u16)) -> AttributeValueView {
    AttributeValueView::Register(RegisterAttrView::Physical(frame.0, frame.1))
}

pub open spec fn virt_view(value: u32, class: Seq<char>) -> AttributeValueView {
    AttributeValueView::Register(RegisterAttrView::Virtual(value, Some(class)))
}

/// `op` is `(dialect, name)` with the named attributes `attrs`, in order.
pub open spec fn emitted_as(op: &EmittedOp, identity: (&str, &str), attrs: Seq<(Seq<char>, AttributeValueView)>) -> bool {
    &&& op.op.0@ == identity.0@
    &&& op.op.1@ == identity.1@
    &&& op.attributes@.len() == attrs.len()
    &&& forall|i: int| 0 <= i < attrs.len() ==> (#[trigger] op.attributes@[i]).name@ == attrs[i].0 && op.attributes@[i].value@ == attrs[i].1
}

fn named(name: &str, value: AttributeValue) -> (r: NamedAttribute)
    ensures
        r.name@ == name@,
        r.value == value,
{
    NamedAttribute::new(name.to_owned(), value)
}

fn phys(frame: &(String, u16)) -> (r: AttributeValue)
    ensures
        r@ == phys_view((frame.0@, frame.1)),
{
    AttributeValue::Register(RegisterAttr::Physical { class: frame.0.clone(), index: frame.1 })
}

fn virt(value: u32, class: &str) -> (r: AttributeValue)
    ensures
        r@ == virt_view(value, class@),
{
    AttributeValue::Register(RegisterAttr::Virtual { id: value, class: Some(class.to_owned()) })
}

impl RiscvRegAlloc {
    /// The register frames are addressed from: the stack pointer.
    pub fn frame_register(&self) -> (r: (String, u16))
        ensures
            r.0@ == SP_CLASS@,
            r.1 == SP_INDEX,
    {
        (SP_CLASS.to_owned(), SP_INDEX)
    }

    /// `sd value, offset(frame)`: spill virtual register `value` of `class`.
    pub fn emit_spill_store(&self, value: u32, class: &str, frame: &(String, u16), offset: i64) -> (r: EmittedOp)
        ensures
            emitted_as(&r, ("riscv", "sd"), seq![
                ("rs1"@, phys_view((frame.0@, frame.1))),
                ("rs2"@, virt_view(value, class@)),
                ("imm"@, AttributeValueView::Int(offset)),
            ]),
    {
        let mut attributes: Vec<NamedAttribute> = Vec::new();
        attributes.push(named("rs1", phys(frame)));
        attributes.push(named("rs2", virt(value, class)));
        attributes.push(named("imm", AttributeValue::Int(offset)));
        EmittedOp { op: ("riscv", "sd"), attributes }
    }

    /// `ld value, offset(frame)`: reload virtual register `value` of `class`.
    pub fn emit_spill_reload(&self, value: u32, class: &str, frame: &(String, u16), offset: i64) -> (r: EmittedOp)
        ensures
            emitted_as(&r, ("riscv", "ld"), seq![
                ("rd"@, virt_view(value, class@)),
                ("rs1"@, phys_view((frame.0@, frame.1))),
                ("imm"@, AttributeValueView::Int(offset)),
            ]),
    {
        let mut attributes: Vec<NamedAttribute> = Vec::new();
        attributes.push(named("rd", virt(value, class)));
        attributes.push(named("rs1", phys(frame)));
        attributes.push(named("imm", AttributeValue::Int(offset)));
        EmittedOp { op: ("riscv", "ld"), attributes }
    }

    fn adjust_sp(&self, delta: i64) -> (r: EmittedOp)
        ensures
            emitted_as(&r, ("riscv", "addi"), seq![
                ("rd"@, phys_view((SP_CLASS@, SP_INDEX))),
                ("rs1"@, phys_view((SP_CLASS@, SP_INDEX))),
                ("imm"@, AttributeValueView::Int(delta)),
            ]),
    {
        let sp = self.frame_register();
        let mut attributes: Vec<NamedAttribute> = Vec::new();
        attributes.push(named("rd", phys(&sp)));
        attributes.push(named("rs1", phys(&sp)));
        attributes.push(named("imm", AttributeValue::Int(delta)));
        EmittedOp { op: ("riscv", "addi"), attributes }
    }

    /// `addi sp, sp, -size`: open a frame of `size` bytes.
    pub fn emit_prologue(&self, size: u32) -> (r: Vec<EmittedOp>)
        ensures
            r@.len() == 1,
            emitted_as(&r@[0], ("riscv", "addi"), seq![
                ("rd"@, phys_view((SP_CLASS@, SP_INDEX))),
                ("rs1"@, phys_view((SP_CLASS@, SP_INDEX))),
                ("imm"@, AttributeValueView::Int((-(size as int)) as i64)),
            ]),
    {
        let mut ops: Vec<EmittedOp> = Vec::new();
        ops.push(self.adjust_sp(-(size as i64)));
        ops
    }

    /// `addi sp, sp, size`: close a frame of `size` bytes.
    pub fn emit_epilogue(&self, size: u32) -> (r: Vec<EmittedOp>)
        ensures
            r@.len() == 1,
            emitted_as(&r@[0], ("riscv", "addi"), seq![
                ("rd"@, phys_view((SP_CLASS@, SP_INDEX))),
                ("rs1"@, phys_view((SP_CLASS@, SP_INDEX))),
                ("imm"@, AttributeValueView::Int(size as i64)),
            ]),
    {
        let mut ops: Vec<EmittedOp> = Vec::new();
        ops.push(self.adjust_sp(size as i64));
        ops
    }
}

} // verus!
