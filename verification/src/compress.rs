//! Post-allocation compression: rewrite base instructions into their 16-bit
//! C forms once registers and immediates are physical. Every instruction that
//! happens to satisfy a compressed form is narrowed; the C extension's operand
//! restrictions (tied destinations, the x8..x15 subset, small scaled
//! immediates) decide which form, if any.
//!
//! PC-relative control flow (`jal`, conditional branches) is deliberately not
//! compressed: their targets are fixups patched at object emission, and the
//! binary writer has no branch relaxation.
use vstd::prelude::*;

use crate::riscv::{fits_simm6, fits_uimm, is_c_reg, spec_fits_simm6, spec_fits_uimm, spec_is_c_reg};

verus! {

/// The base instructions compression looks at. Anything else stays as it is.
#[derive(Debug, Clone, Copy, PartialEq, Eq, Structural)]
pub enum BaseOp {
    /// The virtual return sequence (`jalr x0, x1, 0` once finalized).
    VirtualReturn,
    AddImm,
    AddImmWord,
    LoadUpperImm,
    Add,
    Sub,
    Xor,
    Or,
    And,
    SubWord,
    AddWord,
    ShiftLeftLogicalImm,
    ShiftRightLogicalImm,
    ShiftRightArithmeticImm,
    AndImm,
    LoadWord,
    StoreWord,
    LoadDoubleWord,
    StoreDoubleWord,
    FLoadDouble,
    FStoreDouble,
    FLoadWord,
    FStoreWord,
    JumpAndLinkReg,
    EnvBreak,
    /// `jal`: pc-relative, never compressed.
    JumpAndLink,
    /// A conditional branch: pc-relative, never compressed.
    Branch,
    /// Any other instruction.
    Other,
}

/// A base instruction after register allocation: the register each slot was
/// given (`None` where the slot does not resolve to a register) and the
/// integer immediate (`None` for a symbol or block operand, which is a fixup).
///
/// Loads carry their data register (`rd`/`fd`) in `rd`; stores carry theirs
/// (`rs2`/`fs2`) in `rs2`.
#[derive(Debug, Clone, Copy, PartialEq, Eq, Structural)]
pub struct BaseInst {
    pub op: BaseOp,
    pub rd: Option<u16>,
    pub rs1: Option<u16>,
    pub rs2: Option<u16>,
    pub imm: Option<i64>,
}

/// The compressed forms.
#[derive(Debug, Clone, Copy, PartialEq, Eq, Structural)]
pub enum COp {
    CNop,
    CMove,
    CAddImm16Sp,
    CAddImm,
    CLoadImm,
    CAddImm4SpN,
    CAddImmWord,
    CLoadUpperImm,
    CAdd,
    CSub,
    CXor,
    COr,
    CAnd,
    CSubWord,
    CAddWord,
    CShiftLeftLogicalImm,
    CShiftRightLogicalImm,
    CShiftRightArithmeticImm,
    CAndImm,
    CLoadWordSp,
    CLoadWord,
    CStoreWordSp,
    CStoreWord,
    CLoadDoubleSp,
    CLoadDouble,
    CStoreDoubleSp,
    CStoreDouble,
    CFLoadDoubleSp,
    CFLoadDouble,
    CFStoreDoubleSp,
    CFStoreDouble,
    CFLoadWordSp,
    CFLoadWord,
    CFStoreWordSp,
    CFStoreWord,
    CJumpReg,
    CJumpAndLinkReg,
    CEnvBreak,
}

/// Which slot of the base instruction a compressed operand carries over.
/// The same value stays in the same register, so the function's assignment
/// still describes it.
#[derive(Debug, Clone, Copy, PartialEq, Eq, Structural)]
pub enum SlotRef {
    Rd,
    Rs1,
    Rs2,
}

/// One register operand of the compressed form: a carried-over slot, or a
/// fixed physical GPR the form names implicitly.
#[derive(Debug, Clone, Copy, PartialEq, Eq, Structural)]
pub enum Operand {
    Slot(SlotRef),
    Phys(u16),
}

/// The compressed instruction replacing a base one. `sp` marks the forms that
/// name the stack pointer implicitly (attached as physical x2).
#[derive(Debug, Clone, Copy, PartialEq, Eq, Structural)]
pub struct CompressedInst {
    pub op: COp,
    pub rd: Option<Operand>,
    pub rd_tied: Option<Operand>,
    pub rs1: Option<Operand>,
    pub rs2: Option<Operand>,
    pub sp: bool,
    pub imm: Option<i64>,
}

/// A compressed instruction with no operands but the given ones.
pub open spec fn cinst(
    op: COp,
    rd: Option<Operand>,
    rd_tied: Option<Operand>,
    rs1: Option<Operand>,
    rs2: Option<Operand>,
    sp: bool,
    imm: Option<i64>,
) -> CompressedInst {
    CompressedInst { op, rd, rd_tied, rs1, rs2, sp, imm }
}

fn mk(
    op: COp,
    rd: Option<Operand>,
    rd_tied: Option<Operand>,
    rs1: Option<Operand>,
    rs2: Option<Operand>,
    sp: bool,
    imm: Option<i64>,
) -> (r: CompressedInst)
    ensures
        r == cinst(op, rd, rd_tied, rs1, rs2, sp, imm),
{
    CompressedInst { op, rd, rd_tied, rs1, rs2, sp, imm }
}

/// The 20-bit `lui` operand's low bits, sign-extended: the operand may carry
/// the value in unsigned form.
pub open spec fn spec_sext20(value: i64) -> i64 {
    let low = value & 0xFFFFF;
    if low >= 0x80000 {
        (low - 0x100000) as i64
    } else {
        low
    }
}

fn sext20(value: i64) -> (r: i64)
    ensures
        r == spec_sext20(value),
{
    assert(((value & 0xFFFFF) << 44u64) >> 44u64 == (if (value & 0xFFFFF) >= 0x80000 {
        ((value & 0xFFFFF) - 0x100000) as i64
    } else {
        value & 0xFFFFF
    })) by (bit_vector);
    ((value & 0xFFFFF) << 44u64) >> 44u64
}

/// `addi rd, rs1, imm` narrowed.
pub open spec fn compress_add_imm(rd: u16, rs1: u16, value: i64) -> Option<CompressedInst> {
    if value == 0 {
        if rd == 0 && rs1 == 0 {
            Some(cinst(COp::CNop, None, None, None, None, false, None))
        } else if rd != 0 && rs1 != 0 {
            Some(cinst(COp::CMove, Some(Operand::Slot(SlotRef::Rd)), None, None, Some(Operand::Slot(SlotRef::Rs1)), false, None))
        } else {
            None
        }
    } else if rd == 2 && rs1 == 2 && value % 16 == 0 && -512 <= value < 512 {
        Some(cinst(COp::CAddImm16Sp, None, None, None, None, true, Some(value)))
    } else if rd == rs1 && rd != 0 && spec_fits_simm6(value) {
        Some(cinst(COp::CAddImm, Some(Operand::Slot(SlotRef::Rd)), Some(Operand::Slot(SlotRef::Rs1)), None, None, false, Some(value)))
    } else if rs1 == 0 && rd != 0 && spec_fits_simm6(value) {
        Some(cinst(COp::CLoadImm, Some(Operand::Slot(SlotRef::Rd)), None, None, None, false, Some(value)))
    } else if rs1 == 2 && spec_is_c_reg(rd) && value > 0 && spec_fits_uimm(value, 10, 4) {
        Some(cinst(COp::CAddImm4SpN, Some(Operand::Slot(SlotRef::Rd)), None, None, None, false, Some(value)))
    } else {
        None
    }
}

/// `add rd, rs1, rs2` narrowed: two-address `c.add` when the destination is a
/// source, else `c.mv` when the other source is x0.
pub open spec fn compress_add(rd: u16, rs1: u16, rs2: u16) -> Option<CompressedInst> {
    let src = if rd == rs1 && rs2 != 0 {
        Some(SlotRef::Rs2)
    } else if rd == rs2 && rs1 != 0 {
        Some(SlotRef::Rs1)
    } else {
        None
    };
    let mv_src = if rs1 == 0 && rs2 != 0 {
        Some(SlotRef::Rs2)
    } else if rs2 == 0 && rs1 != 0 {
        Some(SlotRef::Rs1)
    } else {
        None
    };
    if rd != 0 && src is Some {
        let s = src->0;
        let tied = if s == SlotRef::Rs2 { SlotRef::Rs1 } else { SlotRef::Rs2 };
        Some(cinst(COp::CAdd, Some(Operand::Slot(SlotRef::Rd)), Some(Operand::Slot(tied)), None, Some(Operand::Slot(s)), false, None))
    } else if rd != 0 && mv_src is Some {
        Some(cinst(COp::CMove, Some(Operand::Slot(SlotRef::Rd)), None, None, Some(Operand::Slot(mv_src->0)), false, None))
    } else {
        None
    }
}

/// A CA-format two-address ALU op over x8..x15.
pub open spec fn compress_ca(cop: COp, commutative: bool, rd: u16, rs1: u16, rs2: u16) -> Option<CompressedInst> {
    let src = if rd == rs1 {
        Some(SlotRef::Rs2)
    } else if commutative && rd == rs2 {
        Some(SlotRef::Rs1)
    } else {
        None
    };
    if spec_is_c_reg(rd) && spec_is_c_reg(rs1) && spec_is_c_reg(rs2) && src is Some {
        let s = src->0;
        let tied = if s == SlotRef::Rs2 { SlotRef::Rs1 } else { SlotRef::Rs2 };
        Some(cinst(cop, Some(Operand::Slot(SlotRef::Rd)), Some(Operand::Slot(tied)), None, Some(Operand::Slot(s)), false, None))
    } else {
        None
    }
}

/// A shift amount a compressed shift encodes: nonzero and below XLEN.
pub open spec fn spec_shamt_ok(value: i64, xlen: u32) -> bool {
    0 < value < xlen
}

/// A two-address immediate ALU op (`c.slli`, `c.srli`, `c.srai`, `c.andi`).
pub open spec fn compress_imm_alu(cop: COp, rd_ok: bool, imm_ok: bool, rd: u16, rs1: u16, value: i64) -> Option<CompressedInst> {
    if rd == rs1 && rd_ok && imm_ok {
        Some(cinst(cop, Some(Operand::Slot(SlotRef::Rd)), Some(Operand::Slot(SlotRef::Rs1)), None, None, false, Some(value)))
    } else {
        None
    }
}

/// Whether the op is a load (its data register is defined) rather than a store.
pub open spec fn is_load(op: BaseOp) -> bool {
    op == BaseOp::LoadWord || op == BaseOp::LoadDoubleWord || op == BaseOp::FLoadDouble || op == BaseOp::FLoadWord
}

/// The data operand of a memory form: a load defines `rd`, a store reads `rs2`.
pub open spec fn mem_data(load: bool) -> (Option<Operand>, Option<Operand>) {
    if load {
        (Some(Operand::Slot(SlotRef::Rd)), None)
    } else {
        (None, Some(Operand::Slot(SlotRef::Rs2)))
    }
}

/// A load or store narrowed: the sp-relative form takes the full register set
/// and a wider offset; the general form needs both registers in x8..x15.
pub open spec fn compress_mem(
    sp_op: COp,
    c_op: COp,
    load: bool,
    scale: i64,
    sp_bits: u32,
    c_bits: u32,
    sp_data_ok: bool,
    data: u16,
    rs1: u16,
    value: i64,
) -> Option<CompressedInst> {
    let (rd, rs2) = mem_data(load);
    if rs1 == 2 && sp_data_ok && spec_fits_uimm(value, sp_bits, scale) {
        Some(cinst(sp_op, rd, None, None, rs2, true, Some(value)))
    } else if spec_is_c_reg(data) && spec_is_c_reg(rs1) && spec_fits_uimm(value, c_bits, scale) {
        Some(cinst(c_op, rd, None, Some(Operand::Slot(SlotRef::Rs1)), rs2, false, Some(value)))
    } else {
        None
    }
}

/// The compressed form of `inst` on an `xlen`-bit machine, or `None` where it
/// stays a base instruction.
pub open spec fn spec_compress(inst: BaseInst, xlen: u32) -> Option<CompressedInst> {
    match inst.op {
        BaseOp::VirtualReturn => Some(cinst(COp::CJumpReg, None, None, Some(Operand::Phys(1)), None, false, None)),
        BaseOp::AddImm => match (inst.rd, inst.rs1, inst.imm) {
            (Some(rd), Some(rs1), Some(v)) => compress_add_imm(rd, rs1, v),
            _ => None,
        },
        BaseOp::AddImmWord => match (inst.rd, inst.rs1, inst.imm) {
            (Some(rd), Some(rs1), Some(v)) => if xlen == 64 && rd == rs1 && rd != 0 && spec_fits_simm6(v) {
                Some(cinst(COp::CAddImmWord, Some(Operand::Slot(SlotRef::Rd)), Some(Operand::Slot(SlotRef::Rs1)), None, None, false, Some(v)))
            } else {
                None
            },
            _ => None,
        },
        BaseOp::LoadUpperImm => match (inst.rd, inst.imm) {
            (Some(rd), Some(v)) => {
                let value = spec_sext20(v);
                if rd != 0 && rd != 2 && value != 0 && spec_fits_simm6(value) {
                    Some(cinst(COp::CLoadUpperImm, Some(Operand::Slot(SlotRef::Rd)), None, None, None, false, Some(value)))
                } else {
                    None
                }
            },
            _ => None,
        },
        BaseOp::Add => match (inst.rd, inst.rs1, inst.rs2) {
            (Some(rd), Some(rs1), Some(rs2)) => compress_add(rd, rs1, rs2),
            _ => None,
        },
        BaseOp::Sub | BaseOp::Xor | BaseOp::Or | BaseOp::And | BaseOp::SubWord | BaseOp::AddWord => {
            let word = inst.op == BaseOp::SubWord || inst.op == BaseOp::AddWord;
            if word && xlen != 64 {
                None
            } else {
                match (inst.rd, inst.rs1, inst.rs2) {
                    (Some(rd), Some(rs1), Some(rs2)) => {
                        let (cop, commutative) = match inst.op {
                            BaseOp::Sub => (COp::CSub, false),
                            BaseOp::Xor => (COp::CXor, true),
                            BaseOp::Or => (COp::COr, true),
                            BaseOp::And => (COp::CAnd, true),
                            BaseOp::SubWord => (COp::CSubWord, false),
                            _ => (COp::CAddWord, true),
                        };
                        compress_ca(cop, commutative, rd, rs1, rs2)
                    },
                    _ => None,
                }
            }
        },
        BaseOp::ShiftLeftLogicalImm | BaseOp::ShiftRightLogicalImm | BaseOp::ShiftRightArithmeticImm | BaseOp::AndImm => {
            match (inst.rd, inst.rs1, inst.imm) {
                (Some(rd), Some(rs1), Some(v)) => match inst.op {
                    BaseOp::ShiftLeftLogicalImm => compress_imm_alu(COp::CShiftLeftLogicalImm, rd != 0, spec_shamt_ok(v, xlen), rd, rs1, v),
                    BaseOp::ShiftRightLogicalImm => compress_imm_alu(COp::CShiftRightLogicalImm, spec_is_c_reg(rd), spec_shamt_ok(v, xlen), rd, rs1, v),
                    BaseOp::ShiftRightArithmeticImm => compress_imm_alu(COp::CShiftRightArithmeticImm, spec_is_c_reg(rd), spec_shamt_ok(v, xlen), rd, rs1, v),
                    _ => compress_imm_alu(COp::CAndImm, spec_is_c_reg(rd), spec_fits_simm6(v), rd, rs1, v),
                },
                _ => None,
            }
        },
        BaseOp::LoadWord | BaseOp::StoreWord | BaseOp::LoadDoubleWord | BaseOp::StoreDoubleWord
        | BaseOp::FLoadDouble | BaseOp::FStoreDouble | BaseOp::FLoadWord | BaseOp::FStoreWord => {
            let load = is_load(inst.op);
            let data = if load { inst.rd } else { inst.rs2 };
            let enabled = match inst.op {
                BaseOp::LoadDoubleWord | BaseOp::StoreDoubleWord => xlen == 64,
                BaseOp::FLoadWord | BaseOp::FStoreWord => xlen == 32,
                _ => true,
            };
            if !enabled {
                None
            } else {
                match (data, inst.rs1, inst.imm) {
                    (Some(d), Some(rs1), Some(v)) => match inst.op {
                        BaseOp::LoadWord => compress_mem(COp::CLoadWordSp, COp::CLoadWord, true, 4, 8, 7, d != 0, d, rs1, v),
                        BaseOp::StoreWord => compress_mem(COp::CStoreWordSp, COp::CStoreWord, false, 4, 8, 7, true, d, rs1, v),
                        BaseOp::LoadDoubleWord => compress_mem(COp::CLoadDoubleSp, COp::CLoadDouble, true, 8, 9, 8, d != 0, d, rs1, v),
                        BaseOp::StoreDoubleWord => compress_mem(COp::CStoreDoubleSp, COp::CStoreDouble, false, 8, 9, 8, true, d, rs1, v),
                        BaseOp::FLoadDouble => compress_mem(COp::CFLoadDoubleSp, COp::CFLoadDouble, true, 8, 9, 8, true, d, rs1, v),
                        BaseOp::FStoreDouble => compress_mem(COp::CFStoreDoubleSp, COp::CFStoreDouble, false, 8, 9, 8, true, d, rs1, v),
                        BaseOp::FLoadWord => compress_mem(COp::CFLoadWordSp, COp::CFLoadWord, true, 4, 8, 7, true, d, rs1, v),
                        _ => compress_mem(COp::CFStoreWordSp, COp::CFStoreWord, false, 4, 8, 7, true, d, rs1, v),
                    },
                    _ => None,
                }
            }
        },
        BaseOp::JumpAndLinkReg => match (inst.rd, inst.rs1, inst.imm) {
            (Some(rd), Some(rs1), Some(v)) => if v == 0 && rs1 != 0 && rd == 0 {
                Some(cinst(COp::CJumpReg, None, None, Some(Operand::Slot(SlotRef::Rs1)), None, false, None))
            } else if v == 0 && rs1 != 0 && rd == 1 {
                Some(cinst(COp::CJumpAndLinkReg, None, None, Some(Operand::Slot(SlotRef::Rs1)), None, false, None))
            } else {
                None
            },
            _ => None,
        },
        BaseOp::EnvBreak => Some(cinst(COp::CEnvBreak, None, None, None, None, false, None)),
        _ => None,
    }
}

fn exec_compress_add_imm(rd: u16, rs1: u16, value: i64) -> (r: Option<CompressedInst>)
    ensures
        r == compress_add_imm(rd, rs1, value),
{
    if value == 0 {
        if rd == 0 && rs1 == 0 {
            return Some(mk(COp::CNop, None, None, None, None, false, None));
        }
        if rd != 0 && rs1 != 0 {
            return Some(mk(COp::CMove, Some(Operand::Slot(SlotRef::Rd)), None, None, Some(Operand::Slot(SlotRef::Rs1)), false, None));
        }
        return None;
    }
    if rd == 2 && rs1 == 2 && value % 16 == 0 && -512 <= value && value < 512 {
        return Some(mk(COp::CAddImm16Sp, None, None, None, None, true, Some(value)));
    }
    if rd == rs1 && rd != 0 && fits_simm6(value) {
        return Some(mk(COp::CAddImm, Some(Operand::Slot(SlotRef::Rd)), Some(Operand::Slot(SlotRef::Rs1)), None, None, false, Some(value)));
    }
    if rs1 == 0 && rd != 0 && fits_simm6(value) {
        return Some(mk(COp::CLoadImm, Some(Operand::Slot(SlotRef::Rd)), None, None, None, false, Some(value)));
    }
    if rs1 == 2 && is_c_reg(rd) && value > 0 && fits_uimm(value, 10, 4) {
        return Some(mk(COp::CAddImm4SpN, Some(Operand::Slot(SlotRef::Rd)), None, None, None, false, Some(value)));
    }
    None
}

fn exec_compress_add(rd: u16, rs1: u16, rs2: u16) -> (r: Option<CompressedInst>)
    ensures
        r == compress_add(rd, rs1, rs2),
{
    let src = if rd == rs1 && rs2 != 0 {
        Some(SlotRef::Rs2)
    } else if rd == rs2 && rs1 != 0 {
        Some(SlotRef::Rs1)
    } else {
        None
    };
    if rd != 0 {
        if let Some(s) = src {
            let tied = match s {
                SlotRef::Rs2 => SlotRef::Rs1,
                _ => SlotRef::Rs2,
            };
            return Some(mk(COp::CAdd, Some(Operand::Slot(SlotRef::Rd)), Some(Operand::Slot(tied)), None, Some(Operand::Slot(s)), false, None));
        }
    }
    let mv_src = if rs1 == 0 && rs2 != 0 {
        Some(SlotRef::Rs2)
    } else if rs2 == 0 && rs1 != 0 {
        Some(SlotRef::Rs1)
    } else {
        None
    };
    if rd != 0 {
        if let Some(s) = mv_src {
            return Some(mk(COp::CMove, Some(Operand::Slot(SlotRef::Rd)), None, None, Some(Operand::Slot(s)), false, None));
        }
    }
    None
}

fn exec_compress_ca(cop: COp, commutative: bool, rd: u16, rs1: u16, rs2: u16) -> (r: Option<CompressedInst>)
    ensures
        r == compress_ca(cop, commutative, rd, rs1, rs2),
{
    let src = if rd == rs1 {
        Some(SlotRef::Rs2)
    } else if commutative && rd == rs2 {
        Some(SlotRef::Rs1)
    } else {
        None
    };
    if is_c_reg(rd) && is_c_reg(rs1) && is_c_reg(rs2) {
        if let Some(s) = src {
            let tied = match s {
                SlotRef::Rs2 => SlotRef::Rs1,
                _ => SlotRef::Rs2,
            };
            return Some(mk(cop, Some(Operand::Slot(SlotRef::Rd)), Some(Operand::Slot(tied)), None, Some(Operand::Slot(s)), false, None));
        }
    }
    None
}

fn exec_compress_imm_alu(cop: COp, rd_ok: bool, imm_ok: bool, rd: u16, rs1: u16, value: i64) -> (r: Option<CompressedInst>)
    ensures
        r == compress_imm_alu(cop, rd_ok, imm_ok, rd, rs1, value),
{
    if rd == rs1 && rd_ok && imm_ok {
        Some(mk(cop, Some(Operand::Slot(SlotRef::Rd)), Some(Operand::Slot(SlotRef::Rs1)), None, None, false, Some(value)))
    } else {
        None
    }
}

fn exec_compress_mem(
    sp_op: COp,
    c_op: COp,
    load: bool,
    scale: i64,
    sp_bits: u32,
    c_bits: u32,
    sp_data_ok: bool,
    data: u16,
    rs1: u16,
    value: i64,
) -> (r: Option<CompressedInst>)
    requires
        scale > 0,
        sp_bits < 63,
        c_bits < 63,
    ensures
        r == compress_mem(sp_op, c_op, load, scale, sp_bits, c_bits, sp_data_ok, data, rs1, value),
{
    let (rd, rs2) = if load {
        (Some(Operand::Slot(SlotRef::Rd)), None)
    } else {
        (None, Some(Operand::Slot(SlotRef::Rs2)))
    };
    if rs1 == 2 && sp_data_ok && fits_uimm(value, sp_bits, scale) {
        return Some(mk(sp_op, rd, None, None, rs2, true, Some(value)));
    }
    if is_c_reg(data) && is_c_reg(rs1) && fits_uimm(value, c_bits, scale) {
        return Some(mk(c_op, rd, None, Some(Operand::Slot(SlotRef::Rs1)), rs2, false, Some(value)));
    }
    None
}

fn shamt_ok(value: i64, xlen: u32) -> (r: bool)
    ensures
        r == spec_shamt_ok(value, xlen),
{
    0 < value && value < xlen as i64
}

/// The compressed form of `inst` on an `xlen`-bit machine, or `None` where it
/// stays a base instruction: the decision behind the post-allocation
/// compression rewrite.
pub fn compress(inst: &BaseInst, xlen: u32) -> (r: Option<CompressedInst>)
    ensures
        r == spec_compress(*inst, xlen),
{
    match inst.op {
        BaseOp::VirtualReturn => Some(mk(COp::CJumpReg, None, None, Some(Operand::Phys(1)), None, false, None)),
        BaseOp::AddImm => match (inst.rd, inst.rs1, inst.imm) {
            (Some(rd), Some(rs1), Some(v)) => exec_compress_add_imm(rd, rs1, v),
            _ => None,
        },
        BaseOp::AddImmWord => match (inst.rd, inst.rs1, inst.imm) {
            (Some(rd), Some(rs1), Some(v)) => if xlen == 64 && rd == rs1 && rd != 0 && fits_simm6(v) {
                Some(mk(COp::CAddImmWord, Some(Operand::Slot(SlotRef::Rd)), Some(Operand::Slot(SlotRef::Rs1)), None, None, false, Some(v)))
            } else {
                None
            },
            _ => None,
        },
        BaseOp::LoadUpperImm => match (inst.rd, inst.imm) {
            (Some(rd), Some(v)) => {
                let value = sext20(v);
                if rd != 0 && rd != 2 && value != 0 && fits_simm6(value) {
                    Some(mk(COp::CLoadUpperImm, Some(Operand::Slot(SlotRef::Rd)), None, None, None, false, Some(value)))
                } else {
                    None
                }
            },
            _ => None,
        },
        BaseOp::Add => match (inst.rd, inst.rs1, inst.rs2) {
            (Some(rd), Some(rs1), Some(rs2)) => exec_compress_add(rd, rs1, rs2),
            _ => None,
        },
        BaseOp::Sub | BaseOp::Xor | BaseOp::Or | BaseOp::And | BaseOp::SubWord | BaseOp::AddWord => {
            let word = match inst.op {
                BaseOp::SubWord | BaseOp::AddWord => true,
                _ => false,
            };
            if word && xlen != 64 {
                None
            } else {
                match (inst.rd, inst.rs1, inst.rs2) {
                    (Some(rd), Some(rs1), Some(rs2)) => {
                        let (cop, commutative) = match inst.op {
                            BaseOp::Sub => (COp::CSub, false),
                            BaseOp::Xor => (COp::CXor, true),
                            BaseOp::Or => (COp::COr, true),
                            BaseOp::And => (COp::CAnd, true),
                            BaseOp::SubWord => (COp::CSubWord, false),
                            _ => (COp::CAddWord, true),
                        };
                        exec_compress_ca(cop, commutative, rd, rs1, rs2)
                    },
                    _ => None,
                }
            }
        },
        BaseOp::ShiftLeftLogicalImm | BaseOp::ShiftRightLogicalImm | BaseOp::ShiftRightArithmeticImm | BaseOp::AndImm => {
            match (inst.rd, inst.rs1, inst.imm) {
                (Some(rd), Some(rs1), Some(v)) => match inst.op {
                    BaseOp::ShiftLeftLogicalImm => exec_compress_imm_alu(COp::CShiftLeftLogicalImm, rd != 0, shamt_ok(v, xlen), rd, rs1, v),
                    BaseOp::ShiftRightLogicalImm => exec_compress_imm_alu(COp::CShiftRightLogicalImm, is_c_reg(rd), shamt_ok(v, xlen), rd, rs1, v),
                    BaseOp::ShiftRightArithmeticImm => exec_compress_imm_alu(COp::CShiftRightArithmeticImm, is_c_reg(rd), shamt_ok(v, xlen), rd, rs1, v),
                    _ => exec_compress_imm_alu(COp::CAndImm, is_c_reg(rd), fits_simm6(v), rd, rs1, v),
                },
                _ => None,
            }
        },
        BaseOp::LoadWord | BaseOp::StoreWord | BaseOp::LoadDoubleWord | BaseOp::StoreDoubleWord
        | BaseOp::FLoadDouble | BaseOp::FStoreDouble | BaseOp::FLoadWord | BaseOp::FStoreWord => {
            let load = match inst.op {
                BaseOp::LoadWord | BaseOp::LoadDoubleWord | BaseOp::FLoadDouble | BaseOp::FLoadWord => true,
                _ => false,
            };
            let data = if load { inst.rd } else { inst.rs2 };
            let enabled = match inst.op {
                BaseOp::LoadDoubleWord | BaseOp::StoreDoubleWord => xlen == 64,
                BaseOp::FLoadWord | BaseOp::FStoreWord => xlen == 32,
                _ => true,
            };
            if !enabled {
                None
            } else {
                match (data, inst.rs1, inst.imm) {
                    (Some(d), Some(rs1), Some(v)) => match inst.op {
                        BaseOp::LoadWord => exec_compress_mem(COp::CLoadWordSp, COp::CLoadWord, true, 4, 8, 7, d != 0, d, rs1, v),
                        BaseOp::StoreWord => exec_compress_mem(COp::CStoreWordSp, COp::CStoreWord, false, 4, 8, 7, true, d, rs1, v),
                        BaseOp::LoadDoubleWord => exec_compress_mem(COp::CLoadDoubleSp, COp::CLoadDouble, true, 8, 9, 8, d != 0, d, rs1, v),
                        BaseOp::StoreDoubleWord => exec_compress_mem(COp::CStoreDoubleSp, COp::CStoreDouble, false, 8, 9, 8, true, d, rs1, v),
                        BaseOp::FLoadDouble => exec_compress_mem(COp::CFLoadDoubleSp, COp::CFLoadDouble, true, 8, 9, 8, true, d, rs1, v),
                        BaseOp::FStoreDouble => exec_compress_mem(COp::CFStoreDoubleSp, COp::CFStoreDouble, false, 8, 9, 8, true, d, rs1, v),
                        BaseOp::FLoadWord => exec_compress_mem(COp::CFLoadWordSp, COp::CFLoadWord, true, 4, 8, 7, true, d, rs1, v),
                        _ => exec_compress_mem(COp::CFStoreWordSp, COp::CFStoreWord, false, 4, 8, 7, true, d, rs1, v),
                    },
                    _ => None,
                }
            }
        },
        BaseOp::JumpAndLinkReg => match (inst.rd, inst.rs1, inst.imm) {
            (Some(rd), Some(rs1), Some(v)) => if v == 0 && rs1 != 0 && rd == 0 {
                Some(mk(COp::CJumpReg, None, None, Some(Operand::Slot(SlotRef::Rs1)), None, false, None))
            } else if v == 0 && rs1 != 0 && rd == 1 {
                Some(mk(COp::CJumpAndLinkReg, None, None, Some(Operand::Slot(SlotRef::Rs1)), None, false, None))
            } else {
                None
            },
            _ => None,
        },
        BaseOp::EnvBreak => Some(mk(COp::CEnvBreak, None, None, None, None, false, None)),
        _ => None,
    }
}

/// Compression for rv32.
pub fn compress_rv32(inst: &BaseInst) -> (r: Option<CompressedInst>)
    ensures
        r == spec_compress(*inst, 32),
{
    compress(inst, 32)
}

/// Compression for rv64.
pub fn compress_rv64(inst: &BaseInst) -> (r: Option<CompressedInst>)
    ensures
        r == spec_compress(*inst, 64),
{
    compress(inst, 64)
}

/// The register a compressed operand names, read off the base instruction.
pub open spec fn operand_reg(inst: BaseInst, operand: Operand) -> Option<u16> {
    match operand {
        Operand::Phys(r) => Some(r),
        Operand::Slot(SlotRef::Rd) => inst.rd,
        Operand::Slot(SlotRef::Rs1) => inst.rs1,
        Operand::Slot(SlotRef::Rs2) => inst.rs2,
    }
}

/// The register an optional compressed operand names, if it is present and
/// resolves.
pub open spec fn opt_reg(inst: BaseInst, operand: Option<Operand>) -> Option<u16> {
    match operand {
        Some(o) => operand_reg(inst, o),
        None => None,
    }
}

/// The forms whose register fields are 3 bits wide and reach x8..x15 only.
pub open spec fn three_bit_form(op: COp) -> bool {
    op == COp::CAddImm4SpN || op == COp::CSub || op == COp::CXor || op == COp::COr || op == COp::CAnd
        || op == COp::CSubWord || op == COp::CAddWord || op == COp::CShiftRightLogicalImm
        || op == COp::CShiftRightArithmeticImm || op == COp::CAndImm || op == COp::CLoadWord
        || op == COp::CStoreWord || op == COp::CLoadDouble || op == COp::CStoreDouble
        || op == COp::CFLoadDouble || op == COp::CFStoreDouble || op == COp::CFLoadWord
        || op == COp::CFStoreWord
}

/// Whether an optional operand, when present, resolves to a register of x8..x15.
pub open spec fn c_reg_operand(inst: BaseInst, operand: Option<Operand>) -> bool {
    operand is Some ==> (opt_reg(inst, operand) matches Some(r) && spec_is_c_reg(r))
}

/// The C extension's operand restrictions, as met by `c` standing in for
/// `inst`: every carried slot resolves to a register; a two-address form's
/// destination is the register it reads; a 3-bit register field names one of
/// x8..x15; and the immediate is the base instruction's (or, for `c.lui`, its
/// sign-extended 20-bit field).
pub open spec fn meets_c_constraints(inst: BaseInst, c: CompressedInst) -> bool {
    &&& (c.rd is Some ==> opt_reg(inst, c.rd) is Some)
    &&& (c.rd_tied is Some ==> opt_reg(inst, c.rd_tied) is Some && opt_reg(inst, c.rd_tied) == opt_reg(inst, c.rd))
    &&& (c.rs1 is Some ==> opt_reg(inst, c.rs1) is Some)
    &&& (c.rs2 is Some ==> opt_reg(inst, c.rs2) is Some)
    &&& (three_bit_form(c.op) ==> c_reg_operand(inst, c.rd) && c_reg_operand(inst, c.rs1) && c_reg_operand(inst, c.rs2))
    &&& (c.imm matches Some(v) ==> if c.op == COp::CLoadUpperImm {
        inst.imm matches Some(b) && v == spec_sext20(b)
    } else {
        inst.imm == Some(v)
    })
}

/// Compression only produces forms whose operand restrictions hold: what it
/// narrows, the C extension can encode with the registers the allocator chose.
pub proof fn lemma_compress_meets_c_constraints(inst: BaseInst, xlen: u32)
    ensures
        spec_compress(inst, xlen) matches Some(c) ==> meets_c_constraints(inst, c),
{
}

/// PC-relative control flow is never compressed.
pub proof fn lemma_pc_relative_stays_wide(inst: BaseInst, xlen: u32)
    requires
        inst.op == BaseOp::JumpAndLink || inst.op == BaseOp::Branch,
    ensures
        spec_compress(inst, xlen) is None,
{
}

/// The value register `reg` holds in the register file `regs`; `x0` always
/// reads as zero.
pub open spec fn read_reg(regs: spec_fn(u16) -> u64, reg: Option<u16>) -> u64 {
    match reg {
        Some(r) => if r == 0 { 0 } else { regs(r) },
        None => 0,
    }
}

/// What a base register-register ALU instruction writes to `rd`, from the
/// values of `rs1` and `rs2` (the word forms' 32-bit narrowing applies the
/// same way to both encodings, so it is left out).
pub open spec fn base_alu_result(op: BaseOp, a: u64, b: u64) -> Option<int> {
    match op {
        BaseOp::Add | BaseOp::AddWord => Some(a + b),
        BaseOp::Sub | BaseOp::SubWord => Some(a - b),
        BaseOp::Xor => Some((a ^ b) as int),
        BaseOp::Or => Some((a | b) as int),
        BaseOp::And => Some((a & b) as int),
        _ => None,
    }
}

/// What a compressed ALU form writes to `rd`, from the register it reads as
/// its first source (`rd_tied`, which is `rd` itself) and from `rs2`:
/// `c.sub rd, rs2` is `rd - rs2`; `c.mv rd, rs2` copies `rs2`.
pub open spec fn c_alu_result(op: COp, a: u64, b: u64) -> Option<int> {
    match op {
        COp::CAdd | COp::CAddWord => Some(a + b),
        COp::CSub | COp::CSubWord => Some(a - b),
        COp::CXor => Some((a ^ b) as int),
        COp::COr => Some((a | b) as int),
        COp::CAnd => Some((a & b) as int),
        COp::CMove => Some(b as int),
        _ => None,
    }
}

/// Whether `op` is a register-register ALU instruction.
pub open spec fn is_reg_alu(op: BaseOp) -> bool {
    op == BaseOp::Add || op == BaseOp::Sub || op == BaseOp::Xor || op == BaseOp::Or || op == BaseOp::And
        || op == BaseOp::SubWord || op == BaseOp::AddWord
}

/// A compressed register-register ALU instruction computes what the base one
/// does: on every register file, it writes the base destination with the
/// same value, read through the registers it carries over. In particular a
/// non-commutative op (`sub`, `subw`) only narrows when its destination is
/// its first source.
pub proof fn law_compressed_alu_computes_the_same(inst: BaseInst, xlen: u32, regs: spec_fn(u16) -> u64)
    requires
        is_reg_alu(inst.op),
    ensures
        spec_compress(inst, xlen) matches Some(c) ==> {
            &&& opt_reg(inst, c.rd) == inst.rd
            &&& inst.rd != Some(0u16)
            &&& c_alu_result(c.op, read_reg(regs, opt_reg(inst, c.rd_tied)), read_reg(regs, opt_reg(inst, c.rs2)))
                == base_alu_result(inst.op, read_reg(regs, inst.rs1), read_reg(regs, inst.rs2))
        },
{
    let a = read_reg(regs, inst.rs1);
    let b = read_reg(regs, inst.rs2);
    assert(a ^ b == b ^ a) by (bit_vector);
    assert(a | b == b | a) by (bit_vector);
    assert(a & b == b & a) by (bit_vector);
}

/// A non-commutative op narrows only to the form that subtracts its second
/// source from its first: the compressed `sub`/`subw` is two-address over
/// `rs1` (`rd == rs1`) and reads `rs2`.
pub proof fn law_compressed_sub_is_two_address_over_rs1(inst: BaseInst, xlen: u32)
    requires
        inst.op == BaseOp::Sub || inst.op == BaseOp::SubWord,
    ensures
        spec_compress(inst, xlen) matches Some(c) ==> {
            &&& c.rd_tied == Some(Operand::Slot(SlotRef::Rs1))
            &&& c.rs2 == Some(Operand::Slot(SlotRef::Rs2))
            &&& inst.rd == inst.rs1
        },
{
}

/// The register a base jump writes its return address to: `jalr` links
/// through `rd` unless that is `x0`; the return sequence does not link.
pub open spec fn base_link(inst: BaseInst) -> Option<u16> {
    match inst.rd {
        Some(rd) => if inst.op == BaseOp::JumpAndLinkReg && rd != 0 { Some(rd) } else { None },
        None => None,
    }
}

/// The register a compressed jump writes its return address to: `c.jalr`
/// links through `ra` (x1); `c.jr` does not link.
pub open spec fn c_link(op: COp) -> Option<u16> {
    if op == COp::CJumpAndLinkReg {
        Some(1)
    } else {
        None
    }
}

/// Compression keeps what a jump does: the compressed form is `c.jr` or
/// `c.jalr`, jumps to the same register with no offset, and links exactly
/// when the base jump does, into the same register. The return sequence
/// becomes a jump to `ra` that does not link.
pub proof fn law_compressed_jump_links_as_the_base(inst: BaseInst, xlen: u32)
    requires
        inst.op == BaseOp::JumpAndLinkReg || inst.op == BaseOp::VirtualReturn,
    ensures
        spec_compress(inst, xlen) matches Some(c) ==> {
            &&& c.op == COp::CJumpReg || c.op == COp::CJumpAndLinkReg
            &&& c_link(c.op) == base_link(inst)
            &&& inst.op == BaseOp::JumpAndLinkReg ==> opt_reg(inst, c.rs1) == inst.rs1 && inst.rs1 != Some(0u16)
                && inst.imm == Some(0i64)
            &&& inst.op == BaseOp::VirtualReturn ==> opt_reg(inst, c.rs1) == Some(1u16)
        },
{
}

/// The register an instruction's result lands in: `rd`, with writes to `x0`
/// discarded.
pub open spec fn base_dest(inst: BaseInst) -> Option<u16> {
    match inst.rd {
        Some(rd) => if rd == 0 { None } else { Some(rd) },
        None => None,
    }
}

/// What a base register-immediate ALU instruction writes, from the value
/// of `rs1` and the immediate.
pub open spec fn base_imm_result(op: BaseOp, a: u64, imm: i64) -> Option<int> {
    match op {
        BaseOp::AddImm | BaseOp::AddImmWord => Some(a + imm),
        BaseOp::ShiftLeftLogicalImm => Some((a << (imm as u64)) as int),
        BaseOp::ShiftRightLogicalImm => Some((a >> (imm as u64)) as int),
        BaseOp::ShiftRightArithmeticImm => Some(((a as i64) >> (imm as u64)) as int),
        BaseOp::AndImm => Some((a & (imm as u64)) as int),
        _ => None,
    }
}

/// The register a compressed ALU form writes: `c.nop` writes nothing, the
/// stack-pointer adjustment writes `sp`, the others their `rd`.
pub open spec fn c_dest(inst: BaseInst, c: CompressedInst) -> Option<u16> {
    if c.op == COp::CNop {
        None
    } else if c.op == COp::CAddImm16Sp {
        Some(2)
    } else {
        opt_reg(inst, c.rd)
    }
}

/// What a compressed immediate form writes, from the register file and its
/// immediate: `c.addi`/`c.addiw` add to the register they are tied to,
/// `c.addi16sp` and `c.addi4spn` add to `sp`, `c.li` loads the immediate,
/// `c.mv` copies `rs2`, and the shifts and `c.andi` work on their tied
/// register.
pub open spec fn c_imm_result(inst: BaseInst, c: CompressedInst, regs: spec_fn(u16) -> u64) -> Option<int> {
    let imm = match c.imm { Some(v) => v, None => 0 };
    let tied = read_reg(regs, opt_reg(inst, c.rd_tied));
    match c.op {
        COp::CAddImm | COp::CAddImmWord => Some(tied + imm),
        COp::CAddImm16Sp | COp::CAddImm4SpN => Some(read_reg(regs, Some(2u16)) + imm),
        COp::CLoadImm => Some(imm as int),
        COp::CMove => Some(read_reg(regs, opt_reg(inst, c.rs2)) as int),
        COp::CShiftLeftLogicalImm => Some((tied << (imm as u64)) as int),
        COp::CShiftRightLogicalImm => Some((tied >> (imm as u64)) as int),
        COp::CShiftRightArithmeticImm => Some(((tied as i64) >> (imm as u64)) as int),
        COp::CAndImm => Some((tied & (imm as u64)) as int),
        _ => None,
    }
}

/// Whether `op` is a register-immediate ALU instruction.
pub open spec fn is_imm_alu(op: BaseOp) -> bool {
    op == BaseOp::AddImm || op == BaseOp::AddImmWord || op == BaseOp::ShiftLeftLogicalImm
        || op == BaseOp::ShiftRightLogicalImm || op == BaseOp::ShiftRightArithmeticImm || op == BaseOp::AndImm
}

/// A compressed register-immediate instruction computes what the base one
/// does: on every register file it writes the same register (nothing, for
/// a write to `x0`) with the same value.
pub proof fn law_compressed_imm_alu_computes_the_same(inst: BaseInst, xlen: u32, regs: spec_fn(u16) -> u64)
    requires
        is_imm_alu(inst.op),
    ensures
        spec_compress(inst, xlen) matches Some(c) ==> {
            &&& c_dest(inst, c) == base_dest(inst)
            &&& base_dest(inst) is Some ==> (inst.imm matches Some(v) && c_imm_result(inst, c, regs)
                == base_imm_result(inst.op, read_reg(regs, inst.rs1), v))
        },
{
}

/// What a memory instruction touches: whether it loads, how many bytes,
/// whether its data register is a float one, the register its address is
/// based on, the offset, and the data register.
pub struct MemAccess {
    pub load: bool,
    pub bytes: u8,
    pub float: bool,
    pub base: Option<u16>,
    pub offset: Option<i64>,
    pub data: Option<u16>,
}

/// The access a base load or store makes.
pub open spec fn base_access(inst: BaseInst) -> Option<MemAccess> {
    let (load, bytes, float) = match inst.op {
        BaseOp::LoadWord => (true, 4u8, false),
        BaseOp::StoreWord => (false, 4u8, false),
        BaseOp::LoadDoubleWord => (true, 8u8, false),
        BaseOp::StoreDoubleWord => (false, 8u8, false),
        BaseOp::FLoadDouble => (true, 8u8, true),
        BaseOp::FStoreDouble => (false, 8u8, true),
        BaseOp::FLoadWord => (true, 4u8, true),
        BaseOp::FStoreWord => (false, 4u8, true),
        _ => (false, 0u8, false),
    };
    if bytes == 0 {
        None
    } else {
        Some(MemAccess { load, bytes, float, base: inst.rs1, offset: inst.imm, data: if load { inst.rd } else { inst.rs2 } })
    }
}

/// The access a compressed load or store makes: the stack-pointer forms are
/// based on `sp`, the others on their `rs1`.
pub open spec fn c_access(inst: BaseInst, c: CompressedInst) -> Option<MemAccess> {
    let (load, bytes, float) = match c.op {
        COp::CLoadWordSp | COp::CLoadWord => (true, 4u8, false),
        COp::CStoreWordSp | COp::CStoreWord => (false, 4u8, false),
        COp::CLoadDoubleSp | COp::CLoadDouble => (true, 8u8, false),
        COp::CStoreDoubleSp | COp::CStoreDouble => (false, 8u8, false),
        COp::CFLoadDoubleSp | COp::CFLoadDouble => (true, 8u8, true),
        COp::CFStoreDoubleSp | COp::CFStoreDouble => (false, 8u8, true),
        COp::CFLoadWordSp | COp::CFLoadWord => (true, 4u8, true),
        COp::CFStoreWordSp | COp::CFStoreWord => (false, 4u8, true),
        _ => (false, 0u8, false),
    };
    if bytes == 0 {
        None
    } else {
        let base = if c.sp { Some(2u16) } else { opt_reg(inst, c.rs1) };
        Some(MemAccess { load, bytes, float, base, offset: c.imm, data: if load { opt_reg(inst, c.rd) } else { opt_reg(inst, c.rs2) } })
    }
}

/// A compressed load or store makes the same access as the base one: same
/// direction, width and register file, same address (base register and
/// offset) and same data register.
pub proof fn law_compressed_memory_access_is_the_same(inst: BaseInst, xlen: u32)
    requires
        base_access(inst) is Some,
    ensures
        spec_compress(inst, xlen) matches Some(c) ==> c_access(inst, c) == base_access(inst),
{
}

/// Whether `r` is one of x8..x15, the registers a 3-bit field reaches.
pub open spec fn in_c_range(r: u16) -> bool {
    8 <= r && r <= 15
}

/// Whenever a two-address CA form can encode a register-register ALU
/// instruction, compression narrows it: `rd == rs1` with all three
/// registers in x8..x15 (the word forms on RV64 only), and for `add` any
/// `rd == rs1` other than x0 with `rs2` other than x0.
pub proof fn law_reg_alu_narrows_when_encodable(inst: BaseInst, xlen: u32)
    requires
        inst.rd matches Some(rd) && inst.rs1 == Some(rd),
        inst.rs2 is Some,
    ensures
        ({
            let rd = inst.rd->0;
            let rs2 = inst.rs2->0;
            &&& (inst.op == BaseOp::Sub || inst.op == BaseOp::Xor || inst.op == BaseOp::Or || inst.op == BaseOp::And
                || ((inst.op == BaseOp::SubWord || inst.op == BaseOp::AddWord) && xlen == 64))
                && in_c_range(rd) && in_c_range(rs2) ==> spec_compress(inst, xlen) is Some
            &&& inst.op == BaseOp::Add && rd != 0 && rs2 != 0 ==> (spec_compress(inst, xlen) matches Some(c) && c.op == COp::CAdd)
        }),
{
}

/// Whenever `c.addi`/`c.li` can encode an `addi`, compression narrows it:
/// a nonzero 6-bit signed immediate added to a register in place, or loaded
/// from x0, into any register but x0.
pub proof fn law_add_imm_narrows_when_encodable(inst: BaseInst, xlen: u32)
    requires
        inst.op == BaseOp::AddImm,
        inst.rd matches Some(rd) && rd != 0,
        inst.rs1 matches Some(rs1) && (rs1 == inst.rd->0 || rs1 == 0),
        inst.imm matches Some(v) && v != 0 && -32 <= v && v < 32,
    ensures
        spec_compress(inst, xlen) is Some,
{
}

/// Whenever `c.jr`/`c.jalr` can encode a `jalr`, compression narrows it: no
/// offset, a target other than x0, and a link register of x0 or ra.
pub proof fn law_jump_narrows_when_encodable(inst: BaseInst, xlen: u32)
    requires
        inst.op == BaseOp::JumpAndLinkReg,
        inst.rd matches Some(rd) && (rd == 0 || rd == 1),
        inst.rs1 matches Some(rs1) && rs1 != 0,
        inst.imm == Some(0i64),
    ensures
        spec_compress(inst, xlen) is Some,
{
}

/// Whenever an sp-relative form can encode a word or doubleword integer
/// load or store, compression narrows it: based on `sp`, a load into a
/// register other than x0, and a nonnegative offset that is a multiple of
/// the width below 64 times it.
pub proof fn law_stack_access_narrows_when_encodable(inst: BaseInst, xlen: u32)
    requires
        inst.op == BaseOp::LoadWord || inst.op == BaseOp::StoreWord
            || ((inst.op == BaseOp::LoadDoubleWord || inst.op == BaseOp::StoreDoubleWord) && xlen == 64),
        inst.rs1 == Some(2u16),
        (if is_load(inst.op) { inst.rd } else { inst.rs2 }) matches Some(d) && (!is_load(inst.op) || d != 0),
        inst.imm matches Some(v) && v >= 0 && ({
            let w: i64 = if inst.op == BaseOp::LoadWord || inst.op == BaseOp::StoreWord { 4 } else { 8 };
            v % w == 0 && v < 64 * w
        }),
    ensures
        spec_compress(inst, xlen) is Some,
{
    assert(crate::riscv::pow2(8) == 256) by {
        reveal_with_fuel(crate::riscv::pow2, 9);
    }
    assert(crate::riscv::pow2(9) == 512) by {
        reveal_with_fuel(crate::riscv::pow2, 10);
    }
}

} // verus!
