use tir::abi::{
    align_argument_group, exhaust_argument_registers, next_register, stack_class, AbiInfo,
    ArgumentGroupAlignment, ClassifierKind, GroupRollback, NextSlot, Overflow, PassSeq, PhysReg,
    RegClassId, SaveStyle, StackLayout, ValueKind,
};
use tir::call_lowering::{
    indirect_callee_class, indirect_result_register, plan_arguments, return_register,
    tuple_return_registers, ArgumentLocation, CallLoweringError,
};
use tir::compress::{compress_rv32, compress_rv64, BaseInst, BaseOp, COp, Operand, SlotRef};
use tir::riscv::{fits_simm6, fits_uimm, is_c_reg};
use tir::call_steps::{
    call_steps, indirect_result_step, CallResult, CallShape, CallStep, CallTarget, TupleExtract,
};
use tir::ids::OpId;
use tir::rules::PassError;

const GPR: RegClassId = RegClassId(0);
const FPR: RegClassId = RegClassId(1);

fn regs(class: RegClassId, indices: &[u16]) -> Vec<PhysReg> {
    indices.iter().map(|&i| PhysReg(class, i)).collect()
}

/// Three integer argument registers; two float ones that fall back to the
/// integer sequence.
fn toy_abi(rollback: GroupRollback, limit: Option<usize>) -> AbiInfo {
    AbiInfo {
        name: "toy".to_string(),
        stack: StackLayout { align: 16, slot_size: 8, red_zone: 0, grows_down: true, save_style: SaveStyle::FrameSlots },
        sp: PhysReg(GPR, 2),
        ra: Some(PhysReg(GPR, 1)),
        fp: None,
        indirect_result: None,
        argument_group_alignment: Some(ArgumentGroupAlignment { kind: ValueKind::Int, minimum_source_alignment: 16, register_multiple: 2 }),
        argument_group_register_limit: limit,
        argument_group_rollback: rollback,
        args: vec![
            PassSeq { kind: ValueKind::Int, regs: regs(GPR, &[10, 11, 12]), overflow: Overflow::Stack },
            PassSeq { kind: ValueKind::Float, regs: regs(FPR, &[10, 11]), overflow: Overflow::Chain(ValueKind::Int) },
        ],
        rets: vec![PassSeq { kind: ValueKind::Int, regs: regs(GPR, &[10, 11]), overflow: Overflow::Stack }],
        callee_saved: vec![],
        caller_saved: vec![],
        reserved: vec![],
        classifier: ClassifierKind::Riscv,
    }
}

#[test]
fn align_slot_rounds_only_aligned_groups() {
    let a = ArgumentGroupAlignment { kind: ValueKind::Int, minimum_source_alignment: 16, register_multiple: 2 };
    assert_eq!(a.align_slot(ValueKind::Int, 16, 3), 4);
    assert_eq!(a.align_slot(ValueKind::Int, 16, 4), 4);
    assert_eq!(a.align_slot(ValueKind::Int, 8, 3), 3);
    assert_eq!(a.align_slot(ValueKind::Float, 16, 3), 3);
}

#[test]
fn next_register_walks_sequences_and_overflow() {
    let abi = toy_abi(GroupRollback::Exhaust, None);
    let mut slots = NextSlot::new();
    assert_eq!(next_register(&abi, ValueKind::Float, &mut slots), Some(PhysReg(FPR, 10)));
    assert_eq!(next_register(&abi, ValueKind::Float, &mut slots), Some(PhysReg(FPR, 11)));
    // Floats continue in the integer sequence once theirs is used up.
    assert_eq!(next_register(&abi, ValueKind::Float, &mut slots), Some(PhysReg(GPR, 10)));
    assert_eq!(next_register(&abi, ValueKind::Int, &mut slots), Some(PhysReg(GPR, 11)));
    // Vectors have no sequence and fall back to the integer one.
    assert_eq!(next_register(&abi, ValueKind::Vector, &mut slots), Some(PhysReg(GPR, 12)));
    assert_eq!(next_register(&abi, ValueKind::Int, &mut slots), None);
    assert_eq!(stack_class(&abi, ValueKind::Float), Some(FPR));
    assert_eq!(stack_class(&abi, ValueKind::Vector), Some(GPR));

    let mut slots = NextSlot::new();
    exhaust_argument_registers(&abi, ValueKind::Float, &mut slots);
    assert_eq!((slots.int, slots.float), (3, 2));

    let mut slots = NextSlot { int: 1, float: 0, vector: 0 };
    align_argument_group(&abi, 16, &[ValueKind::Float, ValueKind::Int], &mut slots);
    assert_eq!(slots.int, 2);
}

#[test]
fn plan_arguments_spills_groups_that_do_not_fit() {
    let abi = toy_abi(GroupRollback::Exhaust, None);
    let groups = vec![vec![ValueKind::Int, ValueKind::Int], vec![ValueKind::Int, ValueKind::Int], vec![ValueKind::Float]];
    let plan = plan_arguments(&abi, &groups).unwrap();
    assert_eq!(
        plan.locations,
        vec![
            ArgumentLocation::Register(PhysReg(GPR, 10)),
            ArgumentLocation::Register(PhysReg(GPR, 11)),
            ArgumentLocation::Stack { class: GPR, offset: 0 },
            ArgumentLocation::Stack { class: GPR, offset: 8 },
            ArgumentLocation::Register(PhysReg(FPR, 10)),
        ]
    );
    assert_eq!(plan.outgoing_size, 16);
    assert_eq!(plan.locations[2].class(), GPR);

    // With a group register limit of one, a pair goes on the stack whole.
    let limited = toy_abi(GroupRollback::Keep, Some(1));
    let plan = plan_arguments(&limited, &vec![vec![ValueKind::Int, ValueKind::Int], vec![ValueKind::Int]]).unwrap();
    assert_eq!(
        plan.locations,
        vec![
            ArgumentLocation::Stack { class: GPR, offset: 0 },
            ArgumentLocation::Stack { class: GPR, offset: 8 },
            ArgumentLocation::Register(PhysReg(GPR, 10)),
        ]
    );
    assert_eq!(plan.outgoing_size, 16);
    let plan = plan_arguments(&limited, &vec![]).unwrap();
    assert_eq!(plan.outgoing_size, 0);
}

#[test]
fn result_registers() {
    let abi = toy_abi(GroupRollback::Exhaust, None);
    assert_eq!(indirect_callee_class(&abi), Ok(GPR));
    assert_eq!(indirect_result_register(&abi), Err(CallLoweringError::NoIndirectResultRegister));
    assert_eq!(return_register(&abi, ValueKind::Float), Ok(PhysReg(GPR, 10)));
    assert_eq!(
        tuple_return_registers(&abi, &vec![ValueKind::Int, ValueKind::Int]),
        Ok(vec![PhysReg(GPR, 10), PhysReg(GPR, 11)])
    );
    assert_eq!(
        tuple_return_registers(&abi, &vec![ValueKind::Int, ValueKind::Int, ValueKind::Int]),
        Err(CallLoweringError::NoTupleReturnRegister(2))
    );
}

#[test]
fn compressible_register_and_immediate_ranges() {
    assert!(is_c_reg(8) && is_c_reg(15));
    assert!(!is_c_reg(7) && !is_c_reg(16));
    assert!(fits_simm6(-32) && fits_simm6(31));
    assert!(!fits_simm6(32) && !fits_simm6(-33));
    assert!(fits_uimm(252, 8, 4));
    assert!(!fits_uimm(254, 8, 4));
    assert!(!fits_uimm(256, 8, 4));
    assert!(!fits_uimm(-4, 8, 4));
}

fn inst(op: BaseOp, rd: Option<u16>, rs1: Option<u16>, rs2: Option<u16>, imm: Option<i64>) -> BaseInst {
    BaseInst { op, rd, rs1, rs2, imm }
}

#[test]
fn compression_picks_the_short_forms() {
    // addi a0, a0, 1 -> c.addi
    let c = compress_rv64(&inst(BaseOp::AddImm, Some(10), Some(10), None, Some(1))).unwrap();
    assert_eq!(c.op, COp::CAddImm);
    assert_eq!(c.imm, Some(1));
    // add a0, a0, a1 -> c.add
    let c = compress_rv64(&inst(BaseOp::Add, Some(10), Some(10), Some(11), None)).unwrap();
    assert_eq!(c.op, COp::CAdd);
    assert_eq!(c.rs2, Some(Operand::Slot(SlotRef::Rs2)));
    // jal is pc-relative and never compressed.
    assert!(compress_rv64(&inst(BaseOp::JumpAndLink, Some(1), None, None, Some(8))).is_none());
    // An immediate out of range stays wide.
    assert!(compress_rv32(&inst(BaseOp::AndImm, Some(8), Some(8), None, Some(100))).is_none());
}

fn v(n: u32) -> tir::ids::ValueId {
    tir::ids::ValueId(n)
}

#[test]
fn call_steps_for_a_direct_call() {
    let abi = toy_abi(GroupRollback::Exhaust, None);
    let call = CallShape {
        target: CallTarget::Direct,
        groups: vec![vec![ValueKind::Int], vec![ValueKind::Int]],
        values: vec![v(5), v(6)],
        indirect_result: None,
        result: CallResult::Scalar { value: v(9), kind: ValueKind::Int },
        tuple_makers: vec![],
    };
    assert_eq!(
        call_steps(&abi, &call).unwrap(),
        vec![
            CallStep::Detach { value: v(5), class: GPR },
            CallStep::Detach { value: v(6), class: GPR },
            CallStep::MoveToRegister { fresh: 0, reg: PhysReg(GPR, 10) },
            CallStep::MoveToRegister { fresh: 1, reg: PhysReg(GPR, 11) },
            CallStep::SaveReturnAddress(PhysReg(GPR, 1)),
            CallStep::Prefix(0),
            CallStep::CallDirect,
            CallStep::Suffix(0),
            CallStep::RestoreReturnAddress(PhysReg(GPR, 1)),
            CallStep::ReplaceWithMove { value: v(9), reg: PhysReg(GPR, 10) },
        ]
    );
    let unit = CallShape { result: CallResult::Unit, values: vec![], groups: vec![], ..call };
    assert_eq!(*call_steps(&abi, &unit).unwrap().last().unwrap(), CallStep::EraseCall);
}

#[test]
fn call_steps_for_an_indirect_call_with_a_tuple_result() {
    let mut abi = toy_abi(GroupRollback::Exhaust, None);
    let shape = |extracts: Vec<TupleExtract>| CallShape {
        target: CallTarget::Indirect(v(3)),
        groups: vec![vec![ValueKind::Int, ValueKind::Int]],
        values: vec![v(5), v(6)],
        indirect_result: Some(v(4)),
        result: CallResult::Tuple { kinds: vec![ValueKind::Int, ValueKind::Int], extracts },
        tuple_makers: vec![OpId(7)],
    };
    let extracts = vec![
        TupleExtract { index: 1, value: v(21), op: OpId(31) },
        TupleExtract { index: 0, value: v(20), op: OpId(30) },
    ];
    assert_eq!(call_steps(&abi, &shape(extracts.clone())), Err(CallLoweringError::NoIndirectResultRegister));
    abi.indirect_result = Some(PhysReg(GPR, 13));
    assert_eq!(
        call_steps(&abi, &shape(extracts)).unwrap(),
        vec![
            CallStep::Detach { value: v(3), class: GPR },
            CallStep::Detach { value: v(4), class: GPR },
            CallStep::Detach { value: v(5), class: GPR },
            CallStep::Detach { value: v(6), class: GPR },
            CallStep::MoveToRegister { fresh: 2, reg: PhysReg(GPR, 10) },
            CallStep::MoveToRegister { fresh: 3, reg: PhysReg(GPR, 11) },
            CallStep::MoveToRegister { fresh: 1, reg: PhysReg(GPR, 13) },
            CallStep::SaveReturnAddress(PhysReg(GPR, 1)),
            CallStep::Prefix(0),
            CallStep::CallIndirect { fresh: 0, class: GPR },
            CallStep::Suffix(0),
            CallStep::RestoreReturnAddress(PhysReg(GPR, 1)),
            CallStep::MoveFromRegister { value: v(20), reg: PhysReg(GPR, 10) },
            CallStep::MoveFromRegister { value: v(21), reg: PhysReg(GPR, 11) },
            CallStep::Erase(OpId(30)),
            CallStep::Erase(OpId(31)),
            CallStep::EraseCall,
            CallStep::Erase(OpId(7)),
        ]
    );
    let out_of_range = vec![TupleExtract { index: 2, value: v(22), op: OpId(32) }];
    assert_eq!(call_steps(&abi, &shape(out_of_range)), Err(CallLoweringError::TupleIndexOutOfBounds));
    let three = CallShape {
        result: CallResult::Tuple { kinds: vec![ValueKind::Int; 3], extracts: vec![] },
        ..shape(vec![])
    };
    assert_eq!(call_steps(&abi, &three), Err(CallLoweringError::NoTupleReturnRegister(2)));
}

#[test]
fn indirect_result_op_becomes_a_copy() {
    let mut abi = toy_abi(GroupRollback::Exhaust, None);
    assert_eq!(indirect_result_step(&abi, v(8)), Err(CallLoweringError::NoIndirectResultRegister));
    abi.indirect_result = Some(PhysReg(GPR, 13));
    assert_eq!(indirect_result_step(&abi, v(8)), Ok(CallStep::ReplaceWithMove { value: v(8), reg: PhysReg(GPR, 13) }));
}

#[test]
fn call_lowering_errors_read_as_the_pass_reports_them() {
    let message = |e: CallLoweringError| match e.to_pass_error() {
        PassError::InvalidRuleSet(m) => m,
        other => panic!("unexpected {other:?}"),
    };
    assert_eq!(message(CallLoweringError::NoIndirectResultRegister), "ABI has no indirect result register");
    assert_eq!(message(CallLoweringError::NoArgumentSequence), "ABI has no argument sequence");
    assert_eq!(message(CallLoweringError::NoIntegerArgumentRegisters), "ABI has no integer argument registers");
    assert_eq!(message(CallLoweringError::NoReturnRegister), "ABI has no return register");
    assert_eq!(message(CallLoweringError::NoTupleReturnRegister(12)), "ABI has no return register for tuple element 12");
    assert_eq!(message(CallLoweringError::TupleIndexOutOfBounds), "tuple_get index is out of bounds");
}

#[test]
fn call_steps_read_only_fresh_values_already_made() {
    let mut abi = toy_abi(GroupRollback::Exhaust, None);
    abi.indirect_result = Some(PhysReg(GPR, 13));
    let call = CallShape {
        target: CallTarget::Indirect(v(3)),
        groups: vec![vec![ValueKind::Int], vec![ValueKind::Int; 4]],
        values: vec![v(5), v(6), v(7), v(8), v(9)],
        indirect_result: Some(v(4)),
        result: CallResult::Unit,
        tuple_makers: vec![OpId(1)],
    };
    let steps = call_steps(&abi, &call).unwrap();
    let mut made = 0u64;
    for step in &steps {
        match *step {
            CallStep::Detach { .. } => made += 1,
            CallStep::MoveToRegister { fresh, .. }
            | CallStep::StoreToStack { fresh, .. }
            | CallStep::CallIndirect { fresh, .. } => assert!(fresh < made),
            _ => {}
        }
    }
    assert_eq!(made, 7);
    assert!(steps.iter().any(|s| matches!(s, CallStep::StoreToStack { .. })));
}
