use tir::effects::{MemoryAccessDecl, OpHandle};
use tir::ids::{OpId, TypeId, ValueId};
use tir::objects::{accessed_only, object_base, only_pointer_held, Base};
use tir::slots::{agreed_value_type, collect_slots, slot_base, SlotState};
use tir::value_graph::{GraphOp, OpClass, ValueGraph, ValueSource};

fn v(n: u32) -> ValueId {
    ValueId(n)
}

fn handle(write: Option<(u32, u32)>, read: Option<(u32, u32)>) -> OpHandle {
    OpHandle {
        resource_effects: None,
        memory_write: write.map(|(l, x)| MemoryAccessDecl { location: v(l), value: v(x) }),
        memory_read: read.map(|(l, x)| MemoryAccessDecl { location: v(l), value: v(x) }),
    }
}

fn op(class: OpClass, allocation: Option<u32>, h: OpHandle, operands: &[u32], results: &[u32]) -> GraphOp {
    GraphOp {
        class,
        allocation: allocation.map(v),
        handle: h,
        operands: operands.iter().map(|&n| v(n)).collect(),
        results: results.iter().map(|&n| v(n)).collect(),
    }
}

/// `%0` is a `noalias` parameter spilled to the slot `%1` and read back as
/// `%3`; `%2` offsets `%3`; `%4` is a global; `%5` offsets itself.
fn spilled_parameter() -> ValueGraph {
    ValueGraph {
        ops: vec![
            Some(op(OpClass::Other, Some(1), handle(None, None), &[], &[1])),
            Some(op(OpClass::Other, None, handle(Some((1, 0)), None), &[0, 1], &[])),
            Some(op(OpClass::Other, None, handle(None, Some((1, 3))), &[1], &[3])),
            Some(op(OpClass::PtrAdd, None, handle(None, None), &[3], &[2])),
            Some(op(OpClass::Global, None, handle(None, None), &[], &[4])),
            Some(op(OpClass::PtrAdd, None, handle(None, None), &[5], &[5])),
        ],
        sources: vec![
            ValueSource::Parameter { noalias: true },
            ValueSource::Result(OpId(0)),
            ValueSource::Result(OpId(3)),
            ValueSource::Result(OpId(2)),
            ValueSource::Result(OpId(4)),
            ValueSource::Result(OpId(5)),
        ],
        types: vec![TypeId(1); 6],
        region_of: vec![None; 6],
        nested_results: vec![],
    }
}

#[test]
fn a_spilled_parameter_reads_back_to_itself() {
    let g = spilled_parameter();
    assert_eq!(only_pointer_held(&g, v(1)), Some(v(0)));
    assert_eq!(object_base(&g, v(2)), Some(Base::Param { pointer: v(0), noalias: true }));
    assert_eq!(object_base(&g, v(3)), Some(Base::Param { pointer: v(0), noalias: true }));
}

#[test]
fn allocations_and_globals_are_their_own_objects() {
    let g = spilled_parameter();
    assert_eq!(object_base(&g, v(1)), Some(Base::Alloca(v(1))));
    assert_eq!(object_base(&g, v(4)), Some(Base::Global(v(4))));
}

#[test]
fn a_walk_that_comes_back_names_no_object() {
    let g = spilled_parameter();
    assert_eq!(object_base(&g, v(5)), None);
}

#[test]
fn a_slot_whose_address_is_passed_on_is_not_accessed_only() {
    let mut g = spilled_parameter();
    assert!(accessed_only(&g, v(1)));
    // A call takes the slot's address as a plain operand.
    g.ops.push(Some(op(OpClass::Other, None, handle(None, None), &[1], &[])));
    assert!(!accessed_only(&g, v(1)));
    assert_eq!(only_pointer_held(&g, v(1)), None);
    assert_eq!(object_base(&g, v(2)), None);
}

#[test]
fn a_published_address_is_not_accessed_only() {
    let mut g = spilled_parameter();
    g.region_of[1] = Some(0);
    g.nested_results = vec![vec![v(1)]];
    assert!(!accessed_only(&g, v(1)));
}

#[test]
fn two_writes_hold_no_one_pointer() {
    let mut g = spilled_parameter();
    g.ops.push(Some(op(OpClass::Other, None, handle(Some((1, 4)), None), &[4, 1], &[])));
    assert_eq!(only_pointer_held(&g, v(1)), None);
}

#[test]
fn slots_collect_their_loads_and_stores() {
    let g = spilled_parameter();
    assert_eq!(slot_base(&g, v(1)), v(1));
    let local = vec![true, true, true, true, true, true];
    let ids = vec![OpId(0), OpId(1), OpId(2), OpId(3)];
    let slots = collect_slots(&g, &local, &ids);
    assert_eq!(slots.len(), 6);
    let slot = slots[1].as_ref().unwrap();
    assert_eq!(slot.alloca, Some(OpId(0)));
    assert_eq!(slot.stores, vec![OpId(1)]);
    assert_eq!(slot.loads, vec![OpId(2)]);
    assert!(!slot.escapes);
    assert!(slots[0].is_none());
    assert!(slots[3].is_none());
}

#[test]
fn accesses_through_arithmetic_count_for_their_slot() {
    // %1 = alloca; %2 = ptradd %1; store %0 -> %2; the slot escapes.
    let g = ValueGraph {
        ops: vec![
            Some(op(OpClass::Other, Some(1), handle(None, None), &[], &[1])),
            Some(op(OpClass::PtrAdd, None, handle(None, None), &[1], &[2])),
            Some(op(OpClass::Other, None, handle(Some((2, 0)), None), &[0, 2], &[])),
        ],
        sources: vec![ValueSource::Other, ValueSource::Result(OpId(0)), ValueSource::Result(OpId(1))],
        types: vec![TypeId(1), TypeId(1), TypeId(1)],
        region_of: vec![None; 3],
        nested_results: vec![],
    };
    assert_eq!(slot_base(&g, v(2)), v(1));
    let slots = collect_slots(&g, &vec![true, false, true], &vec![OpId(0), OpId(1), OpId(2)]);
    let slot = slots[1].as_ref().unwrap();
    assert_eq!(slot.stores, vec![OpId(2)]);
    assert!(slot.loads.is_empty());
    assert!(slot.escapes);
    // Without its allocation among the operations, the slot is not described.
    let slots = collect_slots(&g, &vec![true, false, true], &vec![OpId(1), OpId(2)]);
    assert!(slots[1].is_none());
    assert_eq!(object_base(&g, v(2)), Some(Base::Alloca(v(1))));
}

#[test]
fn a_slot_has_a_type_where_its_accesses_agree() {
    let mut g = spilled_parameter();
    let slots = collect_slots(&g, &vec![true; 6], &vec![OpId(0), OpId(1), OpId(2)]);
    let slot = slots[1].as_ref().unwrap();
    assert_eq!(agreed_value_type(&g, slot), Some(TypeId(1)));
    // The read names a value of another type.
    g.types[3] = TypeId(2);
    assert_eq!(agreed_value_type(&g, slot), None);
    let untouched = SlotState { alloca: Some(OpId(0)), stores: vec![], loads: vec![], escapes: false };
    assert_eq!(agreed_value_type(&g, &untouched), None);
}
