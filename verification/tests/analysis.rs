use tir::effects::{
    access_of, effect_of, observed_state, produced_state, resource_effect, Access, Effect,
    MemoryAccessDecl, OpHandle, ResourceAccess, ResourceEffect, StateResource,
};
use tir::ids::{OpId, ValueId};
use tir::objects::Base;
use tir::scopes::{
    carried_operands, exit_scope, exits_scope, exits_scopes, loop_scope, nested_exit_scopes,
    port_edges, region_exit, scope_exits, Block, BlockArg, OpInstance, OpKind, Region,
};
use tir::seed::{accesses_memory, renders, OpShape};

fn v(n: u32) -> ValueId {
    ValueId(n)
}

fn effect(access: ResourceAccess, observed: Vec<u32>, produced: Vec<u32>) -> ResourceEffect {
    ResourceEffect {
        resource: StateResource::Memory,
        access,
        observed: observed.into_iter().map(ValueId).collect(),
        produced: produced.into_iter().map(ValueId).collect(),
    }
}

#[test]
fn effects_read_off_the_memory_effect() {
    let load = OpHandle {
        resource_effects: Some(vec![effect(ResourceAccess::Read, vec![4, 5], vec![])]),
        memory_write: None,
        memory_read: Some(MemoryAccessDecl { location: v(1), value: v(2) }),
    };
    assert_eq!(effect_of(&load), Some(Effect::Read));
    assert_eq!(observed_state(&load), Some(v(4)));
    assert_eq!(produced_state(&load), None);
    assert_eq!(
        access_of(&load),
        Some(Access { location: v(1), value: v(2), state: Some(v(4)), write: false })
    );
    assert!(accesses_memory(&load));

    let store = OpHandle {
        resource_effects: Some(vec![effect(ResourceAccess::Change, vec![], vec![9])]),
        memory_write: Some(MemoryAccessDecl { location: v(3), value: v(6) }),
        memory_read: Some(MemoryAccessDecl { location: v(7), value: v(8) }),
    };
    assert_eq!(effect_of(&store), Some(Effect::Change));
    assert_eq!(produced_state(&store), Some(v(9)));
    assert_eq!(observed_state(&store), None);
    assert_eq!(
        access_of(&store),
        Some(Access { location: v(3), value: v(6), state: None, write: true })
    );
    let copy = resource_effect(&store, StateResource::Memory).unwrap();
    assert_eq!(copy.produced, vec![v(9)]);

    let plain = OpHandle { resource_effects: None, memory_write: None, memory_read: None };
    assert_eq!(effect_of(&plain), None);
    assert_eq!(access_of(&plain), None);
    assert!(!accesses_memory(&plain));
    let no_memory = OpHandle { resource_effects: Some(vec![]), memory_write: None, memory_read: None };
    assert!(resource_effect(&no_memory, StateResource::Memory).is_none());
}

#[test]
fn renders_single_result_terms() {
    let term = OpShape { result_count: 1, is_terminator: false, is_constant_like: false, has_semantics: true };
    assert!(renders(&term));
    assert!(renders(&OpShape { has_semantics: false, is_constant_like: true, ..term }));
    assert!(!renders(&OpShape { has_semantics: false, ..term }));
    assert!(!renders(&OpShape { result_count: 2, ..term }));
    assert!(!renders(&OpShape { is_terminator: true, ..term }));
}

#[test]
fn distinct_objects() {
    let a = Base::Alloca(v(1));
    let g1 = Base::Global(v(2));
    let g2 = Base::Global(v(3));
    let p = Base::Param { pointer: v(4), noalias: false };
    let q = Base::Param { pointer: v(5), noalias: false };
    let r = Base::Param { pointer: v(6), noalias: true };
    assert!(a.distinct(g1));
    assert!(g1.distinct(g2));
    assert!(!g1.distinct(g1));
    assert!(!p.distinct(q));
    assert!(!p.distinct(g1));
    assert!(r.distinct(p));
    assert!(p.distinct(r));
    assert!(!a.distinct(a));
    assert!(a.unshared() && r.unshared() && !p.unshared() && !g1.unshared());
}

fn op(id: u32, kind: OpKind, operands: Vec<u32>, regions: Vec<Region>) -> OpInstance {
    OpInstance { id: OpId(id), kind, operands: operands.into_iter().map(ValueId).collect(), regions }
}

fn block(arguments: Vec<BlockArg>, ops: Vec<OpInstance>) -> Block {
    Block { arguments, ops }
}

#[test]
fn exits_and_carried_operands() {
    let brk = op(1, OpKind::Break, vec![100, 7, 8], vec![]);
    assert_eq!(exit_scope(&brk), Some(v(100)));
    assert!(exits_scope(&brk, &[v(3), v(100)]));
    assert!(!exits_scope(&brk, &[v(3)]));
    assert_eq!(carried_operands(&brk), &[v(7), v(8)]);
    let yield_op = op(2, OpKind::Other, vec![7, 8], vec![]);
    assert_eq!(exit_scope(&yield_op), None);
    assert!(!exits_scope(&yield_op, &[v(7)]));
    assert_eq!(carried_operands(&yield_op), &[v(7), v(8)]);
}

/// A loop body: token argument 100, a nested `if` whose then-region breaks
/// out of the loop and whose else-region continues an outer loop (200),
/// then the body's own terminator.
fn loop_body() -> Region {
    let then_region = Region { blocks: vec![block(vec![], vec![op(11, OpKind::Break, vec![100, 1], vec![])])] };
    let else_region = Region { blocks: vec![block(vec![], vec![op(12, OpKind::Continue, vec![200], vec![])])] };
    let nested_if = op(10, OpKind::Other, vec![5], vec![then_region, else_region]);
    let inner_continue = op(13, OpKind::Continue, vec![100, 2], vec![]);
    Region {
        blocks: vec![block(
            vec![BlockArg { id: v(99), is_token: false }, BlockArg { id: v(100), is_token: true }],
            vec![nested_if, inner_continue],
        )],
    }
}

#[test]
fn port_edges_collect_exits_then_terminator() {
    let body = loop_body();
    assert_eq!(loop_scope(&body), Some(v(100)));
    assert_eq!(scope_exits(&body.blocks[0], v(100)), vec![OpId(11), OpId(13)]);
    // The terminator already leaves the scope, so it is not added twice.
    assert_eq!(port_edges(&body), vec![OpId(11), OpId(13)]);
    assert_eq!(region_exit(&body), Some(v(100)));

    let plain = Region {
        blocks: vec![block(vec![], vec![op(1, OpKind::Other, vec![], vec![]), op(2, OpKind::Other, vec![], vec![])])],
    };
    assert_eq!(loop_scope(&plain), None);
    assert_eq!(port_edges(&plain), vec![OpId(2)]);
    assert_eq!(region_exit(&plain), None);
    assert_eq!(port_edges(&Region { blocks: vec![] }), vec![]);
}

#[test]
fn nested_scopes_in_tree_order() {
    let outer = op(50, OpKind::Other, vec![], vec![loop_body()]);
    assert_eq!(nested_exit_scopes(&outer), vec![v(100), v(200), v(100)]);
    assert!(exits_scopes(&outer, &[v(200)]));
    assert!(!exits_scopes(&outer, &[v(300)]));
    let two_blocks = Region { blocks: vec![block(vec![BlockArg { id: v(1), is_token: true }], vec![]), block(vec![], vec![])] };
    assert_eq!(loop_scope(&two_blocks), None);
}
