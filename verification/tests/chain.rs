use tir::chain::{
    back, port_incoming, ChainBlock, ChainGraph, ChainKind, ChainOp, ChainRegion, PortBinding,
    StateSource, Step, Structure,
};
use tir::effects::{MemoryAccessDecl, OpHandle, ResourceAccess, ResourceEffect, StateResource};
use tir::ids::{OpId, ValueId};

fn v(n: u32) -> ValueId {
    ValueId(n)
}

fn vals(ns: &[u32]) -> Vec<ValueId> {
    ns.iter().map(|&n| v(n)).collect()
}

fn no_memory() -> OpHandle {
    OpHandle { resource_effects: None, memory_write: None, memory_read: None }
}

fn chain_op(kind: ChainKind, structure: Structure, handle: OpHandle, operands: &[u32], deps: &[u32], dep_results: &[u32], value_operands: &[u32]) -> ChainOp {
    ChainOp {
        kind,
        structure,
        handle,
        operands: vals(operands),
        dep_operands: vals(deps),
        dep_results: vals(dep_results),
        value_operands: vals(value_operands),
    }
}

/// `%0` is an entry state; `%1 = join %0, %2`; `%2` is a read observing
/// `%0`; a loop (op 2) enters its region on port `%3` (fed `%1`) with value
/// port `%4` (fed `%5`) and leaves on `%6`; a split (op 3) of the effect
/// `%9` over `%1` hands back `%7`, `%8`; a split (op 5) of the entry `%12`
/// hands back `%10`, `%11`; a gate (op 7) with operands `%0 %13 %14`
/// threads its last two into block arguments `%15 %16`.
fn graph() -> ChainGraph {
    let read = OpHandle {
        resource_effects: Some(vec![ResourceEffect {
            resource: StateResource::Memory,
            access: ResourceAccess::Read,
            observed: vals(&[0]),
            produced: vals(&[]),
        }]),
        memory_write: None,
        memory_read: Some(MemoryAccessDecl { location: v(5), value: v(2) }),
    };
    let binding = PortBinding { operands_start: 0, ports_start: 0 };
    let mut values = vec![StateSource::Other; 17];
    values[1] = StateSource::Result(OpId(0));
    values[2] = StateSource::Result(OpId(1));
    values[3] = StateSource::Port(0);
    values[4] = StateSource::Port(0);
    values[6] = StateSource::Result(OpId(2));
    values[7] = StateSource::Result(OpId(3));
    values[8] = StateSource::Result(OpId(3));
    values[9] = StateSource::Result(OpId(4));
    values[10] = StateSource::Result(OpId(5));
    values[11] = StateSource::Result(OpId(5));
    values[12] = StateSource::Result(OpId(6));
    values[15] = StateSource::BlockArg(0);
    values[16] = StateSource::BlockArg(0);
    ChainGraph {
        ops: vec![
            Some(chain_op(ChainKind::Join, Structure::Plain, no_memory(), &[], &[0, 2], &[1], &[])),
            Some(chain_op(ChainKind::Other, Structure::Plain, read, &[5, 0], &[0], &[], &[])),
            Some(chain_op(ChainKind::Other, Structure::Theta(binding), no_memory(), &[1, 5], &[1], &[6], &[5])),
            Some(chain_op(ChainKind::Split, Structure::Plain, no_memory(), &[9], &[9], &[7, 8], &[])),
            Some(chain_op(ChainKind::Other, Structure::Plain, no_memory(), &[1], &[1], &[9], &[])),
            Some(chain_op(ChainKind::Split, Structure::Plain, no_memory(), &[12], &[12], &[10, 11], &[])),
            Some(chain_op(ChainKind::Other, Structure::Plain, no_memory(), &[], &[], &[12], &[])),
            Some(chain_op(ChainKind::Other, Structure::Gamma(binding), no_memory(), &[0, 13, 14], &[], &[], &[13, 14])),
        ],
        values,
        regions: vec![
            ChainRegion { parent: Some(OpId(2)), dep_arguments: vals(&[3]), value_arguments: vals(&[4]) },
            ChainRegion { parent: Some(OpId(7)), dep_arguments: vals(&[]), value_arguments: vals(&[]) },
        ],
        blocks: vec![ChainBlock { region: Some(1), arguments: vals(&[15, 16]) }],
    }
}

#[test]
fn an_entry_state_is_a_root() {
    assert_eq!(back(&graph(), v(0)), Step::Root);
}

#[test]
fn a_join_merges_its_chains() {
    assert_eq!(back(&graph(), v(1)), Step::Merge(vals(&[0, 2])));
}

#[test]
fn an_access_carries_on_from_what_it_observed() {
    assert_eq!(back(&graph(), v(2)), Step::From(v(0)));
}

#[test]
fn ports_of_a_structured_op() {
    let g = graph();
    assert_eq!(back(&g, v(3)), Step::Port { op: OpId(2), index: 0, entering: true });
    assert_eq!(back(&g, v(6)), Step::Port { op: OpId(2), index: 0, entering: false });
    assert_eq!(port_incoming(&g, v(3)), Some(v(1)));
    assert_eq!(port_incoming(&g, v(4)), Some(v(5)));
    assert_eq!(back(&g, v(4)), Step::From(v(5)));
}

#[test]
fn a_split_chain_came_in_on_the_merge() {
    let g = graph();
    assert_eq!(back(&g, v(7)), Step::From(v(0)));
    assert_eq!(back(&g, v(8)), Step::From(v(2)));
}

#[test]
fn a_split_entry_state_is_a_root_of_its_own() {
    let g = graph();
    assert_eq!(back(&g, v(10)), Step::Root);
    assert_eq!(back(&g, v(11)), Step::Root);
}

#[test]
fn a_gate_arm_argument_stands_for_its_operand() {
    let g = graph();
    assert_eq!(port_incoming(&g, v(15)), Some(v(13)));
    assert_eq!(back(&g, v(16)), Step::From(v(14)));
    assert_eq!(port_incoming(&g, v(0)), None);
}
