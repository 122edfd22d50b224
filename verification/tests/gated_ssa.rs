use tir::gated_ssa::{
    region_blocks, predecessor_map, Cfg, CfgBlock, CfgOp, ConditionalInfo, DominatorTree,
    GateNode, Guarded, GuardedRegion, LoopInfo, Structured, SuccessorArgs, GSA,
};
use tir::ids::{BlockId, OpId, ValueId};

fn v(n: u32) -> ValueId {
    ValueId(n)
}

fn b(n: u32) -> BlockId {
    BlockId(n)
}

fn vals(ns: &[u32]) -> Vec<ValueId> {
    ns.iter().map(|&n| ValueId(n)).collect()
}

/// An operation that is neither a terminator nor structured.
fn op(id: u32, operands: &[u32], results: &[u32]) -> CfgOp {
    CfgOp {
        id: OpId(id),
        operands: vals(operands),
        results: vals(results),
        region_entries: vec![],
        successors: None,
        branch: None,
        guarded: None,
        structured: Structured::Plain,
    }
}

/// A terminator with no successors (a return, yield, break or condition).
fn exit(id: u32, operands: &[u32]) -> CfgOp {
    CfgOp { successors: Some(vec![]), ..op(id, operands, &[]) }
}

/// An unconditional branch forwarding `args` to `target`.
fn br(id: u32, target: u32, args: &[u32]) -> CfgOp {
    CfgOp {
        successors: Some(vec![b(target)]),
        branch: Some(vec![SuccessorArgs { succ: b(target), args: vals(args) }]),
        ..op(id, args, &[])
    }
}

/// A two-way branch on `cond`, forwarding nothing.
fn cond_br(id: u32, cond: u32, on_true: u32, on_false: u32) -> CfgOp {
    CfgOp {
        successors: Some(vec![b(on_true), b(on_false)]),
        branch: Some(vec![
            SuccessorArgs { succ: b(on_true), args: vec![] },
            SuccessorArgs { succ: b(on_false), args: vec![] },
        ]),
        guarded: Some(vec![
            Guarded { succ: b(on_true), cond: v(cond), when_true: true },
            Guarded { succ: b(on_false), cond: v(cond), when_true: false },
        ]),
        ..op(id, &[cond], &[])
    }
}

/// A structured conditional on `cond` with a true and a false region.
fn scf_if(id: u32, cond: u32, results: &[u32], then_block: u32, then_yields: &[u32], else_block: u32, else_yields: &[u32]) -> CfgOp {
    CfgOp {
        region_entries: vec![Some(b(then_block)), Some(b(else_block))],
        structured: Structured::Conditional(ConditionalInfo {
            decision: v(cond),
            regions: vec![
                GuardedRegion { yields: vals(then_yields), when_true: true },
                GuardedRegion { yields: vals(else_yields), when_true: false },
            ],
        }),
        ..op(id, &[cond], results)
    }
}

/// A structured loop over the given regions.
fn scf_loop(id: u32, operands: &[u32], results: &[u32], entries: &[u32], carried: &[u32], inits: &[u32], latched: &[u32], leaves_early: bool) -> CfgOp {
    CfgOp {
        region_entries: entries.iter().map(|&e| Some(b(e))).collect(),
        structured: Structured::Loop(LoopInfo {
            carried: vals(carried),
            inits: vals(inits),
            latched: vals(latched),
            leaves_early,
        }),
        ..op(id, operands, results)
    }
}

fn block(args: &[u32], ops: Vec<CfgOp>) -> CfgBlock {
    CfgBlock { arguments: vals(args), ops }
}

fn dom(idom: &[Option<u32>]) -> DominatorTree {
    DominatorTree { idom: idom.iter().map(|d| d.map(BlockId)).collect() }
}

fn kids(gs: &GSA, node: usize) -> Vec<usize> {
    gs.children(node).to_vec()
}

#[test]
fn gamma_for_diamond_merge() {
    // entry(%0) -> t | f -> merge(%1); t yields %2 = const, f yields %3 = const.
    let cfg = Cfg {
        blocks: vec![
            block(&[0], vec![cond_br(0, 0, 1, 2)]),
            block(&[], vec![op(1, &[], &[2]), br(2, 3, &[2])]),
            block(&[], vec![op(3, &[], &[3]), br(4, 3, &[3])]),
            block(&[1], vec![exit(5, &[1])]),
        ],
    };
    let d = dom(&[None, Some(0), Some(0), Some(0)]);
    let gs = GSA::new(&cfg, Some(b(0)), &d, 4);

    let node = gs.node_of(v(1)).unwrap();
    assert_eq!(*gs.gate(node), GateNode::Gamma { value: v(1), cond: v(0) });
    assert_eq!(gs.inputs_of(v(1)), Some([v(0), v(2), v(3)].as_slice()));

    let k = kids(&gs, node);
    assert_eq!(k.len(), 3);
    // Order is [condition, true_input, false_input].
    assert_eq!(gs.value_of(k[0]), Some(v(0)));
    assert_eq!(gs.op_of(k[1]), Some(OpId(1)));
    assert_eq!(gs.op_of(k[2]), Some(OpId(3)));
}

#[test]
fn mu_for_loop_header() {
    // entry -> header(%1) -> body | exit; body: %3 = const, %4 = addi %1, %3 -> header.
    let cfg = Cfg {
        blocks: vec![
            block(&[], vec![op(0, &[], &[2]), br(1, 1, &[2])]),
            block(&[1], vec![cond_br(2, 0, 2, 3)]),
            block(&[], vec![op(3, &[], &[3]), op(4, &[1, 3], &[4]), br(5, 1, &[4])]),
            block(&[], vec![exit(6, &[1])]),
        ],
    };
    let d = dom(&[None, Some(0), Some(1), Some(1)]);
    let gs = GSA::new(&cfg, Some(b(0)), &d, 5);

    let node = gs.node_of(v(1)).unwrap();
    assert_eq!(*gs.gate(node), GateNode::Mu { value: v(1) });
    assert_eq!(gs.inputs_of(v(1)), Some([v(2), v(4)].as_slice()));

    let k = kids(&gs, node);
    assert_eq!(k.len(), 2);
    // Order is [init, latch].
    assert_eq!(gs.op_of(k[0]), Some(OpId(0)));
    assert_eq!(gs.op_of(k[1]), Some(OpId(4)));

    // The latch (`addi`) reads the μ node back, closing the loop.
    assert!(kids(&gs, k[1]).contains(&node));
}

#[test]
fn two_latches_stay_a_phi() {
    let cfg = Cfg {
        blocks: vec![
            block(&[0], vec![op(0, &[], &[2]), br(1, 1, &[2])]),
            block(&[1], vec![cond_br(2, 0, 2, 5)]),
            block(&[], vec![cond_br(3, 0, 3, 4)]),
            block(&[], vec![op(4, &[], &[3]), br(5, 1, &[3])]),
            block(&[], vec![op(6, &[], &[4]), br(7, 1, &[4])]),
            block(&[], vec![exit(8, &[1])]),
        ],
    };
    let d = dom(&[None, Some(0), Some(1), Some(2), Some(2), Some(1)]);
    let gs = GSA::new(&cfg, Some(b(0)), &d, 5);

    // A μ has room for one latch only; with two, every input must be kept.
    let node = gs.node_of(v(1)).unwrap();
    assert_eq!(*gs.gate(node), GateNode::Phi { value: v(1) });
    let inputs = gs.inputs_of(v(1)).unwrap();
    assert!(inputs.contains(&v(2)));
    assert!(inputs.contains(&v(3)));
    assert!(inputs.contains(&v(4)));
}

#[test]
fn entry_arguments_are_inputs() {
    let cfg = Cfg { blocks: vec![block(&[0], vec![exit(0, &[0])])] };
    let d = dom(&[None]);
    let gs = GSA::new(&cfg, Some(b(0)), &d, 1);

    let node = gs.node_of(v(0)).unwrap();
    assert_eq!(*gs.gate(node), GateNode::Input(v(0)));
}

#[test]
fn gamma_for_scf_if_result() {
    // entry(%0): %3 = scf.if %0 { %1 = const; yield %1 } else { %2 = const; yield %2 }
    let cfg = Cfg {
        blocks: vec![
            block(&[0], vec![scf_if(4, 0, &[3], 1, &[1], 2, &[2]), exit(5, &[3])]),
            block(&[], vec![op(0, &[], &[1]), exit(1, &[1])]),
            block(&[], vec![op(2, &[], &[2]), exit(3, &[2])]),
        ],
    };
    let d = dom(&[None, Some(0), Some(0)]);
    let gs = GSA::new(&cfg, Some(b(0)), &d, 4);

    let node = gs.node_of(v(3)).unwrap();
    assert_eq!(*gs.gate(node), GateNode::Gamma { value: v(3), cond: v(0) });

    let k = kids(&gs, node);
    assert_eq!(k.len(), 3);
    // Order is [condition, true_input, false_input].
    assert_eq!(gs.value_of(k[0]), Some(v(0)));
    assert_eq!(gs.op_of(k[1]), Some(OpId(0)));
    assert_eq!(gs.op_of(k[2]), Some(OpId(2)));
}

#[test]
fn gamma_per_result_of_multi_result_if() {
    let cfg = Cfg {
        blocks: vec![
            block(&[0], vec![scf_if(6, 0, &[5, 6], 1, &[1, 2], 2, &[3, 4]), exit(7, &[5])]),
            block(&[], vec![op(0, &[], &[1]), op(1, &[], &[2]), exit(2, &[1, 2])]),
            block(&[], vec![op(3, &[], &[3]), op(4, &[], &[4]), exit(5, &[3, 4])]),
        ],
    };
    let d = dom(&[None, Some(0), Some(0)]);
    let gs = GSA::new(&cfg, Some(b(0)), &d, 7);

    let then_defs = [OpId(0), OpId(1)];
    let else_defs = [OpId(3), OpId(4)];
    // Every result of the conditional gets its own γ over that result's arm values.
    for (index, &result) in [v(5), v(6)].iter().enumerate() {
        let node = gs.node_of(result).unwrap();
        assert_eq!(*gs.gate(node), GateNode::Gamma { value: result, cond: v(0) });
        let k = kids(&gs, node);
        assert_eq!(gs.value_of(k[0]), Some(v(0)));
        assert_eq!(gs.op_of(k[1]), Some(then_defs[index]));
        assert_eq!(gs.op_of(k[2]), Some(else_defs[index]));
    }
}

/// Assert the loop's result is an η over the carried argument's μ, itself
/// gated over `[init, latch]` with the latch reading the μ back.
fn assert_mu(gs: &GSA, result: ValueId, acc: ValueId, init_op: OpId, latch_op: OpId) {
    let eta = gs.node_of(result).unwrap();
    assert_eq!(*gs.gate(eta), GateNode::Eta { value: result });
    assert_eq!(gs.inputs_of(result), Some([acc].as_slice()));

    let node = gs.node_of(acc).unwrap();
    assert_eq!(kids(gs, eta), vec![node]);
    assert_eq!(*gs.gate(node), GateNode::Mu { value: acc });

    let k = kids(gs, node);
    assert_eq!(k.len(), 2);
    // Order is [init, latch].
    assert_eq!(gs.op_of(k[0]), Some(init_op));
    assert_eq!(gs.op_of(k[1]), Some(latch_op));
    assert!(kids(gs, k[1]).contains(&node));
}

#[test]
fn mu_for_scf_for_result() {
    // entry: %6 = const; %7 = scf.for %0..%1 step %2 iter(%6) body(%3) { %4 = const; %5 = addi %3, %4; yield %5 }
    let cfg = Cfg {
        blocks: vec![
            block(&[], vec![
                op(3, &[], &[6]),
                scf_loop(4, &[0, 1, 2, 6], &[7], &[1], &[3], &[6], &[5], false),
                exit(5, &[7]),
            ]),
            block(&[3], vec![op(0, &[], &[4]), op(1, &[3, 4], &[5]), exit(2, &[5])]),
        ],
    };
    let d = dom(&[None, Some(0)]);
    let gs = GSA::new(&cfg, Some(b(0)), &d, 8);
    assert_mu(&gs, v(7), v(3), OpId(3), OpId(1));
}

#[test]
fn mu_and_eta_per_carried_port() {
    // A body carrying two ports: `%next_j = addi %acc_j, 1; yield %next_0, %next_1`.
    let cfg = Cfg {
        blocks: vec![
            block(&[], vec![
                op(4, &[], &[8]),
                op(5, &[], &[9]),
                scf_loop(6, &[0, 1, 2, 8, 9], &[10, 11], &[1], &[3, 4], &[8, 9], &[6, 7], false),
                exit(7, &[10]),
            ]),
            block(&[3, 4], vec![
                op(0, &[], &[5]),
                op(1, &[3, 5], &[6]),
                op(2, &[4, 5], &[7]),
                exit(3, &[6, 7]),
            ]),
        ],
    };
    let d = dom(&[None, Some(0)]);
    let gs = GSA::new(&cfg, Some(b(0)), &d, 12);

    // Each carried port gets its own μ, and each result its own η over that μ.
    let results = [v(10), v(11)];
    let accs = [v(3), v(4)];
    let init_ops = [OpId(4), OpId(5)];
    let latch_ops = [OpId(1), OpId(2)];
    for port in 0..results.len() {
        assert_mu(&gs, results[port], accs[port], init_ops[port], latch_ops[port]);
    }
}

#[test]
fn mu_for_scf_while_result() {
    // entry: %5 = const; %6 = scf.while iter(%5) cond(%4) { condition %0, %4 } body(%1) { %2 = const; %3 = addi %1, %2; yield %3 }
    let cfg = Cfg {
        blocks: vec![
            block(&[], vec![
                op(4, &[], &[5]),
                scf_loop(5, &[5], &[6], &[1, 2], &[1], &[5], &[3], false),
                exit(6, &[6]),
            ]),
            block(&[4], vec![exit(3, &[0, 4])]),
            block(&[1], vec![op(0, &[], &[2]), op(1, &[1, 2], &[3]), exit(2, &[3])]),
        ],
    };
    let d = dom(&[None, Some(0), Some(0)]);
    let gs = GSA::new(&cfg, Some(b(0)), &d, 7);
    assert_mu(&gs, v(6), v(1), OpId(4), OpId(1));
}

/// A body that can `break` feeds the carried port on two edges and the
/// result on two exits, which a μ/η pair cannot hold: the loop stays opaque.
#[test]
fn no_mu_for_a_loop_that_can_break() {
    let cfg = Cfg {
        blocks: vec![
            block(&[], vec![
                op(7, &[], &[8]),
                scf_loop(8, &[0, 1, 2, 8], &[9], &[1], &[4], &[8], &[6], true),
                exit(9, &[9]),
            ]),
            block(&[3, 4], vec![
                op(2, &[], &[5]),
                op(3, &[4, 5], &[6]),
                op(4, &[], &[7]),
                scf_if(5, 7, &[], 2, &[], 3, &[]),
                exit(6, &[6]),
            ]),
            block(&[], vec![exit(0, &[3, 6])]),
            block(&[], vec![exit(1, &[])]),
        ],
    };
    let d = dom(&[None, Some(0), Some(1), Some(1)]);
    let gs = GSA::new(&cfg, Some(b(0)), &d, 10);
    assert!(!matches!(gs.gate(gs.node_of(v(9)).unwrap()), GateNode::Eta { .. }));
    assert!(!matches!(gs.gate(gs.node_of(v(4)).unwrap()), GateNode::Mu { .. }));
}

#[test]
fn region_blocks_walk_depth_first_into_nested_regions() {
    // Block 0 holds an op with a region entered at block 2 and branches to 1.
    let mut holder = op(0, &[], &[]);
    holder.region_entries = vec![Some(b(2)), None];
    let cfg = Cfg {
        blocks: vec![
            block(&[], vec![holder, br(1, 1, &[])]),
            block(&[], vec![exit(2, &[])]),
            block(&[], vec![exit(3, &[])]),
            block(&[], vec![exit(4, &[])]),
        ],
    };
    // The last block pushed is visited first; block 3 is unreachable.
    assert_eq!(region_blocks(&cfg, Some(b(0))), vec![b(0), b(1), b(2)]);
    assert_eq!(region_blocks(&cfg, None), vec![]);
    assert_eq!(region_blocks(&cfg, Some(b(9))), vec![]);
}

#[test]
fn predecessor_map_lists_edges_in_block_order() {
    let cfg = Cfg {
        blocks: vec![
            block(&[0], vec![cond_br(0, 0, 1, 2)]),
            block(&[], vec![br(1, 3, &[2])]),
            block(&[], vec![br(2, 3, &[3])]),
            block(&[1], vec![exit(3, &[1])]),
        ],
    };
    let blocks = region_blocks(&cfg, Some(b(0)));
    assert_eq!(blocks, vec![b(0), b(2), b(3), b(1)]);
    let preds = predecessor_map(&cfg, &blocks);
    assert_eq!(preds.len(), 4);
    assert!(preds[0].is_empty());
    assert_eq!(preds[1].len(), 1);
    assert_eq!(preds[1][0].pred, b(0));
    let merge: Vec<(BlockId, Vec<ValueId>)> = preds[3].iter().map(|e| (e.pred, e.args.clone())).collect();
    assert_eq!(merge, vec![(b(2), vec![v(3)]), (b(1), vec![v(2)])]);
}

#[test]
fn dominance_follows_the_idom_chain() {
    let d = dom(&[None, Some(0), Some(1), Some(1)]);
    assert!(d.dominates(b(0), b(2)));
    assert!(d.dominates(b(2), b(2)));
    assert!(!d.dominates(b(2), b(3)));
    assert!(!d.dominates(b(3), b(0)));
    assert_eq!(d.idom(b(3)), Some(b(1)));
    assert_eq!(d.idom(b(7)), None);
}

#[test]
fn values_outside_the_region_are_inputs_or_their_operations() {
    // Block 1 is unreachable, but its constant still defines %1.
    let cfg = Cfg {
        blocks: vec![
            block(&[], vec![op(0, &[1], &[0]), exit(1, &[0])]),
            block(&[], vec![op(2, &[], &[1]), exit(3, &[])]),
        ],
    };
    let d = dom(&[None, None]);
    let gs = GSA::new(&cfg, Some(b(0)), &d, 3);
    let n0 = gs.node_of(v(0)).unwrap();
    assert_eq!(*gs.gate(n0), GateNode::Op(OpId(0)));
    let k = kids(&gs, n0);
    assert_eq!(gs.op_of(k[0]), Some(OpId(2)));
    // %2 is named nowhere in the region: it has no node.
    assert_eq!(gs.node_of(v(2)), None);
    assert_eq!(gs.inputs_of(v(0)), None);
    assert_eq!(gs.value_of(n0), None);
    assert_eq!(gs.len(), 2);
}
