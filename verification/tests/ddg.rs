use tir::ddg::{build, sched_key, DepKind, InstrRegs, RegKey};
use tir::ids::OpId;

fn phys(index: u16) -> RegKey {
    RegKey::Physical { class: "GPR".to_string(), index }
}

fn instr(op: u32, uses: Vec<RegKey>, defs: Vec<RegKey>) -> InstrRegs {
    InstrRegs { op: OpId(op), uses, defs }
}

#[test]
fn dep_kind_names() {
    assert_eq!(DepKind::Raw.as_str(), "raw");
    assert_eq!(DepKind::War.as_str(), "war");
    assert_eq!(DepKind::Waw.as_str(), "waw");
}

#[test]
fn sched_key_strips_dialect_prefix() {
    assert_eq!(sched_key("riscv.add"), "add");
    assert_eq!(sched_key("add"), "add");
    assert_eq!(sched_key("a.b.c"), "c");
    assert_eq!(sched_key("x."), "");
    assert_eq!(sched_key(""), "");
}

#[test]
fn raw_war_and_waw_edges() {
    // 0: x1 = ...       (def x1)
    // 1: x2 = x1 + x1   (use x1 twice, def x2)
    // 2: x1 = x2        (use x2, def x1)
    let ops = vec![
        instr(10, vec![], vec![phys(1)]),
        instr(11, vec![phys(1), phys(1)], vec![phys(2)]),
        instr(12, vec![phys(2)], vec![phys(1)]),
    ];
    let latencies = vec![3, 5, 1];
    let g = build(&ops, Some(&latencies));
    assert_eq!(g.len(), 3);
    assert!(!g.is_empty());
    assert_eq!(g.op(2), OpId(12));
    let edges: Vec<(usize, usize, DepKind, u16)> =
        g.edges().iter().map(|e| (e.from, e.on, e.kind, e.latency)).collect();
    assert_eq!(
        edges,
        vec![
            (1, 0, DepKind::Raw, 3),
            (2, 1, DepKind::Raw, 5),
            (2, 0, DepKind::Waw, 0),
            (2, 1, DepKind::War, 0),
        ]
    );
    let deps: Vec<usize> = g.deps(2).iter().map(|e| e.on).collect();
    assert_eq!(deps, vec![1, 0, 1]);
    assert!(g.deps(0).is_empty());
}

#[test]
fn reads_of_own_write_and_virtual_keys() {
    // An instruction that reads and writes the same register depends on no
    // one but the earlier writer; a later reader depends on it.
    let ops = vec![
        instr(0, vec![RegKey::Virtual(7)], vec![RegKey::Virtual(7)]),
        instr(1, vec![RegKey::Virtual(7)], vec![]),
        instr(2, vec![], vec![RegKey::Virtual(7)]),
    ];
    let g = build(&ops, Some(&vec![2, 2, 2]));
    let edges: Vec<(usize, usize, DepKind)> = g.edges().iter().map(|e| (e.from, e.on, e.kind)).collect();
    assert_eq!(edges, vec![(1, 0, DepKind::Raw), (2, 0, DepKind::Waw), (2, 1, DepKind::War)]);
    assert!(g.edges().iter().all(|e| e.on < e.from));
}

#[test]
fn empty_block_has_no_edges() {
    let g = build(&vec![], None);
    assert!(g.is_empty());
    assert!(g.edges().is_empty());
}

#[test]
fn without_a_model_every_producer_takes_one_cycle() {
    let ops = vec![
        instr(0, vec![], vec![phys(1)]),
        instr(1, vec![phys(1)], vec![phys(2)]),
        instr(2, vec![phys(2)], vec![]),
    ];
    let g = build(&ops, None);
    let edges: Vec<(usize, usize, DepKind, u16)> =
        g.edges().iter().map(|e| (e.from, e.on, e.kind, e.latency)).collect();
    assert_eq!(edges, vec![(1, 0, DepKind::Raw, 1), (2, 1, DepKind::Raw, 1)]);
}
