//! Building gated SSA from a control-flow graph: which block arguments are
//! merges, which values structured control flow gates, which operation
//! defines each value, and from those, what produces each value.
//!
//! The tables are indexed by value number. Where two entries name the same
//! value, the later one wins.
use vstd::prelude::*;

use crate::ids::{copy_vec, BlockId, OpId, ValueId};
use crate::gated_ssa::{
    any_back_edge, block_branch, build, edge_views, gate_value, gates_name_their_values, gamma_inputs, plan_gate, predecessor_map, preds_of,
    producers_closed, pviews, region_blocks, spec_gamma_gate, spec_gamma_inputs, spec_incoming, spec_mu_gate, spec_plan_gate,
    spec_region_blocks, Cfg, CfgOp, ConditionalInfo, DominatorTree, Edge, GateNode, LoopInfo,
    Producer, ProducerView, Structured, GSA,
};

verus! {

/// `table` with entry `v` set to `x`, when `v` is in range.
pub open spec fn set_entry<A>(table: Seq<Option<A>>, v: ValueId, x: A) -> Seq<Option<A>> {
    if v.0 < table.len() {
        table.update(v.0 as int, Some(x))
    } else {
        table
    }
}

/// A table of `count` empty entries.
pub open spec fn empty_table<A>(count: nat) -> Seq<Option<A>> {
    Seq::new(count, |w: int| None::<A>)
}

fn none_table<A>(count: usize) -> (r: Vec<Option<A>>)
    ensures
        r@ == empty_table::<A>(count as nat),
{
    let mut t: Vec<Option<A>> = Vec::new();
    let mut k: usize = 0;
    while k < count
        invariant
            k <= count,
            t@ == empty_table::<A>(k as nat),
        decreases count - k,
    {
        t.push(None);
        k = k + 1;
        assert(t@ =~= empty_table::<A>(k as nat));
    }
    t
}

fn set_in<A>(table: &mut Vec<Option<A>>, v: ValueId, x: A)
    ensures
        final(table)@ == set_entry(old(table)@, v, x),
{
    if (v.0 as usize) < table.len() {
        table.set(v.0 as usize, Some(x));
    }
}

/// The arguments of block `b` (none for a block that does not exist).
pub open spec fn block_args(cfg: &Cfg, b: BlockId) -> Seq<ValueId> {
    if b.0 < cfg.blocks@.len() {
        cfg.blocks@[b.0 as int].arguments@
    } else {
        Seq::empty()
    }
}

/// The operations of block `b`, in order (none for a block that does not
/// exist).
pub open spec fn block_ops(cfg: &Cfg, b: BlockId) -> Seq<CfgOp> {
    if b.0 < cfg.blocks@.len() {
        cfg.blocks@[b.0 as int].ops@
    } else {
        Seq::empty()
    }
}

/// The operations of `blocks`, block by block.
pub open spec fn ops_in(cfg: &Cfg, blocks: Seq<BlockId>) -> Seq<CfgOp>
    decreases blocks.len(),
{
    if blocks.len() == 0 {
        Seq::empty()
    } else {
        ops_in(cfg, blocks.drop_last()) + block_ops(cfg, blocks.last())
    }
}

/// Every operation of the graph, in block-number order.
pub open spec fn all_ops(cfg: &Cfg, n: int) -> Seq<CfgOp>
    decreases n,
{
    if n <= 0 {
        Seq::empty()
    } else {
        all_ops(cfg, n - 1) + cfg.blocks@[n - 1].ops@
    }
}

// ---------------------------------------------------------------- merges

/// `table` with each of `args` recorded as argument `i` of `b`.
pub open spec fn mark_args(table: Seq<Option<(BlockId, usize)>>, args: Seq<ValueId>, b: BlockId) -> Seq<Option<(BlockId, usize)>>
    decreases args.len(),
{
    if args.len() == 0 {
        table
    } else {
        set_entry(mark_args(table, args.drop_last(), b), args.last(), (b, (args.len() - 1) as usize))
    }
}

/// Whether block `b` has incoming branch edges from the blocks in `all`.
pub open spec fn has_preds(cfg: &Cfg, all: Seq<BlockId>, b: BlockId) -> bool {
    b.0 < cfg.blocks@.len() && preds_of(cfg, all, b.0 as int).len() > 0
}

/// The merges among the arguments of `blocks`: every argument of a block
/// with incoming branch edges (from `all`), with its block and position.
pub open spec fn phi_table(cfg: &Cfg, all: Seq<BlockId>, blocks: Seq<BlockId>, count: nat) -> Seq<Option<(BlockId, usize)>>
    decreases blocks.len(),
{
    if blocks.len() == 0 {
        empty_table(count)
    } else {
        let t = phi_table(cfg, all, blocks.drop_last(), count);
        let b = blocks.last();
        if has_preds(cfg, all, b) {
            mark_args(t, block_args(cfg, b), b)
        } else {
            t
        }
    }
}

fn mark_args_exec(table: &mut Vec<Option<(BlockId, usize)>>, args: &Vec<ValueId>, b: BlockId)
    ensures
        final(table)@ == mark_args(old(table)@, args@, b),
{
    let ghost start = table@;
    let mut k: usize = 0;
    while k < args.len()
        invariant
            k <= args@.len(),
            table@ == mark_args(start, args@.subrange(0, k as int), b),
        decreases args.len() - k,
    {
        proof {
            assert(args@.subrange(0, k + 1).drop_last() =~= args@.subrange(0, k as int));
        }
        set_in(table, args[k], (b, k));
        k = k + 1;
    }
    assert(args@.subrange(0, args@.len() as int) =~= args@);
}

/// The merges among the arguments of `blocks`, given each block's incoming
/// edges.
pub fn collect_phis(cfg: &Cfg, blocks: &Vec<BlockId>, preds: &Vec<Vec<Edge>>, count: usize) -> (r: Vec<Option<(BlockId, usize)>>)
    requires
        preds@.len() == cfg.blocks@.len(),
        forall|t: int| 0 <= t < preds@.len() ==> edge_views((#[trigger] preds@[t])@) == preds_of(cfg, blocks@, t),
    ensures
        r@ == phi_table(cfg, blocks@, blocks@, count as nat),
{
    let mut table: Vec<Option<(BlockId, usize)>> = none_table(count);
    let mut i: usize = 0;
    while i < blocks.len()
        invariant
            i <= blocks@.len(),
            preds@.len() == cfg.blocks@.len(),
            forall|t: int| 0 <= t < preds@.len() ==> edge_views((#[trigger] preds@[t])@) == preds_of(cfg, blocks@, t),
            table@ == phi_table(cfg, blocks@, blocks@.subrange(0, i as int), count as nat),
        decreases blocks.len() - i,
    {
        proof {
            assert(blocks@.subrange(0, i + 1).drop_last() =~= blocks@.subrange(0, i as int));
        }
        let b = blocks[i];
        if (b.0 as usize) < preds.len() && preds[b.0 as usize].len() > 0 {
            proof {
                assert(edge_views(preds@[b.0 as int]@).len() == preds@[b.0 as int]@.len());
            }
            mark_args_exec(&mut table, &cfg.blocks[b.0 as usize].arguments, b);
        } else {
            proof {
                if (b.0 as int) < preds@.len() {
                    assert(edge_views(preds@[b.0 as int]@).len() == preds@[b.0 as int]@.len());
                }
            }
        }
        i = i + 1;
    }
    assert(blocks@.subrange(0, blocks@.len() as int) =~= blocks@);
    table
}

// ------------------------------------------------------- structured gates

/// The gates structured control flow introduces, by value number: γ inputs
/// `(cond, true, false)` of a conditional's results, μ inputs `(init,
/// latch)` of a loop's carried values, and the carried value behind each
/// loop result (its η input).
pub struct StructuredGates {
    pub gamma: Vec<Option<(ValueId, ValueId, ValueId)>>,
    pub mu: Vec<Option<(ValueId, ValueId)>>,
    pub loop_result: Vec<Option<ValueId>>,
}

/// Structured gates as mathematical values.
pub struct GatesView {
    pub gamma: Seq<Option<(ValueId, ValueId, ValueId)>>,
    pub mu: Seq<Option<(ValueId, ValueId)>>,
    pub loop_result: Seq<Option<ValueId>>,
}

impl StructuredGates {
    pub open spec fn view_of(&self) -> GatesView {
        GatesView { gamma: self.gamma@, mu: self.mu@, loop_result: self.loop_result@ }
    }
}

/// No gates yet, for `count` values.
pub open spec fn no_gates(count: nat) -> GatesView {
    GatesView { gamma: empty_table(count), mu: empty_table(count), loop_result: empty_table(count) }
}

/// The γ entries of a conditional's first `results.len()` results.
pub open spec fn cond_gates(table: Seq<Option<(ValueId, ValueId, ValueId)>>, guard: ConditionalInfo, results: Seq<ValueId>) -> Seq<Option<(ValueId, ValueId, ValueId)>>
    decreases results.len(),
{
    if results.len() == 0 {
        table
    } else {
        let t = cond_gates(table, guard, results.drop_last());
        match spec_gamma_inputs(&guard, (results.len() - 1) as usize) {
            Some(ins) => set_entry(t, results.last(), ins),
            None => t,
        }
    }
}

/// The μ and η entries of a loop's first `results.len()` ports.
pub open spec fn loop_gates(g: GatesView, lp: LoopInfo, results: Seq<ValueId>) -> GatesView
    decreases results.len(),
{
    if results.len() == 0 {
        g
    } else {
        let t = loop_gates(g, lp, results.drop_last());
        let port = results.len() - 1;
        let carried = lp.carried@[port];
        GatesView {
            gamma: t.gamma,
            mu: set_entry(t.mu, carried, (lp.inits@[port], lp.latched@[port])),
            loop_result: set_entry(t.loop_result, results.last(), carried),
        }
    }
}

/// The gates one operation adds: a conditional producing values gates each
/// result it has γ inputs for; a loop producing values (that its body cannot
/// leave early) gates each carried value with a μ and each result with an η.
pub open spec fn op_gates(g: GatesView, op: CfgOp) -> GatesView {
    if op.results@.len() == 0 {
        g
    } else {
        match op.structured {
            Structured::Conditional(guard) => GatesView {
                gamma: cond_gates(g.gamma, guard, op.results@),
                mu: g.mu,
                loop_result: g.loop_result,
            },
            Structured::Loop(lp) => if lp.leaves_early {
                g
            } else {
                loop_gates(g, lp, op.results@)
            },
            Structured::Plain => g,
        }
    }
}

/// The gates of `ops`, in order.
pub open spec fn gates_over(g: GatesView, ops: Seq<CfgOp>) -> GatesView
    decreases ops.len(),
{
    if ops.len() == 0 {
        g
    } else {
        op_gates(gates_over(g, ops.drop_last()), ops.last())
    }
}

/// A loop's port lists cover its results (its ports match its results).
pub open spec fn ports_cover(op: CfgOp) -> bool {
    match op.structured {
        Structured::Loop(lp) => lp.leaves_early || (
            op.results@.len() <= lp.carried@.len()
            && op.results@.len() <= lp.inits@.len()
            && op.results@.len() <= lp.latched@.len()),
        _ => true,
    }
}

/// Every operation of `blocks` is a loop whose ports cover its results, or
/// no loop.
pub open spec fn loops_cover(cfg: &Cfg, blocks: Seq<BlockId>) -> bool {
    forall|k: int| 0 <= k < ops_in(cfg, blocks).len() ==> ports_cover(#[trigger] ops_in(cfg, blocks)[k])
}

proof fn lemma_ops_in_prefix(cfg: &Cfg, blocks: Seq<BlockId>, i: int)
    requires
        0 <= i <= blocks.len(),
    ensures
        ops_in(cfg, blocks.subrange(0, i)).len() <= ops_in(cfg, blocks).len(),
        forall|k: int| 0 <= k < ops_in(cfg, blocks.subrange(0, i)).len() ==> ops_in(cfg, blocks.subrange(0, i))[k] == ops_in(cfg, blocks)[k],
    decreases blocks.len() - i,
{
    if i < blocks.len() {
        lemma_ops_in_prefix(cfg, blocks, i + 1);
        assert(blocks.subrange(0, i + 1).drop_last() =~= blocks.subrange(0, i));
    } else {
        assert(blocks.subrange(0, i) =~= blocks);
    }
}

fn add_cond_gates(g: &mut StructuredGates, guard: &ConditionalInfo, results: &Vec<ValueId>)
    ensures
        final(g).view_of() == (GatesView { gamma: cond_gates(old(g).view_of().gamma, *guard, results@), ..old(g).view_of() }),
{
    let ghost start = g.gamma@;
    let mut k: usize = 0;
    while k < results.len()
        invariant
            k <= results@.len(),
            g.gamma@ == cond_gates(start, *guard, results@.subrange(0, k as int)),
            g.mu@ == old(g).mu@,
            g.loop_result@ == old(g).loop_result@,
        decreases results.len() - k,
    {
        proof {
            assert(results@.subrange(0, k + 1).drop_last() =~= results@.subrange(0, k as int));
        }
        match gamma_inputs(guard, k) {
            Some(ins) => set_in(&mut g.gamma, results[k], ins),
            None => {},
        }
        k = k + 1;
    }
    assert(results@.subrange(0, results@.len() as int) =~= results@);
}

fn add_loop_gates(g: &mut StructuredGates, lp: &LoopInfo, results: &Vec<ValueId>)
    requires
        results@.len() <= lp.carried@.len(),
        results@.len() <= lp.inits@.len(),
        results@.len() <= lp.latched@.len(),
    ensures
        final(g).view_of() == loop_gates(old(g).view_of(), *lp, results@),
{
    let ghost start = g.view_of();
    let mut k: usize = 0;
    while k < results.len()
        invariant
            k <= results@.len(),
            results@.len() <= lp.carried@.len(),
            results@.len() <= lp.inits@.len(),
            results@.len() <= lp.latched@.len(),
            g.view_of() == loop_gates(start, *lp, results@.subrange(0, k as int)),
        decreases results.len() - k,
    {
        proof {
            assert(results@.subrange(0, k + 1).drop_last() =~= results@.subrange(0, k as int));
        }
        let carried = lp.carried[k];
        set_in(&mut g.mu, carried, (lp.inits[k], lp.latched[k]));
        set_in(&mut g.loop_result, results[k], carried);
        k = k + 1;
    }
    assert(results@.subrange(0, results@.len() as int) =~= results@);
}

/// The gates structured control flow introduces among the operations of
/// `blocks`, for values numbered below `count`.
pub fn structured_gates(cfg: &Cfg, blocks: &Vec<BlockId>, count: usize) -> (r: StructuredGates)
    requires
        loops_cover(cfg, blocks@),
    ensures
        r.view_of() == gates_over(no_gates(count as nat), ops_in(cfg, blocks@)),
{
    let mut g = StructuredGates { gamma: none_table(count), mu: none_table(count), loop_result: none_table(count) };
    let mut i: usize = 0;
    while i < blocks.len()
        invariant
            i <= blocks@.len(),
            loops_cover(cfg, blocks@),
            g.view_of() == gates_over(no_gates(count as nat), ops_in(cfg, blocks@.subrange(0, i as int))),
        decreases blocks.len() - i,
    {
        proof {
            assert(blocks@.subrange(0, i + 1).drop_last() =~= blocks@.subrange(0, i as int));
            lemma_ops_in_prefix(cfg, blocks@, i + 1);
        }
        let b = blocks[i];
        let ghost prefix = ops_in(cfg, blocks@.subrange(0, i as int));
        if (b.0 as usize) < cfg.blocks.len() {
            let ops = &cfg.blocks[b.0 as usize].ops;
            let mut j: usize = 0;
            while j < ops.len()
                invariant
                    j <= ops@.len(),
                    ops@ == block_ops(cfg, b),
                    prefix + ops@ == ops_in(cfg, blocks@.subrange(0, i + 1)),
                    ops_in(cfg, blocks@.subrange(0, i + 1)).len() <= ops_in(cfg, blocks@).len(),
                    forall|k: int| 0 <= k < ops_in(cfg, blocks@.subrange(0, i + 1)).len() ==> ops_in(cfg, blocks@.subrange(0, i + 1))[k] == ops_in(cfg, blocks@)[k],
                    loops_cover(cfg, blocks@),
                    g.view_of() == gates_over(no_gates(count as nat), prefix + ops@.subrange(0, j as int)),
                decreases ops.len() - j,
            {
                proof {
                    assert((prefix + ops@.subrange(0, j + 1)).drop_last() =~= prefix + ops@.subrange(0, j as int));
                    let k = prefix.len() + j;
                    assert((prefix + ops@)[k] == ops@[j as int]);
                    assert(ports_cover(ops_in(cfg, blocks@)[k]));
                }
                let op = &ops[j];
                if op.results.len() > 0 {
                    match &op.structured {
                        Structured::Conditional(guard) => add_cond_gates(&mut g, guard, &op.results),
                        Structured::Loop(lp) => {
                            if !lp.leaves_early {
                                add_loop_gates(&mut g, lp, &op.results);
                            }
                        },
                        Structured::Plain => {},
                    }
                }
                j = j + 1;
            }
            proof {
                assert(ops@.subrange(0, ops@.len() as int) =~= ops@);
            }
        } else {
            proof {
                assert(ops_in(cfg, blocks@.subrange(0, i + 1)) =~= prefix);
            }
        }
        i = i + 1;
    }
    assert(blocks@.subrange(0, blocks@.len() as int) =~= blocks@);
    g
}

// ------------------------------------------------------------ definitions

/// `table` with each of `results` recorded as defined by `op`.
pub open spec fn mark_results(table: Seq<Option<(OpId, Seq<ValueId>)>>, op: CfgOp, results: Seq<ValueId>) -> Seq<Option<(OpId, Seq<ValueId>)>>
    decreases results.len(),
{
    if results.len() == 0 {
        table
    } else {
        set_entry(mark_results(table, op, results.drop_last()), results.last(), (op.id, op.operands@))
    }
}

/// The operation defining each value among the results of `ops`, with its
/// operands.
pub open spec fn def_table(ops: Seq<CfgOp>, count: nat) -> Seq<Option<(OpId, Seq<ValueId>)>>
    decreases ops.len(),
{
    if ops.len() == 0 {
        empty_table(count)
    } else {
        mark_results(def_table(ops.drop_last(), count), ops.last(), ops.last().results@)
    }
}

proof fn lemma_def_table_len(ops: Seq<CfgOp>, count: nat)
    ensures
        def_table(ops, count).len() == count,
        forall|t: Seq<Option<(OpId, Seq<ValueId>)>>, op: CfgOp, rs: Seq<ValueId>| #[trigger] mark_results(t, op, rs).len() == t.len(),
    decreases ops.len(),
{
    assert forall|t: Seq<Option<(OpId, Seq<ValueId>)>>, op: CfgOp, rs: Seq<ValueId>| #[trigger] mark_results(t, op, rs).len() == t.len() by {
        lemma_mark_results_len(t, op, rs);
    }
    if ops.len() > 0 {
        lemma_def_table_len(ops.drop_last(), count);
    }
}

proof fn lemma_mark_results_len(t: Seq<Option<(OpId, Seq<ValueId>)>>, op: CfgOp, rs: Seq<ValueId>)
    ensures
        mark_results(t, op, rs).len() == t.len(),
    decreases rs.len(),
{
    if rs.len() > 0 {
        lemma_mark_results_len(t, op, rs.drop_last());
    }
}

/// The operation defining each value numbered below `count`, anywhere in
/// the graph, with its operands.
pub fn defining_ops(cfg: &Cfg, count: usize) -> (r: Vec<Option<(OpId, Vec<ValueId>)>>)
    ensures
        r@.len() == count,
        forall|w: int| 0 <= w < count ==> match (#[trigger] r@[w]) {
            Some((op, operands)) => def_table(all_ops(cfg, cfg.blocks@.len() as int), count as nat)[w] == Some((op, operands@)),
            None => def_table(all_ops(cfg, cfg.blocks@.len() as int), count as nat)[w] is None,
        },
{
    let mut table: Vec<Option<(OpId, Vec<ValueId>)>> = none_table(count);
    let mut n: usize = 0;
    while n < cfg.blocks.len()
        invariant
            n <= cfg.blocks@.len(),
            table@.len() == count,
            forall|w: int| 0 <= w < count ==> match (#[trigger] table@[w]) {
                Some((op, operands)) => def_table(all_ops(cfg, n as int), count as nat)[w] == Some((op, operands@)),
                None => def_table(all_ops(cfg, n as int), count as nat)[w] is None,
            },
        decreases cfg.blocks.len() - n,
    {
        let ops = &cfg.blocks[n].ops;
        let ghost prefix = all_ops(cfg, n as int);
        let mut j: usize = 0;
        while j < ops.len()
            invariant
                j <= ops@.len(),
                n < cfg.blocks@.len(),
                ops@ == cfg.blocks@[n as int].ops@,
                prefix == all_ops(cfg, n as int),
                table@.len() == count,
                forall|w: int| 0 <= w < count ==> match (#[trigger] table@[w]) {
                    Some((op, operands)) => def_table(prefix + ops@.subrange(0, j as int), count as nat)[w] == Some((op, operands@)),
                    None => def_table(prefix + ops@.subrange(0, j as int), count as nat)[w] is None,
                },
            decreases ops.len() - j,
        {
            proof {
                assert((prefix + ops@.subrange(0, j + 1)).drop_last() =~= prefix + ops@.subrange(0, j as int));
                assert((prefix + ops@.subrange(0, j + 1)).last() == ops@[j as int]);
            }
            let op = &ops[j];
            let ghost before = def_table(prefix + ops@.subrange(0, j as int), count as nat);
            proof {
                lemma_def_table_len(prefix + ops@.subrange(0, j as int), count as nat);
            }
            let mut k: usize = 0;
            while k < op.results.len()
                invariant
                    k <= op.results@.len(),
                    table@.len() == count,
                    forall|w: int| 0 <= w < count ==> match (#[trigger] table@[w]) {
                        Some((o, operands)) => mark_results(before, *op, op.results@.subrange(0, k as int))[w] == Some((o, operands@)),
                        None => mark_results(before, *op, op.results@.subrange(0, k as int))[w] is None,
                    },
                    before.len() == count,
                decreases op.results.len() - k,
            {
                proof {
                    assert(op.results@.subrange(0, k + 1).drop_last() =~= op.results@.subrange(0, k as int));
                }
                let v = op.results[k];
                if (v.0 as usize) < table.len() {
                    table.set(v.0 as usize, Some((op.id, copy_vec(&op.operands))));
                }
                proof {
                    lemma_mark_results_len(before, *op, op.results@.subrange(0, k as int));
                }
                k = k + 1;
            }
            proof {
                assert(op.results@.subrange(0, op.results@.len() as int) =~= op.results@);
            }
            j = j + 1;
        }
        proof {
            assert(ops@.subrange(0, ops@.len() as int) =~= ops@);
        }
        n = n + 1;
    }
    table
}

// ------------------------------------------------------------ value range

/// Every value in `vals` is numbered below `count`.
pub open spec fn below(vals: Seq<ValueId>, count: nat) -> bool {
    forall|i: int| 0 <= i < vals.len() ==> (#[trigger] vals[i]).0 < count
}

/// Every value operation `op` names is numbered below `count`.
pub open spec fn op_within(op: CfgOp, count: nat) -> bool {
    &&& below(op.operands@, count)
    &&& below(op.results@, count)
    &&& match op.branch {
        Some(br) => forall|k: int| 0 <= k < br@.len() ==> below((#[trigger] br@[k]).args@, count),
        None => true,
    }
    &&& match op.guarded {
        Some(gs) => forall|k: int| 0 <= k < gs@.len() ==> (#[trigger] gs@[k]).cond.0 < count,
        None => true,
    }
    &&& match op.structured {
        Structured::Conditional(c) => c.decision.0 < count
            && forall|k: int| 0 <= k < c.regions@.len() ==> below((#[trigger] c.regions@[k]).yields@, count),
        Structured::Loop(lp) => below(lp.carried@, count) && below(lp.inits@, count) && below(lp.latched@, count),
        Structured::Plain => true,
    }
}

/// Every value the graph names is numbered below `count`, and value numbers
/// below `count` fit a `u32`.
pub open spec fn values_within(cfg: &Cfg, count: nat) -> bool {
    &&& count <= u32::MAX + 1
    &&& forall|b: int| 0 <= b < cfg.blocks@.len() ==> below((#[trigger] cfg.blocks@[b]).arguments@, count)
    &&& forall|b: int, k: int| 0 <= b < cfg.blocks@.len() && 0 <= k < cfg.blocks@[b].ops@.len() ==> op_within(#[trigger] cfg.blocks@[b].ops@[k], count)
}

/// Every operation of `ops` names only values below `count`.
pub open spec fn ops_within(ops: Seq<CfgOp>, count: nat) -> bool {
    forall|k: int| 0 <= k < ops.len() ==> op_within(#[trigger] ops[k], count)
}

proof fn lemma_ops_in_within(cfg: &Cfg, blocks: Seq<BlockId>, count: nat)
    requires
        values_within(cfg, count),
    ensures
        ops_within(ops_in(cfg, blocks), count),
    decreases blocks.len(),
{
    if blocks.len() > 0 {
        lemma_ops_in_within(cfg, blocks.drop_last(), count);
        let pre = ops_in(cfg, blocks.drop_last());
        let b = blocks.last();
        assert forall|k: int| 0 <= k < ops_in(cfg, blocks).len() implies op_within(#[trigger] ops_in(cfg, blocks)[k], count) by {
            if k >= pre.len() {
                assert(ops_in(cfg, blocks)[k] == block_ops(cfg, b)[k - pre.len()]);
                assert(op_within(cfg.blocks@[b.0 as int].ops@[k - pre.len()], count));
            } else {
                assert(ops_in(cfg, blocks)[k] == pre[k]);
            }
        }
    }
}

proof fn lemma_all_ops_within(cfg: &Cfg, n: int, count: nat)
    requires
        values_within(cfg, count),
        n <= cfg.blocks@.len(),
    ensures
        ops_within(all_ops(cfg, n), count),
    decreases n,
{
    if n > 0 {
        lemma_all_ops_within(cfg, n - 1, count);
        let pre = all_ops(cfg, n - 1);
        assert forall|k: int| 0 <= k < all_ops(cfg, n).len() implies op_within(#[trigger] all_ops(cfg, n)[k], count) by {
            if k >= pre.len() {
                assert(all_ops(cfg, n)[k] == cfg.blocks@[n - 1].ops@[k - pre.len()]);
                assert(op_within(cfg.blocks@[n - 1].ops@[k - pre.len()], count));
            } else {
                assert(all_ops(cfg, n)[k] == pre[k]);
            }
        }
    }
}

/// Every operand list recorded in a definitions table is below `count`.
pub open spec fn defs_below(t: Seq<Option<(OpId, Seq<ValueId>)>>, count: nat) -> bool {
    forall|w: int| 0 <= w < t.len() && (#[trigger] t[w]) is Some ==> below((t[w]->0).1, count)
}

proof fn lemma_mark_results_below(t: Seq<Option<(OpId, Seq<ValueId>)>>, op: CfgOp, rs: Seq<ValueId>, count: nat)
    requires
        defs_below(t, count),
        below(op.operands@, count),
    ensures
        defs_below(mark_results(t, op, rs), count),
    decreases rs.len(),
{
    if rs.len() > 0 {
        lemma_mark_results_below(t, op, rs.drop_last(), count);
    }
}

proof fn lemma_def_table_below(ops: Seq<CfgOp>, count: nat)
    requires
        ops_within(ops, count),
    ensures
        defs_below(def_table(ops, count), count),
    decreases ops.len(),
{
    if ops.len() > 0 {
        assert(ops_within(ops.drop_last(), count)) by {
            assert forall|k: int| 0 <= k < ops.drop_last().len() implies op_within(#[trigger] ops.drop_last()[k], count) by {
                assert(op_within(ops[k], count));
            }
        }
        lemma_def_table_below(ops.drop_last(), count);
        assert(op_within(ops[ops.len() - 1], count));
        lemma_mark_results_below(def_table(ops.drop_last(), count), ops.last(), ops.last().results@, count);
    }
}

/// Every entry of the structured-gate tables names values below `count`.
pub open spec fn gates_below(g: GatesView, count: nat) -> bool {
    &&& forall|w: int| 0 <= w < g.gamma.len() && (#[trigger] g.gamma[w]) is Some ==> {
        let (c, t, f) = g.gamma[w]->0;
        c.0 < count && t.0 < count && f.0 < count
    }
    &&& forall|w: int| 0 <= w < g.mu.len() && (#[trigger] g.mu[w]) is Some ==> {
        let (i, l) = g.mu[w]->0;
        i.0 < count && l.0 < count
    }
    &&& forall|w: int| 0 <= w < g.loop_result.len() && (#[trigger] g.loop_result[w]) is Some ==> (g.loop_result[w]->0).0 < count
}

proof fn lemma_gamma_yields_below(regions: Seq<crate::gated_ssa::GuardedRegion>, index: usize, count: nat)
    requires
        forall|k: int| 0 <= k < regions.len() ==> below((#[trigger] regions[k]).yields@, count),
    ensures
        crate::gated_ssa::gamma_yields(regions, index) matches Some((t, f)) ==> (t matches Some(x) ==> x.0 < count) && (f matches Some(y) ==> y.0 < count),
    decreases regions.len(),
{
    if regions.len() > 0 {
        lemma_gamma_yields_below(regions.drop_last(), index, count);
        let r = regions.last();
        assert(below(regions[regions.len() - 1].yields@, count));
    }
}

proof fn lemma_cond_gates_below(table: Seq<Option<(ValueId, ValueId, ValueId)>>, guard: ConditionalInfo, rs: Seq<ValueId>, count: nat)
    requires
        gates_below(GatesView { gamma: table, mu: Seq::empty(), loop_result: Seq::empty() }, count),
        guard.decision.0 < count,
        forall|k: int| 0 <= k < guard.regions@.len() ==> below((#[trigger] guard.regions@[k]).yields@, count),
    ensures
        gates_below(GatesView { gamma: cond_gates(table, guard, rs), mu: Seq::empty(), loop_result: Seq::empty() }, count),
    decreases rs.len(),
{
    if rs.len() > 0 {
        lemma_cond_gates_below(table, guard, rs.drop_last(), count);
        lemma_gamma_yields_below(guard.regions@, (rs.len() - 1) as usize, count);
    }
}

proof fn lemma_loop_gates_below(g: GatesView, lp: LoopInfo, rs: Seq<ValueId>, count: nat)
    requires
        gates_below(g, count),
        below(lp.carried@, count),
        below(lp.inits@, count),
        below(lp.latched@, count),
        rs.len() <= lp.carried@.len(),
        rs.len() <= lp.inits@.len(),
        rs.len() <= lp.latched@.len(),
    ensures
        gates_below(loop_gates(g, lp, rs), count),
    decreases rs.len(),
{
    if rs.len() > 0 {
        lemma_loop_gates_below(g, lp, rs.drop_last(), count);
        let port = rs.len() - 1;
        assert(lp.carried@[port].0 < count);
        assert(lp.inits@[port].0 < count);
        assert(lp.latched@[port].0 < count);
    }
}

proof fn lemma_gates_over_below(g: GatesView, ops: Seq<CfgOp>, count: nat)
    requires
        gates_below(g, count),
        ops_within(ops, count),
        forall|k: int| 0 <= k < ops.len() ==> ports_cover(#[trigger] ops[k]),
    ensures
        gates_below(gates_over(g, ops), count),
    decreases ops.len(),
{
    if ops.len() > 0 {
        assert forall|k: int| 0 <= k < ops.drop_last().len() implies op_within(#[trigger] ops.drop_last()[k], count) && ports_cover(ops.drop_last()[k]) by {
            assert(op_within(ops[k], count));
            assert(ports_cover(ops[k]));
        }
        lemma_gates_over_below(g, ops.drop_last(), count);
        let h = gates_over(g, ops.drop_last());
        let op = ops.last();
        assert(op_within(ops[ops.len() - 1], count));
        assert(ports_cover(ops[ops.len() - 1]));
        if op.results@.len() > 0 {
            match op.structured {
                Structured::Conditional(guard) => {
                    lemma_cond_gates_below(h.gamma, guard, op.results@, count);
                },
                Structured::Loop(lp) => {
                    if !lp.leaves_early {
                        lemma_loop_gates_below(h, lp, op.results@, count);
                    }
                },
                Structured::Plain => {},
            }
        }
    }
}

/// Every edge forwards only values below `count`.
pub open spec fn edges_below(edges: Seq<(BlockId, Seq<ValueId>)>, count: nat) -> bool {
    forall|k: int| 0 <= k < edges.len() ==> below((#[trigger] edges[k]).1, count)
}

/// Every incoming value is below `count`.
pub open spec fn incoming_below(incoming: Seq<(BlockId, ValueId)>, count: nat) -> bool {
    forall|k: int| 0 <= k < incoming.len() ==> (#[trigger] incoming[k]).1.0 < count
}

proof fn lemma_edges_to_below(branch: Seq<crate::gated_ssa::SuccessorArgs>, pred: BlockId, to: int, count: nat)
    requires
        forall|k: int| 0 <= k < branch.len() ==> below((#[trigger] branch[k]).args@, count),
    ensures
        edges_below(crate::gated_ssa::edges_to(branch, pred, to), count),
    decreases branch.len(),
{
    if branch.len() > 0 {
        lemma_edges_to_below(branch.drop_last(), pred, to, count);
        assert(below(branch[branch.len() - 1].args@, count));
    }
}

proof fn lemma_preds_below(cfg: &Cfg, blocks: Seq<BlockId>, to: int, count: nat)
    requires
        values_within(cfg, count),
    ensures
        edges_below(preds_of(cfg, blocks, to), count),
    decreases blocks.len(),
{
    if blocks.len() > 0 {
        lemma_preds_below(cfg, blocks.drop_last(), to, count);
        let b = blocks.last();
        match block_branch(cfg, b) {
            Some(br) => {
                let ops = cfg.blocks@[b.0 as int].ops@;
                assert(op_within(cfg.blocks@[b.0 as int].ops@[ops.len() - 1], count));
                lemma_edges_to_below(br, b, to, count);
            },
            None => {},
        }
    }
}

proof fn lemma_incoming_below(edges: Seq<(BlockId, Seq<ValueId>)>, index: usize, count: nat)
    requires
        edges_below(edges, count),
    ensures
        incoming_below(crate::gated_ssa::spec_incoming(edges, index), count),
    decreases edges.len(),
{
    if edges.len() > 0 {
        lemma_incoming_below(edges.drop_last(), index, count);
        assert(below(edges[edges.len() - 1].1, count));
    }
}

proof fn lemma_mu_fold_below(idom: Seq<Option<BlockId>>, block: BlockId, incoming: Seq<(BlockId, ValueId)>, count: nat)
    requires
        incoming_below(incoming, count),
    ensures
        crate::gated_ssa::mu_fold(idom, block, incoming) matches Some((i, l)) ==> (i matches Some(x) ==> x.0 < count) && (l matches Some(y) ==> y.0 < count),
    decreases incoming.len(),
{
    if incoming.len() > 0 {
        lemma_mu_fold_below(idom, block, incoming.drop_last(), count);
        assert(incoming[incoming.len() - 1].1.0 < count);
    }
}

proof fn lemma_first_guard_below(idom: Seq<Option<BlockId>>, guards: Seq<crate::gated_ssa::Guarded>, pred: BlockId, count: nat)
    requires
        forall|k: int| 0 <= k < guards.len() ==> (#[trigger] guards[k]).cond.0 < count,
    ensures
        crate::gated_ssa::first_guard(idom, guards, pred) matches Some(g) ==> g.cond.0 < count,
    decreases guards.len(),
{
    if guards.len() > 0 {
        assert(guards[0].cond.0 < count);
        assert forall|k: int| 0 <= k < guards.drop_first().len() implies (#[trigger] guards.drop_first()[k]).cond.0 < count by {
            assert(guards[k + 1].cond.0 < count);
        }
        lemma_first_guard_below(idom, guards.drop_first(), pred, count);
    }
}

proof fn lemma_gamma_fold_below(idom: Seq<Option<BlockId>>, guards: Seq<crate::gated_ssa::Guarded>, incoming: Seq<(BlockId, ValueId)>, count: nat)
    requires
        incoming_below(incoming, count),
        forall|k: int| 0 <= k < guards.len() ==> (#[trigger] guards[k]).cond.0 < count,
    ensures
        ({
            let (c, t, f) = crate::gated_ssa::gamma_fold(idom, guards, incoming);
            &&& c matches Some(x) ==> x.0 < count
            &&& t matches Some(x) ==> x.0 < count
            &&& f matches Some(x) ==> x.0 < count
        }),
    decreases incoming.len(),
{
    if incoming.len() > 0 {
        lemma_gamma_fold_below(idom, guards, incoming.drop_last(), count);
        assert(incoming[incoming.len() - 1].1.0 < count);
        lemma_first_guard_below(idom, guards, incoming.last().0, count);
    }
}

proof fn lemma_plan_below(cfg: &Cfg, dom: &DominatorTree, edges: Seq<(BlockId, Seq<ValueId>)>, block: BlockId, index: usize, value: ValueId, count: nat)
    requires
        values_within(cfg, count),
        edges_below(edges, count),
    ensures
        below(spec_plan_gate(cfg, dom, edges, block, index, value).1, count),
{
    let incoming = crate::gated_ssa::spec_incoming(edges, index);
    lemma_incoming_below(edges, index, count);
    lemma_mu_fold_below(dom.idom@, block, incoming, count);
    match dom.spec_idom(block) {
        Some(d) => match crate::gated_ssa::terminator_guards(cfg, d) {
            Some(guards) => {
                let ops = cfg.blocks@[d.0 as int].ops@;
                assert(op_within(cfg.blocks@[d.0 as int].ops@[ops.len() - 1], count));
                lemma_gamma_fold_below(dom.idom@, guards, incoming, count);
            },
            None => {},
        },
        None => {},
    }
    let phi = incoming.map_values(|p: (BlockId, ValueId)| p.1);
    assert(below(phi, count)) by {
        assert forall|i: int| 0 <= i < phi.len() implies (#[trigger] phi[i]).0 < count by {
            assert(incoming[i].1.0 < count);
        }
    }
}

// ------------------------------------------------------------- producers

/// What produces value number `w` of a graph whose analysed blocks are
/// `blocks`: a merge of those blocks is what is planned for it; else a
/// structured γ, μ or η gate; else the operation defining it; else nothing
/// (an input).
pub open spec fn spec_producer(cfg: &Cfg, dom: &DominatorTree, blocks: Seq<BlockId>, count: nat, w: int) -> Option<ProducerView> {
    let value = ValueId(w as u32);
    let g = gates_over(no_gates(count), ops_in(cfg, blocks));
    match phi_table(cfg, blocks, blocks, count)[w] {
        Some((b, index)) => {
            let plan = spec_plan_gate(cfg, dom, preds_of(cfg, blocks, b.0 as int), b, index, value);
            Some(ProducerView::Gate(plan.0, plan.1))
        },
        None => match g.gamma[w] {
            Some((c, t, f)) => Some(ProducerView::Gate(GateNode::Gamma { value, cond: c }, seq![c, t, f])),
            None => match g.mu[w] {
                Some((init, latch)) => Some(ProducerView::Gate(GateNode::Mu { value }, seq![init, latch])),
                None => match g.loop_result[w] {
                    Some(carried) => Some(ProducerView::Gate(GateNode::Eta { value }, seq![carried])),
                    None => match def_table(all_ops(cfg, cfg.blocks@.len() as int), count)[w] {
                        Some((op, operands)) => Some(ProducerView::Op(op, operands)),
                        None => None,
                    },
                },
            },
        },
    }
}

/// What produces each value numbered below `count`.
pub open spec fn spec_producers(cfg: &Cfg, dom: &DominatorTree, blocks: Seq<BlockId>, count: nat) -> Seq<Option<ProducerView>> {
    Seq::new(count, |w: int| spec_producer(cfg, dom, blocks, count, w))
}

proof fn lemma_mark_args_blocks(t: Seq<Option<(BlockId, usize)>>, args: Seq<ValueId>, b: BlockId, n: nat)
    requires
        forall|w: int| 0 <= w < t.len() && (#[trigger] t[w]) is Some ==> (t[w]->0).0.0 < n,
        b.0 < n,
    ensures
        mark_args(t, args, b).len() == t.len(),
        forall|w: int| 0 <= w < t.len() && (#[trigger] mark_args(t, args, b)[w]) is Some ==> (mark_args(t, args, b)[w]->0).0.0 < n,
    decreases args.len(),
{
    if args.len() > 0 {
        lemma_mark_args_blocks(t, args.drop_last(), b, n);
    }
}

proof fn lemma_phi_blocks(cfg: &Cfg, all: Seq<BlockId>, blocks: Seq<BlockId>, count: nat)
    ensures
        phi_table(cfg, all, blocks, count).len() == count,
        forall|w: int| 0 <= w < count && (#[trigger] phi_table(cfg, all, blocks, count)[w]) is Some
            ==> (phi_table(cfg, all, blocks, count)[w]->0).0.0 < cfg.blocks@.len(),
    decreases blocks.len(),
{
    if blocks.len() > 0 {
        lemma_phi_blocks(cfg, all, blocks.drop_last(), count);
        let b = blocks.last();
        if has_preds(cfg, all, b) {
            lemma_mark_args_blocks(phi_table(cfg, all, blocks.drop_last(), count), block_args(cfg, b), b, cfg.blocks@.len());
        }
    }
}

proof fn lemma_gates_len(g: GatesView, ops: Seq<CfgOp>)
    ensures
        gates_over(g, ops).gamma.len() == g.gamma.len(),
        gates_over(g, ops).mu.len() == g.mu.len(),
        gates_over(g, ops).loop_result.len() == g.loop_result.len(),
    decreases ops.len(),
{
    if ops.len() > 0 {
        lemma_gates_len(g, ops.drop_last());
        let h = gates_over(g, ops.drop_last());
        let op = ops.last();
        match op.structured {
            Structured::Conditional(guard) => lemma_cond_gates_len(h.gamma, guard, op.results@),
            Structured::Loop(lp) => lemma_loop_gates_len(h, lp, op.results@),
            Structured::Plain => {},
        }
    }
}

proof fn lemma_cond_gates_len(t: Seq<Option<(ValueId, ValueId, ValueId)>>, guard: ConditionalInfo, rs: Seq<ValueId>)
    ensures
        cond_gates(t, guard, rs).len() == t.len(),
    decreases rs.len(),
{
    if rs.len() > 0 {
        lemma_cond_gates_len(t, guard, rs.drop_last());
    }
}

proof fn lemma_loop_gates_len(g: GatesView, lp: LoopInfo, rs: Seq<ValueId>)
    ensures
        loop_gates(g, lp, rs).gamma.len() == g.gamma.len(),
        loop_gates(g, lp, rs).mu.len() == g.mu.len(),
        loop_gates(g, lp, rs).loop_result.len() == g.loop_result.len(),
    decreases rs.len(),
{
    if rs.len() > 0 {
        lemma_loop_gates_len(g, lp, rs.drop_last());
    }
}

/// Whatever produces a value names only values below `count`.
proof fn lemma_producers_closed(cfg: &Cfg, dom: &DominatorTree, blocks: Seq<BlockId>, count: nat)
    requires
        values_within(cfg, count),
        loops_cover(cfg, blocks),
    ensures
        producers_closed(spec_producers(cfg, dom, blocks, count), count),
{
    let ps = spec_producers(cfg, dom, blocks, count);
    let ops = ops_in(cfg, blocks);
    lemma_ops_in_within(cfg, blocks, count);
    lemma_gates_over_below(no_gates(count), ops, count);
    lemma_gates_len(no_gates(count), ops);
    lemma_all_ops_within(cfg, cfg.blocks@.len() as int, count);
    lemma_def_table_below(all_ops(cfg, cfg.blocks@.len() as int), count);
    lemma_def_table_len(all_ops(cfg, cfg.blocks@.len() as int), count);
    lemma_phi_blocks(cfg, blocks, blocks, count);
    let g = gates_over(no_gates(count), ops);
    let defs = def_table(all_ops(cfg, cfg.blocks@.len() as int), count);
    assert forall|w: int, i: int| 0 <= w < count && 0 <= i < crate::gated_ssa::inputs_for(ps, w).len()
        implies (#[trigger] crate::gated_ssa::inputs_for(ps, w)[i]).0 < count by {
        let value = ValueId(w as u32);
        match phi_table(cfg, blocks, blocks, count)[w] {
            Some((b, index)) => {
                lemma_preds_below(cfg, blocks, b.0 as int, count);
                lemma_plan_below(cfg, dom, preds_of(cfg, blocks, b.0 as int), b, index, value, count);
            },
            None => {
                if g.gamma[w] is Some {
                } else if g.mu[w] is Some {
                } else if g.loop_result[w] is Some {
                } else if defs[w] is Some {
                }
            },
        }
    }
}

/// The values of `ops`' results, in order.
pub open spec fn results_of(ops: Seq<CfgOp>) -> Seq<ValueId>
    decreases ops.len(),
{
    if ops.len() == 0 {
        Seq::empty()
    } else {
        results_of(ops.drop_last()) + ops.last().results@
    }
}

/// The values `blocks` define: each block's arguments, then its operations'
/// results, block by block.
pub open spec fn region_values(cfg: &Cfg, blocks: Seq<BlockId>) -> Seq<ValueId>
    decreases blocks.len(),
{
    if blocks.len() == 0 {
        Seq::empty()
    } else {
        let b = blocks.last();
        region_values(cfg, blocks.drop_last()) + block_args(cfg, b) + results_of(block_ops(cfg, b))
    }
}

proof fn lemma_results_below(ops: Seq<CfgOp>, count: nat)
    requires
        ops_within(ops, count),
    ensures
        below(results_of(ops), count),
    decreases ops.len(),
{
    if ops.len() > 0 {
        assert forall|k: int| 0 <= k < ops.drop_last().len() implies op_within(#[trigger] ops.drop_last()[k], count) by {
            assert(op_within(ops[k], count));
        }
        lemma_results_below(ops.drop_last(), count);
        assert(op_within(ops[ops.len() - 1], count));
    }
}

proof fn lemma_region_values_below(cfg: &Cfg, blocks: Seq<BlockId>, count: nat)
    requires
        values_within(cfg, count),
    ensures
        below(region_values(cfg, blocks), count),
    decreases blocks.len(),
{
    if blocks.len() > 0 {
        lemma_region_values_below(cfg, blocks.drop_last(), count);
        let b = blocks.last();
        if b.0 < cfg.blocks@.len() {
            assert(below(cfg.blocks@[b.0 as int].arguments@, count));
            assert forall|k: int| 0 <= k < block_ops(cfg, b).len() implies op_within(#[trigger] block_ops(cfg, b)[k], count) by {
                assert(op_within(cfg.blocks@[b.0 as int].ops@[k], count));
            }
        }
        lemma_results_below(block_ops(cfg, b), count);
    }
}

fn region_values_exec(cfg: &Cfg, blocks: &Vec<BlockId>) -> (r: Vec<ValueId>)
    ensures
        r@ == region_values(cfg, blocks@),
{
    let mut out: Vec<ValueId> = Vec::new();
    let mut i: usize = 0;
    while i < blocks.len()
        invariant
            i <= blocks@.len(),
            out@ == region_values(cfg, blocks@.subrange(0, i as int)),
        decreases blocks.len() - i,
    {
        proof {
            assert(blocks@.subrange(0, i + 1).drop_last() =~= blocks@.subrange(0, i as int));
        }
        let b = blocks[i];
        if (b.0 as usize) < cfg.blocks.len() {
            let blk = &cfg.blocks[b.0 as usize];
            let ghost base = out@;
            let mut k: usize = 0;
            while k < blk.arguments.len()
                invariant
                    k <= blk.arguments@.len(),
                    out@ == base + blk.arguments@.subrange(0, k as int),
                decreases blk.arguments.len() - k,
            {
                out.push(blk.arguments[k]);
                k = k + 1;
                assert(out@ =~= base + blk.arguments@.subrange(0, k as int));
            }
            assert(blk.arguments@.subrange(0, blk.arguments@.len() as int) =~= blk.arguments@);
            let ghost mid = out@;
            let mut j: usize = 0;
            while j < blk.ops.len()
                invariant
                    j <= blk.ops@.len(),
                    out@ == mid + results_of(blk.ops@.subrange(0, j as int)),
                decreases blk.ops.len() - j,
            {
                proof {
                    assert(blk.ops@.subrange(0, j + 1).drop_last() =~= blk.ops@.subrange(0, j as int));
                }
                let rs = &blk.ops[j].results;
                let ghost before = out@;
                let mut k: usize = 0;
                while k < rs.len()
                    invariant
                        k <= rs@.len(),
                        out@ == before + rs@.subrange(0, k as int),
                    decreases rs.len() - k,
                {
                    out.push(rs[k]);
                    k = k + 1;
                    assert(out@ =~= before + rs@.subrange(0, k as int));
                }
                assert(rs@.subrange(0, rs@.len() as int) =~= rs@);
                j = j + 1;
                assert(out@ =~= mid + results_of(blk.ops@.subrange(0, j as int)));
            }
            assert(blk.ops@.subrange(0, blk.ops@.len() as int) =~= blk.ops@);
            assert(out@ =~= region_values(cfg, blocks@.subrange(0, i + 1)));
        } else {
            assert(region_values(cfg, blocks@.subrange(0, i + 1)) =~= out@ + Seq::<ValueId>::empty() + Seq::<ValueId>::empty());
        }
        i = i + 1;
    }
    assert(blocks@.subrange(0, blocks@.len() as int) =~= blocks@);
    out
}

fn assemble(
    cfg: &Cfg,
    dom: &DominatorTree,
    blocks: &Vec<BlockId>,
    preds: &Vec<Vec<Edge>>,
    phis: &Vec<Option<(BlockId, usize)>>,
    gates: &StructuredGates,
    defs: &Vec<Option<(OpId, Vec<ValueId>)>>,
    count: usize,
) -> (r: Vec<Option<Producer>>)
    requires
        count <= u32::MAX + 1,
        preds@.len() == cfg.blocks@.len(),
        forall|t: int| 0 <= t < preds@.len() ==> edge_views((#[trigger] preds@[t])@) == preds_of(cfg, blocks@, t),
        phis@ == phi_table(cfg, blocks@, blocks@, count as nat),
        gates.view_of() == gates_over(no_gates(count as nat), ops_in(cfg, blocks@)),
        defs@.len() == count,
        forall|w: int| 0 <= w < count ==> match (#[trigger] defs@[w]) {
            Some((op, operands)) => def_table(all_ops(cfg, cfg.blocks@.len() as int), count as nat)[w] == Some((op, operands@)),
            None => def_table(all_ops(cfg, cfg.blocks@.len() as int), count as nat)[w] is None,
        },
    ensures
        pviews(r@) == spec_producers(cfg, dom, blocks@, count as nat),
{
    proof {
        lemma_phi_blocks(cfg, blocks@, blocks@, count as nat);
        lemma_gates_len(no_gates(count as nat), ops_in(cfg, blocks@));
    }
    let mut out: Vec<Option<Producer>> = Vec::new();
    let mut w: usize = 0;
    while w < count
        invariant
            w <= count,
            count <= u32::MAX + 1,
            preds@.len() == cfg.blocks@.len(),
            forall|t: int| 0 <= t < preds@.len() ==> edge_views((#[trigger] preds@[t])@) == preds_of(cfg, blocks@, t),
            phis@ == phi_table(cfg, blocks@, blocks@, count as nat),
            phis@.len() == count,
            forall|v: int| 0 <= v < count && (#[trigger] phis@[v]) is Some ==> (phis@[v]->0).0.0 < cfg.blocks@.len(),
            gates.view_of() == gates_over(no_gates(count as nat), ops_in(cfg, blocks@)),
            gates.gamma@.len() == count,
            gates.mu@.len() == count,
            gates.loop_result@.len() == count,
            defs@.len() == count,
            forall|v: int| 0 <= v < count ==> match (#[trigger] defs@[v]) {
                Some((op, operands)) => def_table(all_ops(cfg, cfg.blocks@.len() as int), count as nat)[v] == Some((op, operands@)),
                None => def_table(all_ops(cfg, cfg.blocks@.len() as int), count as nat)[v] is None,
            },
            out@.len() == w,
            forall|v: int| 0 <= v < w ==> producer_view_eq(#[trigger] out@[v], spec_producer(cfg, dom, blocks@, count as nat, v)),
        decreases count - w,
    {
        let value = ValueId(w as u32);
        let p = match phis[w] {
            Some((b, index)) => {
                let (g, ins) = plan_gate(cfg, dom, &preds[b.0 as usize], b, index, value);
                Some(Producer::Gate(g, ins))
            },
            None => match gates.gamma[w] {
                Some((c, t, f)) => {
                    let mut ins: Vec<ValueId> = Vec::new();
                    ins.push(c);
                    ins.push(t);
                    ins.push(f);
                    Some(Producer::Gate(GateNode::Gamma { value, cond: c }, ins))
                },
                None => match gates.mu[w] {
                    Some((init, latch)) => {
                        let mut ins: Vec<ValueId> = Vec::new();
                        ins.push(init);
                        ins.push(latch);
                        Some(Producer::Gate(GateNode::Mu { value }, ins))
                    },
                    None => match gates.loop_result[w] {
                        Some(carried) => {
                            let mut ins: Vec<ValueId> = Vec::new();
                            ins.push(carried);
                            Some(Producer::Gate(GateNode::Eta { value }, ins))
                        },
                        None => match &defs[w] {
                            Some((op, operands)) => Some(Producer::Op(*op, copy_vec(operands))),
                            None => None,
                        },
                    },
                },
            },
        };
        proof {
            assert(value == ValueId(w as int as u32));
            let sp = spec_producer(cfg, dom, blocks@, count as nat, w as int);
            let pv = crate::gated_ssa::producer_view(p);
            match pv {
                Some(ProducerView::Gate(g, ins)) => {
                    match sp {
                        Some(ProducerView::Gate(g2, ins2)) => {
                            assert(ins =~= ins2);
                        },
                        _ => {},
                    }
                },
                _ => {},
            }
        }
        out.push(p);
        w = w + 1;
    }
    proof {
        assert(pviews(out@) =~= spec_producers(cfg, dom, blocks@, count as nat)) by {
            assert forall|v: int| 0 <= v < count implies pviews(out@)[v] == spec_producers(cfg, dom, blocks@, count as nat)[v] by {
                assert(producer_view_eq(out@[v], spec_producer(cfg, dom, blocks@, count as nat, v)));
            }
        }
    }
    out
}

/// `p` is what `v` describes.
pub open spec fn producer_view_eq(p: Option<Producer>, v: Option<ProducerView>) -> bool {
    crate::gated_ssa::producer_view(p) == v
}

impl GSA {
    /// The gated SSA form of the blocks reachable from `entry` (the first
    /// block of the analysed region), given their dominator tree: every
    /// value those blocks define has a node, and every node models what
    /// produces its value. Values are numbered below `value_count`.
    pub fn new(cfg: &Cfg, entry: Option<BlockId>, dom: &DominatorTree, value_count: usize) -> (r: GSA)
        requires
            values_within(cfg, value_count as nat),
            loops_cover(cfg, spec_region_blocks(cfg, entry)),
        ensures
            r.models(spec_producers(cfg, dom, spec_region_blocks(cfg, entry), value_count as nat)),
            r.value_count() == value_count,
            forall|i: int| 0 <= i < region_values(cfg, spec_region_blocks(cfg, entry)).len()
                ==> r.spec_node_of((#[trigger] region_values(cfg, spec_region_blocks(cfg, entry))[i]).0 as int) is Some,
    {
        let blocks = region_blocks(cfg, entry);
        let preds = predecessor_map(cfg, &blocks);
        let phis = collect_phis(cfg, &blocks, &preds, value_count);
        let gates = structured_gates(cfg, &blocks, value_count);
        let defs = defining_ops(cfg, value_count);
        let producers = assemble(cfg, dom, &blocks, &preds, &phis, &gates, &defs, value_count);
        let roots = region_values_exec(cfg, &blocks);
        proof {
            lemma_producers_closed(cfg, dom, blocks@, value_count as nat);
            lemma_region_values_below(cfg, blocks@, value_count as nat);
        }
        build(&producers, roots.as_slice())
    }
}

/// Each gate planned for a value of a region carries that value.
pub proof fn lemma_producers_name_their_values(cfg: &Cfg, dom: &DominatorTree, blocks: Seq<BlockId>, count: nat)
    ensures
        gates_name_their_values(spec_producers(cfg, dom, blocks, count)),
{
    let ps = spec_producers(cfg, dom, blocks, count);
    assert forall|w: int| 0 <= w < ps.len() implies match #[trigger] ps[w] {
        Some(ProducerView::Gate(g, _)) => gate_value(g) is None || gate_value(g) == Some(ValueId(w as u32)),
        _ => true,
    } by {
        let value = ValueId(w as u32);
        match phi_table(cfg, blocks, blocks, count)[w] {
            Some((b, index)) => {
                let incoming = spec_incoming(preds_of(cfg, blocks, b.0 as int), index);
                if any_back_edge(dom.idom@, b, incoming) {
                    match spec_mu_gate(dom.idom@, b, value, incoming) {
                        Some(g) => {},
                        None => {},
                    }
                } else {
                    match spec_gamma_gate(cfg, dom, b, value, incoming) {
                        Some(g) => {},
                        None => {},
                    }
                }
            },
            None => {},
        }
    }
}

/// In the form built for a region, the value of any node that has one leads
/// back to that node: `node_of(value_of(id)) == Some(id)`.
pub proof fn law_new_value_of_leads_back(cfg: &Cfg, entry: Option<BlockId>, dom: &DominatorTree, value_count: usize, gs: &GSA, id: int)
    requires
        values_within(cfg, value_count as nat),
        gs.models(spec_producers(cfg, dom, spec_region_blocks(cfg, entry), value_count as nat)),
        0 <= id < gs.spec_nodes().len(),
    ensures
        gate_value(gs.spec_nodes()[id]) matches Some(v) ==> gs.spec_node_of(v.0 as int) == Some(id as usize),
{
    let blocks = spec_region_blocks(cfg, entry);
    lemma_producers_name_their_values(cfg, dom, blocks, value_count as nat);
    gs.law_value_of_leads_back(spec_producers(cfg, dom, blocks, value_count as nat), id);
}

} // verus!
