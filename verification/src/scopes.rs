//! Loop token scopes: the edges a structured loop is left through.
//!
//! A loop body binds a token naming its iteration, and a `break` or
//! `continue` names that token to leave through it. A transform growing a
//! carried port has to feed every such edge, so it tracks the scopes it is
//! walking inside.
//!
//! The region tree is held as plain values: an operation with its kind, its
//! operands and its regions; a region with its blocks; a block with its
//! arguments and its operations in order.
use vstd::prelude::*;

use crate::ids::{OpId, ValueId};

verus! {

/// What the scope walk needs to know of an operation's kind.
#[derive(Clone, Copy, Debug, PartialEq, Eq, Structural)]
pub enum OpKind {
    /// A structured `break`: its first operand is the scope token it leaves.
    Break,
    /// A structured `continue`: its first operand is the scope token.
    Continue,
    Other,
}

/// A block argument: its value and whether it has the token type.
#[derive(Clone, Copy, Debug, PartialEq, Eq, Structural)]
pub struct BlockArg {
    pub id: ValueId,
    pub is_token: bool,
}

pub struct OpInstance {
    pub id: OpId,
    pub kind: OpKind,
    pub operands: Vec<ValueId>,
    pub regions: Vec<Region>,
}

pub struct Region {
    pub blocks: Vec<Block>,
}

pub struct Block {
    pub arguments: Vec<BlockArg>,
    pub ops: Vec<OpInstance>,
}

/// Whether `op` is a `break` or `continue`.
pub open spec fn is_exit(op: &OpInstance) -> bool {
    op.kind == OpKind::Break || op.kind == OpKind::Continue
}

/// Every exit in the tree names a scope: its first operand.
pub open spec fn exits_well_formed(op: &OpInstance) -> bool
    decreases op,
{
    &&& (is_exit(op) ==> op.operands@.len() >= 1)
    &&& forall|i: int, j: int, k: int|
        0 <= i < op.regions@.len() && 0 <= j < op.regions@[i].blocks@.len() && 0 <= k < op.regions@[i].blocks@[j].ops@.len()
            ==> exits_well_formed(#[trigger] &op.regions@[i].blocks@[j].ops@[k])
}

pub open spec fn block_well_formed(b: &Block) -> bool {
    forall|k: int| 0 <= k < b.ops@.len() ==> exits_well_formed(#[trigger] &b.ops@[k])
}

pub open spec fn spec_exit_scope(op: &OpInstance) -> Option<ValueId> {
    if is_exit(op) {
        Some(op.operands@[0])
    } else {
        None
    }
}

/// The scope `op` leaves through, if it is an exit at all.
pub fn exit_scope(op: &OpInstance) -> (r: Option<ValueId>)
    requires
        is_exit(op) ==> op.operands@.len() >= 1,
    ensures
        r == spec_exit_scope(op),
{
    if op.kind == OpKind::Break || op.kind == OpKind::Continue {
        Some(op.operands[0])
    } else {
        None
    }
}

/// Whether `op` leaves one of the loops being walked.
pub fn exits_scope(op: &OpInstance, scopes: &[ValueId]) -> (r: bool)
    requires
        is_exit(op) ==> op.operands@.len() >= 1,
    ensures
        r == (spec_exit_scope(op) matches Some(s) && scopes@.contains(s)),
{
    match exit_scope(op) {
        Some(scope) => contains_value(scopes, scope),
        None => false,
    }
}

fn contains_value(values: &[ValueId], v: ValueId) -> (r: bool)
    ensures
        r == values@.contains(v),
{
    let mut k: usize = 0;
    while k < values.len()
        invariant
            k <= values@.len(),
            forall|j: int| 0 <= j < k ==> values@[j] != v,
        decreases values.len() - k,
    {
        if values[k] == v {
            assert(values@[k as int] == v);
            return true;
        }
        k = k + 1;
    }
    false
}

/// The values an edge carries into the ports it feeds: an exit's operands
/// past its scope token, any other terminator's operands.
pub fn carried_operands(op: &OpInstance) -> (r: &[ValueId])
    requires
        is_exit(op) ==> op.operands@.len() >= 1,
    ensures
        r@ == if is_exit(op) {
            op.operands@.subrange(1, op.operands@.len() as int)
        } else {
            op.operands@
        },
{
    let all = op.operands.as_slice();
    match exit_scope(op) {
        Some(_) => slice_from(all, 1),
        None => all,
    }
}

fn slice_from(s: &[ValueId], start: usize) -> (r: &[ValueId])
    requires
        start <= s@.len(),
    ensures
        r@ == s@.subrange(start as int, s@.len() as int),
{
    vstd::slice::slice_subrange(s, start, s.len())
}

/// The loop body's token scope: the first token-typed argument of its block,
/// when the body is a single block.
pub open spec fn spec_loop_scope(body: &Region) -> Option<ValueId> {
    if body.blocks@.len() != 1 {
        None
    } else {
        match first_token(body.blocks@[0].arguments@) {
            Some(i) => Some(body.blocks@[0].arguments@[i].id),
            None => None,
        }
    }
}

/// The position of the first token-typed argument.
pub open spec fn first_token(args: Seq<BlockArg>) -> Option<int>
    decreases args.len(),
{
    if args.len() == 0 {
        None
    } else if args[0].is_token {
        Some(0)
    } else {
        match first_token(args.drop_first()) {
            Some(i) => Some(i + 1),
            None => None,
        }
    }
}

proof fn lemma_first_token(args: Seq<BlockArg>)
    ensures
        first_token(args) matches Some(i) ==> 0 <= i < args.len() && args[i].is_token
            && forall|j: int| 0 <= j < i ==> !(#[trigger] args[j]).is_token,
        first_token(args) is None ==> forall|j: int| 0 <= j < args.len() ==> !(#[trigger] args[j]).is_token,
    decreases args.len(),
{
    if args.len() > 0 && !args[0].is_token {
        lemma_first_token(args.drop_first());
        assert forall|j: int| 1 <= j < args.len() implies args[j] == args.drop_first()[j - 1] by {}
    }
}

/// The loop body's token scope: the value its `break`/`continue` name.
pub fn loop_scope(body: &Region) -> (r: Option<ValueId>)
    ensures
        r == spec_loop_scope(body),
{
    if body.blocks.len() != 1 {
        return None;
    }
    let args = &body.blocks[0].arguments;
    proof {
        lemma_first_token(args@);
    }
    let mut k: usize = 0;
    while k < args.len()
        invariant
            k <= args@.len(),
            body.blocks@.len() == 1,
            *args == body.blocks@[0].arguments,
            forall|j: int| 0 <= j < k ==> !(#[trigger] args@[j]).is_token,
        decreases args.len() - k,
    {
        if args[k].is_token {
            proof {
                lemma_first_token(args@);
                match first_token(args@) {
                    Some(i) => {
                        if i < k {
                            assert(!args@[i].is_token);
                        } else if i > k {
                            assert(!args@[k as int].is_token);
                        }
                    },
                    None => {
                        assert(!args@[k as int].is_token);
                    },
                }
            }
            return Some(args[k].id);
        }
        k = k + 1;
    }
    None
}

/// The scope `region`'s terminator leaves through, if its first block ends in
/// an exit at all.
pub open spec fn spec_region_exit(region: &Region) -> Option<ValueId> {
    if region.blocks@.len() == 0 || region.blocks@[0].ops@.len() == 0 {
        None
    } else {
        spec_exit_scope(&region.blocks@[0].ops@.last())
    }
}

pub fn region_exit(region: &Region) -> (r: Option<ValueId>)
    requires
        region.blocks@.len() > 0 ==> block_well_formed(&region.blocks@[0]),
    ensures
        r == spec_region_exit(region),
{
    if region.blocks.len() == 0 {
        return None;
    }
    let ops = &region.blocks[0].ops;
    if ops.len() == 0 {
        return None;
    }
    let last = &ops[ops.len() - 1];
    proof {
        assert(exits_well_formed(&region.blocks@[0].ops@[ops@.len() - 1]));
    }
    exit_scope(last)
}

/// The exits leaving `scope` from an operation list's region trees,
/// outermost first, in the order the tree holds them.
pub open spec fn ops_exits(ops: Seq<OpInstance>, scope: ValueId) -> Seq<OpId>
    decreases ops, 0int,
{
    if ops.len() == 0 {
        Seq::empty()
    } else {
        ops_exits(ops.subrange(0, ops.len() - 1), scope) + op_exits(&ops[ops.len() - 1], scope)
    }
}

/// The exits leaving `scope` at and below `op`: `op` itself first.
pub open spec fn op_exits(op: &OpInstance, scope: ValueId) -> Seq<OpId>
    decreases op, 1int,
{
    let own = if spec_exit_scope(op) == Some(scope) {
        seq![op.id]
    } else {
        Seq::empty()
    };
    own + regions_exits(op.regions@, scope)
}

pub open spec fn regions_exits(regions: Seq<Region>, scope: ValueId) -> Seq<OpId>
    decreases regions, 0int,
{
    if regions.len() == 0 {
        Seq::empty()
    } else {
        regions_exits(regions.subrange(0, regions.len() - 1), scope) + blocks_exits(regions[regions.len() - 1].blocks@, scope)
    }
}

pub open spec fn blocks_exits(blocks: Seq<Block>, scope: ValueId) -> Seq<OpId>
    decreases blocks, 0int,
{
    if blocks.len() == 0 {
        Seq::empty()
    } else {
        blocks_exits(blocks.subrange(0, blocks.len() - 1), scope) + ops_exits(blocks[blocks.len() - 1].ops@, scope)
    }
}

/// Append to `out` the exits leaving `scope` from `b`'s region tree,
/// outermost first.
fn push_block_exits(b: &Block, scope: ValueId, out: &mut Vec<OpId>)
    requires
        block_well_formed(b),
    ensures
        final(out)@ == old(out)@ + ops_exits(b.ops@, scope),
    decreases b,
{
    let ghost start = out@;
    let mut k: usize = 0;
    while k < b.ops.len()
        invariant
            k <= b.ops@.len(),
            block_well_formed(b),
            out@ == start + ops_exits(b.ops@.subrange(0, k as int), scope),
        decreases b.ops.len() - k,
    {
        let op = &b.ops[k];
        proof {
            assert(b.ops@.subrange(0, k + 1).subrange(0, k as int) =~= b.ops@.subrange(0, k as int));
            assert(exits_well_formed(&b.ops@[k as int]));
        }
        let ghost before_op = out@;
        match exit_scope(op) {
            Some(s) => {
                if s == scope {
                    out.push(op.id);
                }
            },
            None => {},
        }
        let ghost own = if spec_exit_scope(op) == Some(scope) { seq![op.id] } else { Seq::<OpId>::empty() };
        assert(out@ == before_op + own);
        let mut i: usize = 0;
        while i < op.regions.len()
            invariant
                i <= op.regions@.len(),
                k < b.ops@.len(),
                *op == b.ops@[k as int],
                exits_well_formed(op),
                out@ == before_op + own + regions_exits(op.regions@.subrange(0, i as int), scope),
            decreases op.regions.len() - i,
        {
            let region = &op.regions[i];
            proof {
                assert(op.regions@.subrange(0, i + 1).subrange(0, i as int) =~= op.regions@.subrange(0, i as int));
            }
            let ghost before_region = out@;
            let mut j: usize = 0;
            while j < region.blocks.len()
                invariant
                    j <= region.blocks@.len(),
                    k < b.ops@.len(),
                    i < op.regions@.len(),
                    *op == b.ops@[k as int],
                    *region == op.regions@[i as int],
                    exits_well_formed(op),
                    out@ == before_region + blocks_exits(region.blocks@.subrange(0, j as int), scope),
                decreases region.blocks.len() - j,
            {
                proof {
                    assert(region.blocks@.subrange(0, j + 1).subrange(0, j as int) =~= region.blocks@.subrange(0, j as int));
                    assert forall|k2: int| 0 <= k2 < region.blocks@[j as int].ops@.len() implies exits_well_formed(#[trigger] &region.blocks@[j as int].ops@[k2]) by {
                        assert(exits_well_formed(&op.regions@[i as int].blocks@[j as int].ops@[k2]));
                    }
                    assert(decreases_to!(b => b.ops@[k as int].regions@[i as int].blocks@[j as int]));
                }
                push_block_exits(&region.blocks[j], scope, out);
                proof {
                    assert(out@ =~= before_region + blocks_exits(region.blocks@.subrange(0, j + 1), scope));
                }
                j = j + 1;
            }
            proof {
                assert(region.blocks@.subrange(0, region.blocks@.len() as int) =~= region.blocks@);
                assert(out@ =~= before_op + own + regions_exits(op.regions@.subrange(0, i + 1), scope));
            }
            i = i + 1;
        }
        proof {
            assert(op.regions@.subrange(0, op.regions@.len() as int) =~= op.regions@);
            assert(b.ops@.subrange(0, k + 1)[k as int] == b.ops@[k as int]);
            assert(op_exits(op, scope) == own + regions_exits(op.regions@, scope));
            assert(ops_exits(b.ops@.subrange(0, k + 1), scope) == ops_exits(b.ops@.subrange(0, k as int), scope) + op_exits(op, scope));
            assert(out@ =~= start + ops_exits(b.ops@.subrange(0, k + 1), scope));
        }
        k = k + 1;
    }
    proof {
        assert(b.ops@.subrange(0, b.ops@.len() as int) =~= b.ops@);
    }
}

/// The exits leaving `scope` from `block`'s region tree, outermost first.
pub fn scope_exits(block: &Block, scope: ValueId) -> (r: Vec<OpId>)
    requires
        block_well_formed(block),
    ensures
        r@ == ops_exits(block.ops@, scope),
{
    let mut exits: Vec<OpId> = Vec::new();
    push_block_exits(block, scope, &mut exits);
    assert(exits@ =~= ops_exits(block.ops@, scope));
    exits
}

/// Every edge feeding a loop's carried ports from inside `body`: the exits
/// leaving its scope, in tree order, and the body's own terminator when it is
/// not one of them.
pub open spec fn spec_port_edges(body: &Region) -> Seq<OpId> {
    if body.blocks@.len() == 0 {
        Seq::empty()
    } else {
        let block = body.blocks@[0];
        let edges = match spec_loop_scope(body) {
            Some(scope) => ops_exits(block.ops@, scope),
            None => Seq::empty(),
        };
        if block.ops@.len() == 0 {
            edges
        } else if edges.contains(block.ops@.last().id) {
            edges
        } else {
            edges.push(block.ops@.last().id)
        }
    }
}

fn contains_op(ops: &Vec<OpId>, op: OpId) -> (r: bool)
    ensures
        r == ops@.contains(op),
{
    let mut k: usize = 0;
    while k < ops.len()
        invariant
            k <= ops@.len(),
            forall|j: int| 0 <= j < k ==> ops@[j] != op,
        decreases ops.len() - k,
    {
        if ops[k] == op {
            assert(ops@[k as int] == op);
            return true;
        }
        k = k + 1;
    }
    false
}

/// Every edge feeding a loop's carried ports from inside `body`: what a
/// transform growing a port has to carry a value on, and the order it reads
/// them in.
pub fn port_edges(body: &Region) -> (r: Vec<OpId>)
    requires
        body.blocks@.len() > 0 ==> block_well_formed(&body.blocks@[0]),
    ensures
        r@ == spec_port_edges(body),
{
    if body.blocks.len() == 0 {
        return Vec::new();
    }
    let block = &body.blocks[0];
    let mut edges = match loop_scope(body) {
        Some(scope) => scope_exits(block, scope),
        None => Vec::new(),
    };
    if block.ops.len() == 0 {
        return edges;
    }
    let terminator = block.ops[block.ops.len() - 1].id;
    if !contains_op(&edges, terminator) {
        edges.push(terminator);
    }
    edges
}

/// The scopes the exits below `op` leave through, in tree order.
pub open spec fn op_nested_scopes(op: &OpInstance) -> Seq<ValueId>
    decreases op, 1int,
{
    regions_scopes(op.regions@)
}

pub open spec fn regions_scopes(regions: Seq<Region>) -> Seq<ValueId>
    decreases regions, 0int,
{
    if regions.len() == 0 {
        Seq::empty()
    } else {
        regions_scopes(regions.subrange(0, regions.len() - 1)) + blocks_scopes(regions[regions.len() - 1].blocks@)
    }
}

pub open spec fn blocks_scopes(blocks: Seq<Block>) -> Seq<ValueId>
    decreases blocks, 0int,
{
    if blocks.len() == 0 {
        Seq::empty()
    } else {
        blocks_scopes(blocks.subrange(0, blocks.len() - 1)) + ops_scopes(blocks[blocks.len() - 1].ops@)
    }
}

pub open spec fn ops_scopes(ops: Seq<OpInstance>) -> Seq<ValueId>
    decreases ops, 0int,
{
    if ops.len() == 0 {
        Seq::empty()
    } else {
        let last = ops[ops.len() - 1];
        let own = match spec_exit_scope(&last) {
            Some(s) => seq![s],
            None => Seq::empty(),
        };
        ops_scopes(ops.subrange(0, ops.len() - 1)) + own + op_nested_scopes(&last)
    }
}

/// Append to `out` the scopes every exit inside `op`'s regions leaves
/// through.
fn push_nested_scopes(op: &OpInstance, out: &mut Vec<ValueId>)
    requires
        exits_well_formed(op),
    ensures
        final(out)@ == old(out)@ + op_nested_scopes(op),
    decreases op,
{
    let ghost start = out@;
    let mut i: usize = 0;
    while i < op.regions.len()
        invariant
            i <= op.regions@.len(),
            exits_well_formed(op),
            out@ == start + regions_scopes(op.regions@.subrange(0, i as int)),
        decreases op.regions.len() - i,
    {
        let region = &op.regions[i];
        proof {
            assert(op.regions@.subrange(0, i + 1).subrange(0, i as int) =~= op.regions@.subrange(0, i as int));
        }
        let ghost before_region = out@;
        let mut j: usize = 0;
        while j < region.blocks.len()
            invariant
                j <= region.blocks@.len(),
                i < op.regions@.len(),
                *region == op.regions@[i as int],
                exits_well_formed(op),
                out@ == before_region + blocks_scopes(region.blocks@.subrange(0, j as int)),
            decreases region.blocks.len() - j,
        {
            let block = &region.blocks[j];
            proof {
                assert(region.blocks@.subrange(0, j + 1).subrange(0, j as int) =~= region.blocks@.subrange(0, j as int));
            }
            let ghost before_block = out@;
            let mut k: usize = 0;
            while k < block.ops.len()
                invariant
                    k <= block.ops@.len(),
                    i < op.regions@.len(),
                    j < region.blocks@.len(),
                    *region == op.regions@[i as int],
                    *block == region.blocks@[j as int],
                    exits_well_formed(op),
                    out@ == before_block + ops_scopes(block.ops@.subrange(0, k as int)),
                decreases block.ops.len() - k,
            {
                let nested = &block.ops[k];
                proof {
                    assert(block.ops@.subrange(0, k + 1).subrange(0, k as int) =~= block.ops@.subrange(0, k as int));
                    assert(block.ops@.subrange(0, k + 1)[k as int] == block.ops@[k as int]);
                    assert(exits_well_formed(&op.regions@[i as int].blocks@[j as int].ops@[k as int]));
                    assert(decreases_to!(op => op.regions@[i as int].blocks@[j as int].ops@[k as int]));
                }
                let ghost before_op = out@;
                match exit_scope(nested) {
                    Some(s) => out.push(s),
                    None => {},
                }
                let ghost own = match spec_exit_scope(nested) {
                    Some(s) => seq![s],
                    None => Seq::<ValueId>::empty(),
                };
                assert(out@ =~= before_op + own);
                push_nested_scopes(nested, out);
                proof {
                    assert(out@ =~= before_block + ops_scopes(block.ops@.subrange(0, k + 1)));
                }
                k = k + 1;
            }
            proof {
                assert(block.ops@.subrange(0, block.ops@.len() as int) =~= block.ops@);
                assert(region.blocks@.subrange(0, j + 1)[j as int] == region.blocks@[j as int]);
                assert(out@ =~= before_region + blocks_scopes(region.blocks@.subrange(0, j + 1)));
            }
            j = j + 1;
        }
        proof {
            assert(region.blocks@.subrange(0, region.blocks@.len() as int) =~= region.blocks@);
            assert(op.regions@.subrange(0, i + 1)[i as int] == op.regions@[i as int]);
            assert(out@ =~= start + regions_scopes(op.regions@.subrange(0, i + 1)));
        }
        i = i + 1;
    }
    proof {
        assert(op.regions@.subrange(0, op.regions@.len() as int) =~= op.regions@);
    }
}

/// The scopes every exit inside `op`'s regions leaves through.
pub fn nested_exit_scopes(op: &OpInstance) -> (r: Vec<ValueId>)
    requires
        exits_well_formed(op),
    ensures
        r@ == op_nested_scopes(op),
{
    let mut scopes: Vec<ValueId> = Vec::new();
    push_nested_scopes(op, &mut scopes);
    assert(scopes@ =~= op_nested_scopes(op));
    scopes
}

/// Whether anything inside `op`'s regions leaves one of those loops.
pub fn exits_scopes(op: &OpInstance, scopes: &[ValueId]) -> (r: bool)
    requires
        exits_well_formed(op),
    ensures
        r == exists|i: int| 0 <= i < op_nested_scopes(op).len() && scopes@.contains(#[trigger] op_nested_scopes(op)[i]),
{
    let nested = nested_exit_scopes(op);
    let mut k: usize = 0;
    while k < nested.len()
        invariant
            k <= nested@.len(),
            nested@ == op_nested_scopes(op),
            forall|j: int| 0 <= j < k ==> !scopes@.contains(#[trigger] nested@[j]),
        decreases nested.len() - k,
    {
        if contains_value(scopes, nested[k]) {
            return true;
        }
        k = k + 1;
    }
    false
}

} // verus!
