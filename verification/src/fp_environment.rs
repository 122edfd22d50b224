//! Whether a function's floating-point operations can run in the default
//! floating-point environment: a target whose floating instructions assume
//! it refuses fixed rounding beside operations that change the
//! environment, and any operation needing more than the default.
//!
//! The function is held as a tree: its regions, each region's operations
//! (its blocks' operations in order), and each operation's regions.
use vstd::prelude::*;

use crate::rules::PassError;
use crate::text::str_eq;

verus! {

/// How a floating-point operation rounds, as far as the environment check
/// tells roundings apart.
#[derive(Clone, Copy, Debug, PartialEq, Eq, Structural)]
pub enum RoundingKind {
    /// A rounding mode fixed by the operation itself.
    Fixed,
    /// Whatever rounding the environment holds at run time.
    Dynamic,
    /// Any other rounding.
    Other,
}

/// The floating-point semantics an operation declares: its rounding (none
/// for a comparison) and whether it ignores floating-point exceptions.
#[derive(Clone, Copy, Debug, PartialEq, Eq, Structural)]
pub struct FpSemantics {
    pub rounding: Option<RoundingKind>,
    pub exceptions_ignored: bool,
}

/// A region of operations (its blocks' operations, in order).
pub struct FpRegion {
    pub ops: Vec<FpOp>,
}

/// An operation: its dialect and name, the floating-point semantics it
/// declares, whether it declares resource semantics, and its regions.
pub struct FpOp {
    pub dialect: String,
    pub name: String,
    pub semantics: Option<FpSemantics>,
    pub resource_semantics: bool,
    pub regions: Vec<FpRegion>,
}

/// The function checked: whether it is a function at all, and its regions.
pub struct FpFunction {
    pub is_func: bool,
    pub regions: Vec<FpRegion>,
}

pub open spec fn region_weight(r: FpRegion) -> nat
    decreases r, 0nat,
{
    1 + ops_weight(r.ops@)
}

pub open spec fn ops_weight(ops: Seq<FpOp>) -> nat
    decreases ops, 0nat,
{
    if ops.len() == 0 {
        0
    } else {
        ops_weight(ops.drop_last()) + op_weight(ops.last())
    }
}

pub open spec fn op_weight(op: FpOp) -> nat
    decreases op, 0nat,
{
    1 + regions_weight(op.regions@)
}

/// How much is left to walk from a stack of regions.
pub open spec fn regions_weight(rs: Seq<FpRegion>) -> nat
    decreases rs, 0nat,
{
    if rs.len() == 0 {
        0
    } else {
        regions_weight(rs.drop_last()) + region_weight(rs.last())
    }
}

/// The regions of `ops`, operation by operation.
pub open spec fn nested(ops: Seq<FpOp>) -> Seq<FpRegion>
    decreases ops.len(),
{
    if ops.len() == 0 {
        Seq::empty()
    } else {
        nested(ops.drop_last()) + ops.last().regions@
    }
}

pub proof fn lemma_regions_weight_concat(a: Seq<FpRegion>, b: Seq<FpRegion>)
    ensures
        regions_weight(a + b) == regions_weight(a) + regions_weight(b),
    decreases b.len(),
{
    if b.len() == 0 {
        assert(a + b =~= a);
    } else {
        assert((a + b).drop_last() =~= a + b.drop_last());
        lemma_regions_weight_concat(a, b.drop_last());
    }
}

pub proof fn lemma_nested_weight(ops: Seq<FpOp>)
    ensures
        regions_weight(nested(ops)) + ops.len() == ops_weight(ops),
    decreases ops.len(),
{
    if ops.len() > 0 {
        lemma_nested_weight(ops.drop_last());
        lemma_regions_weight_concat(nested(ops.drop_last()), ops.last().regions@);
        assert(op_weight(ops.last()) == 1 + regions_weight(ops.last().regions@));
        assert(ops_weight(ops) == ops_weight(ops.drop_last()) + op_weight(ops.last()));
    }
}

/// The operations a walk from `stack` visits, in order: it takes the region
/// on top, visits its operations in order while stacking their regions,
/// and goes on with the stack.
pub open spec fn visit(stack: Seq<FpRegion>) -> Seq<FpOp>
    decreases regions_weight(stack),
{
    if stack.len() == 0 {
        Seq::empty()
    } else {
        let r = stack.last();
        proof {
            lemma_nested_weight(r.ops@);
            lemma_regions_weight_concat(stack.drop_last(), nested(r.ops@));
            assert(regions_weight(stack) == regions_weight(stack.drop_last()) + region_weight(r));
            assert(region_weight(r) == 1 + ops_weight(r.ops@));
        }
        r.ops@ + visit(stack.drop_last() + nested(r.ops@))
    }
}

/// Whether an operation is of the `fp` dialect.
pub open spec fn is_fp(op: FpOp) -> bool {
    op.dialect@ == "fp"@
}

/// Whether an `fp` operation fixes its rounding.
pub open spec fn fixes_rounding(op: FpOp) -> bool {
    is_fp(op) && (op.semantics matches Some(s) && s.rounding == Some(RoundingKind::Fixed))
}

/// Whether an `fp` operation changes the floating-point environment.
pub open spec fn changes_environment(op: FpOp) -> bool {
    is_fp(op) && (op.name@ == "set_round"@ || op.name@ == "restore"@ || op.name@ == "update"@ || op.name@ == "hold"@)
}

/// What an `fp` operation needs beyond the default environment, if anything.
pub open spec fn needs(op: FpOp) -> Option<Seq<char>> {
    if !is_fp(op) {
        None
    } else {
        match op.semantics {
            Some(s) => if !s.exceptions_ignored {
                Some("observable floating-point exceptions"@)
            } else if s.rounding == Some(RoundingKind::Dynamic) {
                Some("dynamic rounding"@)
            } else {
                None
            },
            None => if op.resource_semantics {
                Some("floating-point environment access"@)
            } else {
                None
            },
        }
    }
}

/// The name of the first of `ops` satisfying `p`.
pub open spec fn first_named(ops: Seq<FpOp>, p: spec_fn(FpOp) -> bool) -> Option<Seq<char>>
    decreases ops.len(),
{
    if ops.len() == 0 {
        None
    } else {
        match first_named(ops.drop_last(), p) {
            Some(n) => Some(n),
            None => if p(ops.last()) { Some(ops.last().name@) } else { None },
        }
    }
}

/// The first of `ops` needing more than the default environment, by name
/// and need.
pub open spec fn first_need(ops: Seq<FpOp>) -> Option<(Seq<char>, Seq<char>)>
    decreases ops.len(),
{
    if ops.len() == 0 {
        None
    } else {
        match first_need(ops.drop_last()) {
            Some(x) => Some(x),
            None => match needs(ops.last()) {
                Some(reason) => Some((ops.last().name@, reason)),
                None => None,
            },
        }
    }
}

/// The verdict on a function whose operations, in walk order, are `ops`.
pub open spec fn verdict(target: Seq<char>, ops: Seq<FpOp>) -> Result<(), Seq<char>> {
    match (first_named(ops, |op: FpOp| fixes_rounding(op)), first_named(ops, |op: FpOp| changes_environment(op))) {
        (Some(fixed), Some(changing)) => Err(target + ": fp."@ + fixed + " uses fixed rounding but fp."@ + changing + " changes the floating-point environment"@),
        _ => match first_need(ops) {
            Some((name, reason)) => Err(target + ": fp."@ + name + " does not support "@ + reason),
            None => Ok(()),
        },
    }
}

/// Every operation of every region on `stack` is among those the walk
/// visits.
proof fn lemma_visit_covers(stack: Seq<FpRegion>, a: int, i: int)
    requires
        0 <= a < stack.len(),
        0 <= i < stack[a].ops@.len(),
    ensures
        visit(stack).contains(stack[a].ops@[i]),
    decreases regions_weight(stack),
{
    let r = stack.last();
    let rest = stack.drop_last() + nested(r.ops@);
    lemma_nested_weight(r.ops@);
    lemma_regions_weight_concat(stack.drop_last(), nested(r.ops@));
    assert(regions_weight(stack) == regions_weight(stack.drop_last()) + region_weight(r));
    assert(visit(stack) == r.ops@ + visit(rest));
    if a == stack.len() - 1 {
        assert(visit(stack)[i] == r.ops@[i]);
    } else {
        assert(rest[a] == stack[a]);
        lemma_visit_covers(rest, a, i);
        let k = choose|k: int| 0 <= k < visit(rest).len() && visit(rest)[k] == stack[a].ops@[i];
        assert(visit(stack)[r.ops@.len() + k] == stack[a].ops@[i]);
    }
}

/// Some op satisfies `p`, so one is named.
proof fn lemma_first_named_found(ops: Seq<FpOp>, p: spec_fn(FpOp) -> bool, k: int)
    requires
        0 <= k < ops.len(),
        p(ops[k]),
    ensures
        first_named(ops, p) is Some,
    decreases ops.len(),
{
    if k < ops.len() - 1 {
        lemma_first_named_found(ops.drop_last(), p, k);
    }
}

/// A function holding an `fp` operation that fixes its rounding and an `fp`
/// operation that changes the floating-point environment (`set_round`,
/// `restore`, `update` or `hold`) is refused, for that conflict: the
/// default environment cannot hold for both.
pub proof fn law_fixed_rounding_refused_beside_environment_change(
    function: &FpFunction,
    target: Seq<char>,
    a: int,
    i: int,
    b: int,
    j: int,
)
    requires
        0 <= a < function.regions@.len(),
        0 <= i < function.regions@[a].ops@.len(),
        0 <= b < function.regions@.len(),
        0 <= j < function.regions@[b].ops@.len(),
        function.regions@[a].ops@[i].dialect@ == "fp"@,
        function.regions@[a].ops@[i].semantics matches Some(s) && s.rounding == Some(RoundingKind::Fixed),
        function.regions@[b].ops@[j].dialect@ == "fp"@,
        function.regions@[b].ops@[j].name@ == "set_round"@ || function.regions@[b].ops@[j].name@ == "restore"@
            || function.regions@[b].ops@[j].name@ == "update"@ || function.regions@[b].ops@[j].name@ == "hold"@,
    ensures
        verdict(target, visit(function.regions@)) matches Err(m) && exists|f: Seq<char>, c: Seq<char>|
            m == target + ": fp."@ + f + " uses fixed rounding but fp."@ + c + " changes the floating-point environment"@,
{
    let ops = visit(function.regions@);
    lemma_visit_covers(function.regions@, a, i);
    lemma_visit_covers(function.regions@, b, j);
    let ki = choose|k: int| 0 <= k < ops.len() && ops[k] == function.regions@[a].ops@[i];
    let kj = choose|k: int| 0 <= k < ops.len() && ops[k] == function.regions@[b].ops@[j];
    let fixes = |op: FpOp| fixes_rounding(op);
    let changes = |op: FpOp| changes_environment(op);
    assert(fixes(ops[ki]));
    assert(changes(ops[kj]));
    lemma_first_named_found(ops, fixes, ki);
    lemma_first_named_found(ops, changes, kj);
    let f = first_named(ops, fixes)->0;
    let c = first_named(ops, changes)->0;
    assert(verdict(target, ops) == Err::<(), Seq<char>>(target + ": fp."@ + f + " uses fixed rounding but fp."@ + c + " changes the floating-point environment"@));
}

/// Some op has a need, so a first need is found.
proof fn lemma_first_need_found(ops: Seq<FpOp>, k: int)
    requires
        0 <= k < ops.len(),
        needs(ops[k]) is Some,
    ensures
        first_need(ops) is Some,
    decreases ops.len(),
{
    if k < ops.len() - 1 {
        lemma_first_need_found(ops.drop_last(), k);
    }
}

/// No op satisfies `p`, so none is named.
proof fn lemma_first_named_none(ops: Seq<FpOp>, p: spec_fn(FpOp) -> bool)
    requires
        forall|k: int| 0 <= k < ops.len() ==> !p(#[trigger] ops[k]),
    ensures
        first_named(ops, p) is None,
    decreases ops.len(),
{
    if ops.len() > 0 {
        lemma_first_named_none(ops.drop_last(), p);
    }
}

/// No op has a need, so none is found.
proof fn lemma_first_need_none(ops: Seq<FpOp>)
    requires
        forall|k: int| 0 <= k < ops.len() ==> needs(#[trigger] ops[k]) is None,
    ensures
        first_need(ops) is None,
    decreases ops.len(),
{
    if ops.len() > 0 {
        lemma_first_need_none(ops.drop_last());
    }
}

/// A function holding an `fp` operation that observes floating-point
/// exceptions, rounds dynamically, or (declaring no floating-point
/// semantics) accesses the environment as a resource, is refused.
pub proof fn law_unsupported_fp_op_refused(function: &FpFunction, target: Seq<char>, a: int, i: int)
    requires
        0 <= a < function.regions@.len(),
        0 <= i < function.regions@[a].ops@.len(),
        function.regions@[a].ops@[i].dialect@ == "fp"@,
        match function.regions@[a].ops@[i].semantics {
            Some(s) => !s.exceptions_ignored || s.rounding == Some(RoundingKind::Dynamic),
            None => function.regions@[a].ops@[i].resource_semantics,
        },
    ensures
        verdict(target, visit(function.regions@)) is Err,
{
    let ops = visit(function.regions@);
    lemma_visit_covers(function.regions@, a, i);
    let k = choose|k: int| 0 <= k < ops.len() && ops[k] == function.regions@[a].ops@[i];
    lemma_first_need_found(ops, k);
}

/// A walk that meets no `fp` operation is accepted.
pub proof fn law_no_fp_op_accepted(function: &FpFunction, target: Seq<char>)
    requires
        forall|k: int| 0 <= k < visit(function.regions@).len() ==> (#[trigger] visit(function.regions@)[k]).dialect@ != "fp"@,
    ensures
        verdict(target, visit(function.regions@)) == Ok::<(), Seq<char>>(()),
{
    let ops = visit(function.regions@);
    lemma_first_named_none(ops, |op: FpOp| fixes_rounding(op));
    lemma_first_need_none(ops);
}

/// A refusal as the check words it.
pub open spec fn refusal_says(r: Result<(), PassError>, v: Result<(), Seq<char>>) -> bool {
    match v {
        Ok(()) => r is Ok,
        Err(m) => r matches Err(PassError::InvalidRuleSet(s)) && s@ == m,
    }
}

fn is_fp_exec(op: &FpOp) -> (r: bool)
    ensures
        r == is_fp(*op),
{
    str_eq(op.dialect.as_str(), "fp")
}

fn changes_exec(op: &FpOp) -> (r: bool)
    ensures
        r == changes_environment(*op),
{
    is_fp_exec(op) && (str_eq(op.name.as_str(), "set_round") || str_eq(op.name.as_str(), "restore")
        || str_eq(op.name.as_str(), "update") || str_eq(op.name.as_str(), "hold"))
}

fn needs_exec(op: &FpOp) -> (r: Option<&'static str>)
    ensures
        match r {
            Some(s) => needs(*op) == Some(s@),
            None => needs(*op) is None,
        },
{
    if !is_fp_exec(op) {
        return None;
    }
    match op.semantics {
        Some(s) => if !s.exceptions_ignored {
            Some("observable floating-point exceptions")
        } else if s.rounding == Some(RoundingKind::Dynamic) {
            Some("dynamic rounding")
        } else {
            None
        },
        None => if op.resource_semantics {
            Some("floating-point environment access")
        } else {
            None
        },
    }
}

pub open spec fn deref_regions(rs: Seq<&FpRegion>) -> Seq<FpRegion> {
    rs.map_values(|r: &FpRegion| *r)
}

/// Check a function whose floating instructions require the default
/// environment, for the target named `target`.
pub fn check_default_fp_environment(function: &FpFunction, target: &str) -> (r: Result<(), PassError>)
    ensures
        !function.is_func ==> r is Ok,
        function.is_func ==> refusal_says(r, verdict(target@, visit(function.regions@))),
{
    if !function.is_func {
        return Ok(());
    }
    let mut fixed: Option<&String> = None;
    let mut changing: Option<&String> = None;
    let mut unsupported: Option<(&String, &'static str)> = None;
    let mut pending: Vec<&FpRegion> = Vec::new();
    let mut k: usize = 0;
    while k < function.regions.len()
        invariant
            k <= function.regions@.len(),
            deref_regions(pending@) == function.regions@.subrange(0, k as int),
        decreases function.regions.len() - k,
    {
        let r = &function.regions[k];
        let ghost prev = pending@;
        pending.push(r);
        proof {
            assert(deref_regions(pending@) =~= deref_regions(prev).push(function.regions@[k as int])) by {
                assert forall|i: int| 0 <= i < pending@.len() implies #[trigger] deref_regions(pending@)[i] == deref_regions(prev).push(function.regions@[k as int])[i] by {
                    if i < prev.len() {
                        assert(pending@[i] == prev[i]);
                    }
                }
            }
        }
        k = k + 1;
        assert(deref_regions(pending@) =~= function.regions@.subrange(0, k as int));
    }
    assert(function.regions@.subrange(0, function.regions@.len() as int) =~= function.regions@);
    let ghost total = visit(function.regions@);
    let ghost mut visited: Seq<FpOp> = Seq::empty();
    while pending.len() > 0
        invariant
            total == visited + visit(deref_regions(pending@)),
            fixed matches Some(n) ==> first_named(visited, |op: FpOp| fixes_rounding(op)) == Some(n@),
            fixed is None ==> first_named(visited, |op: FpOp| fixes_rounding(op)) is None,
            changing matches Some(n) ==> first_named(visited, |op: FpOp| changes_environment(op)) == Some(n@),
            changing is None ==> first_named(visited, |op: FpOp| changes_environment(op)) is None,
            unsupported matches Some((n, why)) ==> first_need(visited) == Some((n@, why@)),
            unsupported is None ==> first_need(visited) is None,
        decreases regions_weight(deref_regions(pending@)),
    {
        let ghost before = deref_regions(pending@);
        let region = pending.pop().unwrap();
        proof {
            assert(deref_regions(pending@) =~= before.drop_last());
            lemma_nested_weight(region.ops@);
            lemma_regions_weight_concat(before.drop_last(), nested(region.ops@));
            assert(regions_weight(before) == regions_weight(before.drop_last()) + region_weight(before.last()));
            assert(region_weight(before.last()) == 1 + ops_weight(before.last().ops@));
        }
        let ghost base = deref_regions(pending@);
        let ghost start = visited;
        let mut j: usize = 0;
        while j < region.ops.len()
            invariant
                j <= region.ops@.len(),
                *region == before.last(),
                before.len() > 0,
                base == before.drop_last(),
                total == start + visit(before),
                deref_regions(pending@) == base + nested(region.ops@.subrange(0, j as int)),
                visited == start + region.ops@.subrange(0, j as int),
                fixed matches Some(n) ==> first_named(visited, |op: FpOp| fixes_rounding(op)) == Some(n@),
                fixed is None ==> first_named(visited, |op: FpOp| fixes_rounding(op)) is None,
                changing matches Some(n) ==> first_named(visited, |op: FpOp| changes_environment(op)) == Some(n@),
                changing is None ==> first_named(visited, |op: FpOp| changes_environment(op)) is None,
                unsupported matches Some((n, why)) ==> first_need(visited) == Some((n@, why@)),
                unsupported is None ==> first_need(visited) is None,
            decreases region.ops.len() - j,
        {
            let op = &region.ops[j];
            let ghost mid = deref_regions(pending@);
            let mut q: usize = 0;
            while q < op.regions.len()
                invariant
                    q <= op.regions@.len(),
                    deref_regions(pending@) == mid + op.regions@.subrange(0, q as int),
                decreases op.regions.len() - q,
            {
                let r = &op.regions[q];
                let ghost prev = pending@;
                pending.push(r);
                proof {
                    assert(deref_regions(pending@) =~= deref_regions(prev).push(op.regions@[q as int])) by {
                        assert forall|i: int| 0 <= i < pending@.len() implies #[trigger] deref_regions(pending@)[i] == deref_regions(prev).push(op.regions@[q as int])[i] by {
                            if i < prev.len() {
                                assert(pending@[i] == prev[i]);
                            }
                        }
                    }
                }
                q = q + 1;
                assert(deref_regions(pending@) =~= mid + op.regions@.subrange(0, q as int));
            }
            proof {
                assert(op.regions@.subrange(0, op.regions@.len() as int) =~= op.regions@);
                assert(region.ops@.subrange(0, j + 1).drop_last() =~= region.ops@.subrange(0, j as int));
                assert(region.ops@.subrange(0, j + 1).last() == *op);
                assert(deref_regions(pending@) =~= base + nested(region.ops@.subrange(0, j + 1)));
                let prev = visited;
                visited = visited.push(*op);
                assert(visited.drop_last() =~= prev);
                assert(visited =~= start + region.ops@.subrange(0, j + 1));
            }
            if is_fp_exec(op) {
                if fixed.is_none() {
                    match op.semantics {
                        Some(s) => {
                            if s.rounding == Some(RoundingKind::Fixed) {
                                fixed = Some(&op.name);
                            }
                        },
                        None => {},
                    }
                }
                if changing.is_none() && changes_exec(op) {
                    changing = Some(&op.name);
                }
                if unsupported.is_none() {
                    match needs_exec(op) {
                        Some(reason) => {
                            unsupported = Some((&op.name, reason));
                        },
                        None => {},
                    }
                }
            }
            j = j + 1;
        }
        proof {
            assert(region.ops@.subrange(0, region.ops@.len() as int) =~= region.ops@);
            assert(visit(before) =~= region.ops@ + visit(base + nested(region.ops@)));
            assert(total =~= visited + visit(deref_regions(pending@)));
        }
    }
    proof {
        assert(deref_regions(pending@).len() == 0);
        assert(visited =~= total);
    }
    match (fixed, changing) {
        (Some(f), Some(c)) => {
            let mut message = String::new();
            message.append(target);
            message.append(": fp.");
            message.append(f.as_str());
            message.append(" uses fixed rounding but fp.");
            message.append(c.as_str());
            message.append(" changes the floating-point environment");
            proof {
                assert(message@ =~= target@ + ": fp."@ + f@ + " uses fixed rounding but fp."@ + c@ + " changes the floating-point environment"@);
            }
            return Err(PassError::InvalidRuleSet(message));
        },
        _ => {},
    }
    match unsupported {
        Some((name, reason)) => {
            let mut message = String::new();
            message.append(target);
            message.append(": fp.");
            message.append(name.as_str());
            message.append(" does not support ");
            message.append(reason);
            proof {
                assert(message@ =~= target@ + ": fp."@ + name@ + " does not support "@ + reason@);
            }
            Err(PassError::InvalidRuleSet(message))
        },
        None => Ok(()),
    }
}

} // verus!
