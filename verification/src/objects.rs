//! Which object a pointer names, and when two objects are different memory.
//!
//! A pointer reads back to the object it was derived from: a stack
//! allocation, a global, or a parameter. Distinct objects never name the same
//! memory, and neither does an allocation whose address never leaves its own
//! accesses.
use vstd::prelude::*;

use crate::ids::{copy_vec, ValueId};
use crate::value_graph::{
    access_location, access_location_exec, occurrences, occurrences_exec, op_within, uses, uses_exec, GraphOp,
    OpClass, ValueGraph, ValueSource,
};

verus! {

/// The object a pointer was derived from.
#[derive(Clone, Copy, PartialEq, Eq, PartialOrd, Ord, Debug, Structural)]
pub enum Base {
    /// A stack allocation, named by the pointer it opens.
    Alloca(ValueId),
    /// A global, named by the module-level value declaring it.
    Global(ValueId),
    /// A pointer the function was entered with. `noalias` where the caller
    /// guarantees nothing else the function reaches names that memory.
    Param { pointer: ValueId, noalias: bool },
}

/// Whether the object is nothing else the function names.
pub open spec fn spec_unshared(b: Base) -> bool {
    match b {
        Base::Alloca(_) => true,
        Base::Param { noalias, .. } => noalias,
        Base::Global(_) => false,
    }
}

/// Whether two objects are known to be different memory.
pub open spec fn spec_distinct(a: Base, b: Base) -> bool {
    &&& a != b
    &&& (spec_unshared(a) || spec_unshared(b) || (a is Global && b is Global))
}

impl Base {
    /// Whether two objects are known to be different memory. Two parameters,
    /// or a parameter and a global, may name the same memory; a stack
    /// allocation is fresh and a `noalias` parameter is guaranteed unaliased,
    /// so nothing else is either.
    pub fn distinct(self, other: Base) -> (r: bool)
        ensures
            r == spec_distinct(self, other),
    {
        self != other && (self.unshared() || other.unshared() || (matches!(self, Base::Global(_)) && matches!(other, Base::Global(_))))
    }

    /// Whether the object is nothing else the function names.
    pub fn unshared(self) -> (r: bool)
        ensures
            r == spec_unshared(self),
    {
        match self {
            Base::Alloca(_) => true,
            Base::Param { noalias, .. } => noalias,
            Base::Global(_) => false,
        }
    }
}

/// Distinctness is a symmetric relation that never holds of an object and
/// itself.
pub proof fn lemma_distinct_symmetric_irreflexive(a: Base, b: Base)
    ensures
        spec_distinct(a, b) == spec_distinct(b, a),
        !spec_distinct(a, a),
{
}

/// Two different globals, and an unshared object and anything else, are
/// always distinct; two parameters that are not `noalias` never are.
pub proof fn lemma_distinct_cases(a: Base, b: Base)
    ensures
        (a is Global && b is Global && a != b) ==> spec_distinct(a, b),
        (spec_unshared(a) && a != b) ==> spec_distinct(a, b),
        (a matches Base::Param { noalias: false, .. } && !spec_unshared(b)) ==> !spec_distinct(a, b),
{
}

// ------------------------------------------------------------ accessed only

/// Whether operation `op` uses `v` as the pointer arithmetic on `v` itself
/// does, or as an access whose location is `v` and that names `v` once.
pub open spec fn use_ok(op: GraphOp, v: ValueId) -> bool {
    if op.class == OpClass::PtrAdd {
        op.operands@[0] == v
    } else {
        access_location(op) == Some(v) && occurrences(op.operands@, v) == 1
    }
}

/// The values region results name, seen from the region defining
/// `address`: the one list a use does not show in.
pub open spec fn published(g: &ValueGraph, address: ValueId) -> Seq<ValueId> {
    match g.region_of@[address.0 as int] {
        Some(r) => g.nested_results@[r as int]@,
        None => Seq::empty(),
    }
}

/// `v` is not published, and every live operation using it uses it well.
pub open spec fn value_ok(g: &ValueGraph, pubs: Seq<ValueId>, v: ValueId) -> bool {
    &&& !pubs.contains(v)
    &&& forall|i: int| #[trigger] g.op(i) is Some && uses(g.op(i)->0, v) ==> use_ok(g.op(i)->0, v)
}

/// `r` is a result of pointer arithmetic on `v`.
pub open spec fn derives(g: &ValueGraph, v: ValueId, r: ValueId) -> bool {
    exists|i: int| #[trigger] g.op(i) is Some && {
        let op = g.op(i)->0;
        &&& op.class == OpClass::PtrAdd
        &&& op.operands@.len() > 0
        &&& op.operands@[0] == v
        &&& op.results@.contains(r)
    }
}

/// `w` is reached from `a` by at most `fuel` steps of pointer arithmetic.
pub open spec fn reaches(g: &ValueGraph, a: ValueId, w: ValueId, fuel: nat) -> bool
    decreases fuel,
{
    a == w || (fuel > 0 && exists|r: ValueId| #[trigger] derives(g, a, r) && reaches(g, r, w, (fuel - 1) as nat))
}

/// Every value pointer arithmetic derives from `address` (itself
/// included) is used only as the location of reads and writes and by
/// further arithmetic, and is published by no region result.
pub open spec fn spec_accessed_only(g: &ValueGraph, address: ValueId) -> bool {
    forall|w: ValueId, f: nat| #[trigger] reaches(g, address, w, f) ==> value_ok(g, published(g, address), w)
}

/// The number of values not yet seen.
pub open spec fn unseen(seen: Seq<bool>) -> nat
    decreases seen.len(),
{
    if seen.len() == 0 {
        0
    } else {
        unseen(seen.drop_last()) + if seen.last() { 0nat } else { 1nat }
    }
}

proof fn lemma_unseen_mark(seen: Seq<bool>, i: int)
    requires
        0 <= i < seen.len(),
        !seen[i],
    ensures
        unseen(seen.update(i, true)) + 1 == unseen(seen),
    decreases seen.len(),
{
    if i < seen.len() - 1 {
        lemma_unseen_mark(seen.drop_last(), i);
        assert(seen.update(i, true).drop_last() =~= seen.drop_last().update(i, true));
    } else {
        assert(seen.update(i, true).drop_last() =~= seen.drop_last());
    }
}

proof fn lemma_unseen_grow(a: Seq<bool>, b: Seq<bool>)
    requires
        a.len() == b.len(),
        forall|k: int| 0 <= k < a.len() && a[k] ==> b[k],
    ensures
        unseen(b) <= unseen(a),
    decreases a.len(),
{
    if a.len() > 0 {
        lemma_unseen_grow(a.drop_last(), b.drop_last());
    }
}

/// Every value newly seen (in `seen` but not in `before`) is well used,
/// and whatever arithmetic derives from it has been seen.
pub open spec fn closed_since(g: &ValueGraph, pubs: Seq<ValueId>, before: Seq<bool>, seen: Seq<bool>) -> bool {
    forall|w: ValueId| (w.0 as int) < seen.len() && #[trigger] seen[w.0 as int] && !before[w.0 as int] ==> {
        &&& value_ok(g, pubs, w)
        &&& forall|x: ValueId| #[trigger] derives(g, w, x) ==> seen[x.0 as int]
    }
}

fn contains_value(values: &Vec<ValueId>, v: ValueId) -> (r: bool)
    ensures
        r == values@.contains(v),
{
    let mut k: usize = 0;
    while k < values.len()
        invariant
            k <= values@.len(),
            forall|j: int| 0 <= j < k ==> values@[j] != v,
        decreases values.len() - k,
    {
        if values[k] == v {
            assert(values@[k as int] == v);
            return true;
        }
        k = k + 1;
    }
    false
}

fn accessed_only_seen(g: &ValueGraph, address: ValueId, pubs: &Vec<ValueId>, seen: &mut Vec<bool>) -> (r: bool)
    requires
        g.well_formed(),
        (address.0 as int) < g.sources@.len(),
        old(seen)@.len() == g.sources@.len(),
    ensures
        final(seen)@.len() == old(seen)@.len(),
        forall|k: int| 0 <= k < old(seen)@.len() && old(seen)@[k] ==> final(seen)@[k],
        !r ==> exists|w: ValueId, f: nat| #[trigger] reaches(g, address, w, f) && !value_ok(g, pubs@, w),
        r ==> final(seen)@[address.0 as int],
        r ==> closed_since(g, pubs@, old(seen)@, final(seen)@),
    decreases unseen(old(seen)@),
{
    let ghost before = seen@;
    if contains_value(pubs, address) {
        proof {
            assert(reaches(g, address, address, 0));
        }
        return false;
    }
    if seen[address.0 as usize] {
        return true;
    }
    seen.set(address.0 as usize, true);
    proof {
        lemma_unseen_mark(before, address.0 as int);
    }
    let ghost marked = seen@;
    let mut i: usize = 0;
    while i < g.ops.len()
        invariant
            i <= g.ops@.len(),
            g.well_formed(),
            (address.0 as int) < g.sources@.len(),
            seen@.len() == before.len(),
            before.len() == g.sources@.len(),
            marked == before.update(address.0 as int, true),
            before == old(seen)@,
            forall|q: int| 0 <= q < before.len() && before[q] ==> seen@[q],
            !pubs@.contains(address),
            unseen(marked) < unseen(before),
            forall|k: int| 0 <= k < marked.len() && marked[k] ==> seen@[k],
            closed_since(g, pubs@, marked, seen@),
            forall|j: int| 0 <= j < i && #[trigger] g.op(j) is Some && uses(g.op(j)->0, address) ==> use_ok(g.op(j)->0, address),
            forall|j: int, x: ValueId| 0 <= j < i && #[trigger] g.op(j) is Some && g.op(j)->0.class == OpClass::PtrAdd
                && g.op(j)->0.operands@.len() > 0 && g.op(j)->0.operands@[0] == address && #[trigger] g.op(j)->0.results@.contains(x)
                ==> seen@[x.0 as int],
        decreases g.ops.len() - i,
    {
        match &g.ops[i] {
            Some(op) => {
                proof {
                    assert(g.op(i as int) == Some(*op));
                    assert(op_within(*op, g.sources@.len()));
                }
                if uses_exec(op, address) {
                    if op.class == OpClass::PtrAdd {
                        if op.operands[0] != address {
                            proof {
                                assert(!value_ok(g, pubs@, address)) by {
                                    assert(g.op(i as int) is Some && uses(g.op(i as int)->0, address));
                                }
                                assert(reaches(g, address, address, 0));
                            }
                            return false;
                        }
                        let mut k: usize = 0;
                        while k < op.results.len()
                            invariant
                                k <= op.results@.len(),
                                g.well_formed(),
                                g.op(i as int) == Some(*op),
                                op.class == OpClass::PtrAdd,
                                op.operands@.len() > 0,
                                op.operands@[0] == address,
                                op_within(*op, g.sources@.len()),
                                (address.0 as int) < g.sources@.len(),
                                seen@.len() == before.len(),
                                before.len() == g.sources@.len(),
                                marked == before.update(address.0 as int, true),
                                before == old(seen)@,
                                forall|q: int| 0 <= q < before.len() && before[q] ==> seen@[q],
                                !pubs@.contains(address),
                                unseen(marked) < unseen(before),
                                forall|q: int| 0 <= q < marked.len() && marked[q] ==> seen@[q],
                                closed_since(g, pubs@, marked, seen@),
                                forall|j: int| 0 <= j < i && #[trigger] g.op(j) is Some && uses(g.op(j)->0, address) ==> use_ok(g.op(j)->0, address),
                                forall|j: int, x: ValueId| 0 <= j < i && #[trigger] g.op(j) is Some && g.op(j)->0.class == OpClass::PtrAdd
                                    && g.op(j)->0.operands@.len() > 0 && g.op(j)->0.operands@[0] == address && #[trigger] g.op(j)->0.results@.contains(x)
                                    ==> seen@[x.0 as int],
                                forall|q: int| 0 <= q < k ==> seen@[(#[trigger] op.results@[q]).0 as int],
                            decreases op.results.len() - k,
                        {
                            let derived = op.results[k];
                            let ghost mid = seen@;
                            proof {
                                lemma_unseen_grow(marked, mid);
                            }
                            let ok = accessed_only_seen(g, derived, pubs, seen);
                            if !ok {
                                proof {
                                    assert(derives(g, address, derived)) by {
                                        assert(op.results@[k as int] == derived);
                                        assert(op.results@.contains(derived));
                                    }
                                    let (w, f) = choose|w: ValueId, f: nat| #[trigger] reaches(g, derived, w, f) && !value_ok(g, pubs@, w);
                                    assert(reaches(g, address, w, f + 1));
                                }
                                return false;
                            }
                            proof {
                                assert forall|w: ValueId| (w.0 as int) < seen@.len() && #[trigger] seen@[w.0 as int] && !marked[w.0 as int] implies {
                                    &&& value_ok(g, pubs@, w)
                                    &&& forall|x: ValueId| #[trigger] derives(g, w, x) ==> seen@[x.0 as int]
                                } by {
                                    if mid[w.0 as int] {
                                        assert forall|x: ValueId| #[trigger] derives(g, w, x) implies seen@[x.0 as int] by {
                                            assert(mid[x.0 as int]);
                                        }
                                    }
                                }
                            }
                            k = k + 1;
                        }
                        proof {
                            assert forall|x: ValueId| #[trigger] op.results@.contains(x) implies seen@[x.0 as int] by {
                                let q = choose|q: int| 0 <= q < op.results@.len() && op.results@[q] == x;
                            }
                        }
                    } else {
                        let location = access_location_exec(op);
                        let ok = match location {
                            Some(l) => l == address && occurrences_exec(&op.operands, address) == 1,
                            None => false,
                        };
                        if !ok {
                            proof {
                                assert(!value_ok(g, pubs@, address)) by {
                                    assert(g.op(i as int) is Some && uses(g.op(i as int)->0, address));
                                }
                                assert(reaches(g, address, address, 0));
                            }
                            return false;
                        }
                    }
                }
            },
            None => {},
        }
        i = i + 1;
    }
    proof {
        assert(marked[address.0 as int]);
        assert forall|k: int| 0 <= k < before.len() && before[k] implies seen@[k] by {
            assert(marked[k]);
        }
        assert(value_ok(g, pubs@, address));
        assert forall|x: ValueId| #[trigger] derives(g, address, x) implies seen@[x.0 as int] by {
            let j = choose|j: int| #[trigger] g.op(j) is Some && {
                let op = g.op(j)->0;
                &&& op.class == OpClass::PtrAdd
                &&& op.operands@.len() > 0
                &&& op.operands@[0] == address
                &&& op.results@.contains(x)
            };
        }
        assert(closed_since(g, pubs@, before, seen@));
    }
    true
}

proof fn lemma_derived_in_range(g: &ValueGraph, v: ValueId, x: ValueId)
    requires
        g.well_formed(),
        derives(g, v, x),
    ensures
        (x.0 as int) < g.sources@.len(),
{
    let i = choose|i: int| #[trigger] g.op(i) is Some && {
        let op = g.op(i)->0;
        &&& op.class == OpClass::PtrAdd
        &&& op.operands@.len() > 0
        &&& op.operands@[0] == v
        &&& op.results@.contains(x)
    };
    let op = g.op(i)->0;
    assert(g.ops@[i] is Some);
    assert(op_within(op, g.sources@.len()));
    let q = choose|q: int| 0 <= q < op.results@.len() && op.results@[q] == x;
}

proof fn lemma_reach_seen(g: &ValueGraph, seen: Seq<bool>, a: ValueId, w: ValueId, f: nat)
    requires
        g.well_formed(),
        seen.len() == g.sources@.len(),
        (a.0 as int) < seen.len(),
        seen[a.0 as int],
        forall|v: ValueId, x: ValueId| (v.0 as int) < seen.len() && #[trigger] seen[v.0 as int] && #[trigger] derives(g, v, x) ==> seen[x.0 as int],
        reaches(g, a, w, f),
    ensures
        (w.0 as int) < seen.len() && seen[w.0 as int],
    decreases f,
{
    if a != w {
        let r = choose|r: ValueId| #[trigger] derives(g, a, r) && reaches(g, r, w, (f - 1) as nat);
        lemma_derived_in_range(g, a, r);
        lemma_reach_seen(g, seen, r, w, (f - 1) as nat);
    }
}

/// Whether every use of `address`, through pointer arithmetic, is as the
/// location of a read or a write: the address never leaves the function's
/// own accesses, and no region result publishes it.
pub fn accessed_only(g: &ValueGraph, address: ValueId) -> (r: bool)
    requires
        g.well_formed(),
        (address.0 as int) < g.sources@.len(),
    ensures
        r == spec_accessed_only(g, address),
{
    let pubs: Vec<ValueId> = match g.region_of[address.0 as usize] {
        Some(region) => copy_vec(&g.nested_results[region]),
        None => Vec::new(),
    };
    let mut seen: Vec<bool> = Vec::new();
    let mut k: usize = 0;
    while k < g.sources.len()
        invariant
            k <= g.sources@.len(),
            seen@.len() == k,
            forall|q: int| 0 <= q < k ==> !seen@[q],
        decreases g.sources.len() - k,
    {
        seen.push(false);
        k = k + 1;
    }
    let ghost start = seen@;
    let r = accessed_only_seen(g, address, &pubs, &mut seen);
    proof {
        assert(pubs@ == published(g, address));
        if r {
            assert forall|v: ValueId, x: ValueId| (v.0 as int) < seen@.len() && #[trigger] seen@[v.0 as int] && #[trigger] derives(g, v, x) implies seen@[x.0 as int] by {
                assert(!start[v.0 as int]);
            }
            assert forall|w: ValueId, f: nat| #[trigger] reaches(g, address, w, f) implies value_ok(g, published(g, address), w) by {
                lemma_reach_seen(g, seen@, address, w, f);
                assert(!start[w.0 as int]);
            }
        }
    }
    r
}

// ------------------------------------------------------------ object base

/// The values written by the live operations numbered below `upto` that use
/// `slot`, in order.
pub open spec fn writers(g: &ValueGraph, slot: ValueId, upto: int) -> Seq<ValueId>
    decreases upto,
{
    if upto <= 0 {
        Seq::empty()
    } else {
        let prev = writers(g, slot, upto - 1);
        match g.op(upto - 1) {
            Some(op) => if uses(op, slot) && op.handle.memory_write is Some {
                prev.push(op.handle.memory_write->0.value)
            } else {
                prev
            },
            None => prev,
        }
    }
}

/// Every live operation using `slot` accesses it there, naming it once.
pub open spec fn users_access(g: &ValueGraph, slot: ValueId) -> bool {
    forall|i: int| #[trigger] g.op(i) is Some && uses(g.op(i)->0, slot)
        ==> access_location(g.op(i)->0) == Some(slot) && occurrences(g.op(i)->0.operands@, slot) == 1
}

/// The one pointer a slot ever holds: the slot is a fresh allocation whose
/// address never leaves its own accesses, every use of it is an access of
/// the whole slot, and exactly one of them writes it.
pub open spec fn spec_only_pointer_held(g: &ValueGraph, slot: ValueId) -> Option<ValueId> {
    match g.sources@[slot.0 as int] {
        ValueSource::Result(op) => match g.op(op.0 as int) {
            Some(alloc) => {
                let ws = writers(g, slot, g.ops@.len() as int);
                if alloc.allocation is Some && users_access(g, slot) && ws.len() == 1 && spec_accessed_only(g, slot) {
                    Some(ws[0])
                } else {
                    None
                }
            },
            None => None,
        },
        _ => None,
    }
}

pub fn only_pointer_held(g: &ValueGraph, slot: ValueId) -> (r: Option<ValueId>)
    requires
        g.well_formed(),
        (slot.0 as int) < g.sources@.len(),
    ensures
        r == spec_only_pointer_held(g, slot),
{
    let alloc = match g.sources[slot.0 as usize] {
        ValueSource::Result(op) => op,
        _ => {
            return None;
        },
    };
    proof {
        assert(g.op(alloc.0 as int) is Some);
    }
    match &g.ops[alloc.0 as usize] {
        Some(op) => {
            if op.allocation.is_none() {
                return None;
            }
        },
        None => {
            return None;
        },
    }
    let mut held: Option<ValueId> = None;
    let mut i: usize = 0;
    while i < g.ops.len()
        invariant
            i <= g.ops@.len(),
            g.well_formed(),
            forall|j: int| 0 <= j < i && #[trigger] g.op(j) is Some && uses(g.op(j)->0, slot)
                ==> access_location(g.op(j)->0) == Some(slot) && occurrences(g.op(j)->0.operands@, slot) == 1,
            writers(g, slot, i as int).len() <= 1,
            held == if writers(g, slot, i as int).len() == 0 { None } else { Some(writers(g, slot, i as int)[0]) },
        decreases g.ops.len() - i,
    {
        match &g.ops[i] {
            Some(op) => {
                proof {
                    assert(g.op(i as int) == Some(*op));
                }
                if uses_exec(op, slot) {
                    let location = access_location_exec(op);
                    let fine = match location {
                        Some(l) => l == slot && occurrences_exec(&op.operands, slot) == 1,
                        None => false,
                    };
                    if !fine {
                        proof {
                            assert(!users_access(g, slot)) by {
                                assert(g.op(i as int) is Some && uses(g.op(i as int)->0, slot));
                            }
                        }
                        return None;
                    }
                    match op.handle.memory_write {
                        Some(w) => {
                            if held.is_some() {
                                proof {
                                    lemma_writers_grow(g, slot, i as int + 1, g.ops@.len() as int);
                                }
                                return None;
                            }
                            held = Some(w.value);
                        },
                        None => {},
                    }
                }
            },
            None => {},
        }
        i = i + 1;
    }
    match held {
        Some(h) => {
            if accessed_only(g, slot) {
                Some(h)
            } else {
                None
            }
        },
        None => None,
    }
}

proof fn lemma_writers_grow(g: &ValueGraph, slot: ValueId, a: int, b: int)
    requires
        0 <= a <= b,
    ensures
        writers(g, slot, a).len() <= writers(g, slot, b).len(),
    decreases b - a,
{
    if a < b {
        lemma_writers_grow(g, slot, a, b - 1);
    }
}

/// One step of the walk back to an object: a base found (or the walk given
/// up), or the pointer to look at next.
pub enum BaseStep {
    Done(Option<Base>),
    Next(ValueId),
}

/// Where the walk goes from `v`: a parameter is its own object; a result of
/// pointer arithmetic goes on to the pointer offset; an allocation or a
/// global is the object; a read of a slot that holds one pointer goes on to
/// that pointer; anything else names no object.
pub open spec fn base_step(g: &ValueGraph, v: ValueId) -> BaseStep {
    match g.sources@[v.0 as int] {
        ValueSource::Parameter { noalias } => BaseStep::Done(Some(Base::Param { pointer: v, noalias })),
        ValueSource::Other => BaseStep::Done(None),
        ValueSource::Result(op) => match g.op(op.0 as int) {
            None => BaseStep::Done(None),
            Some(o) => if o.class == OpClass::PtrAdd {
                BaseStep::Next(o.operands@[0])
            } else if o.allocation is Some {
                BaseStep::Done(Some(Base::Alloca(v)))
            } else if o.class == OpClass::Global {
                BaseStep::Done(Some(Base::Global(v)))
            } else {
                match o.handle.memory_read {
                    Some(rd) => if rd.value == v {
                        match spec_only_pointer_held(g, rd.location) {
                            Some(h) => BaseStep::Next(h),
                            None => BaseStep::Done(None),
                        }
                    } else {
                        BaseStep::Done(None)
                    },
                    None => BaseStep::Done(None),
                }
            },
        },
    }
}

/// The walk from `v` with `fuel` steps left.
pub open spec fn base_walk(g: &ValueGraph, v: ValueId, fuel: nat) -> Option<Base>
    decreases fuel,
{
    if fuel == 0 {
        None
    } else {
        match base_step(g, v) {
            BaseStep::Done(r) => r,
            BaseStep::Next(n) => base_walk(g, n, (fuel - 1) as nat),
        }
    }
}

/// The object `address` is derived from: the walk back through pointer
/// arithmetic and single-pointer slots ends at a stack allocation, a global
/// or a parameter. A walk that comes back to a pointer it already passed
/// names no object, which is what any number of steps beyond the number of
/// values gives.
pub open spec fn spec_object_base(g: &ValueGraph, address: ValueId) -> Option<Base> {
    base_walk(g, address, g.sources@.len() + 1)
}

/// `path` is a run of the walk, each step going on to the next value, the
/// last one on to `current`.
pub open spec fn walk_path(g: &ValueGraph, path: Seq<ValueId>, current: ValueId) -> bool {
    forall|j: int| 0 <= j < path.len() ==> base_step(g, #[trigger] path[j]) == BaseStep::Next(if j + 1 < path.len() { path[j + 1] } else { current })
}

proof fn lemma_walk_along(g: &ValueGraph, path: Seq<ValueId>, current: ValueId, m: int, f: nat)
    requires
        walk_path(g, path, current),
        0 <= m < path.len(),
    ensures
        base_walk(g, path[m], f) == if f >= path.len() - m { base_walk(g, current, (f - (path.len() - m)) as nat) } else { None },
    decreases path.len() - m,
{
    if f > 0 {
        assert(base_step(g, path[m]) == BaseStep::Next(if m + 1 < path.len() { path[m + 1] } else { current }));
        if m + 1 < path.len() {
            lemma_walk_along(g, path, current, m + 1, (f - 1) as nat);
        }
    }
}

proof fn lemma_cycle(g: &ValueGraph, path: Seq<ValueId>, current: ValueId, j: int, f: nat)
    requires
        walk_path(g, path, current),
        0 <= j < path.len(),
        path[j] == current,
    ensures
        base_walk(g, current, f) is None,
    decreases f,
{
    lemma_walk_along(g, path, current, j, f);
    if f >= path.len() - j {
        lemma_cycle(g, path, current, j, (f - (path.len() - j)) as nat);
    }
}

/// The object `address` is derived from through pointer arithmetic: a stack
/// allocation, a global, or a parameter of the function, and nothing else.
pub fn object_base(g: &ValueGraph, address: ValueId) -> (r: Option<Base>)
    requires
        g.well_formed(),
        (address.0 as int) < g.sources@.len(),
    ensures
        r == spec_object_base(g, address),
{
    let n = g.sources.len();
    let mut seen: Vec<bool> = Vec::new();
    let mut k: usize = 0;
    while k < n
        invariant
            k <= n,
            n == g.sources@.len(),
            seen@.len() == k,
            forall|q: int| 0 <= q < k ==> !seen@[q],
        decreases n - k,
    {
        seen.push(false);
        k = k + 1;
    }
    proof {
        assert(unseen(seen@) == n) by {
            lemma_unseen_all(seen@);
        }
    }
    let mut current = address;
    let ghost mut path: Seq<ValueId> = Seq::empty();
    loop
        invariant
            g.well_formed(),
            n == g.sources@.len(),
            seen@.len() == n,
            (current.0 as int) < n,
            walk_path(g, path, current),
            forall|v: ValueId| (v.0 as int) < n ==> (#[trigger] seen@[v.0 as int] <==> path.contains(v)),
            unseen(seen@) + path.len() == n,
            base_walk(g, address, (n + 1) as nat) == base_walk(g, current, (n + 1 - path.len()) as nat),
        decreases unseen(seen@),
    {
        if seen[current.0 as usize] {
            proof {
                assert(path.contains(current));
                let j = choose|j: int| 0 <= j < path.len() && path[j] == current;
                lemma_cycle(g, path, current, j, (n + 1 - path.len()) as nat);
            }
            return None;
        }
        proof {
            lemma_unseen_mark(seen@, current.0 as int);
        }
        seen.set(current.0 as usize, true);
        let ghost old_path = path;
        proof {
            path = path.push(current);
        }
        let next = match g.sources[current.0 as usize] {
            ValueSource::Parameter { noalias } => {
                return Some(Base::Param { pointer: current, noalias });
            },
            ValueSource::Other => {
                return None;
            },
            ValueSource::Result(op) => {
                if op.0 as usize >= g.ops.len() {
                    return None;
                }
                match &g.ops[op.0 as usize] {
                    None => {
                        return None;
                    },
                    Some(o) => {
                        proof {
                            assert(g.op(op.0 as int) == Some(*o));
                            assert(op_within(*o, n as nat));
                        }
                        if o.class == OpClass::PtrAdd {
                            o.operands[0]
                        } else if o.allocation.is_some() {
                            return Some(Base::Alloca(current));
                        } else if o.class == OpClass::Global {
                            return Some(Base::Global(current));
                        } else {
                            match o.handle.memory_read {
                                Some(rd) => {
                                    if rd.value != current {
                                        return None;
                                    }
                                    match only_pointer_held(g, rd.location) {
                                        Some(h) => h,
                                        None => {
                                            return None;
                                        },
                                    }
                                },
                                None => {
                                    return None;
                                },
                            }
                        }
                    },
                }
            },
        };
        proof {
            assert(base_step(g, current) == BaseStep::Next(next));
            assert(walk_path(g, path, next)) by {
                assert forall|j: int| 0 <= j < path.len() implies base_step(g, #[trigger] path[j]) == BaseStep::Next(if j + 1 < path.len() { path[j + 1] } else { next }) by {
                    if j + 1 < path.len() {
                        assert(path[j] == old_path[j]);
                        assert(base_step(g, old_path[j]) == BaseStep::Next(if j + 1 < old_path.len() { old_path[j + 1] } else { current }));
                    }
                }
            }
            assert forall|v: ValueId| (v.0 as int) < n implies (#[trigger] seen@[v.0 as int] <==> path.contains(v)) by {
                if v == current {
                    assert(path[path.len() - 1] == current);
                } else {
                    if old_path.contains(v) {
                        let j = choose|j: int| 0 <= j < old_path.len() && old_path[j] == v;
                        assert(path[j] == v);
                    }
                    if path.contains(v) {
                        let j = choose|j: int| 0 <= j < path.len() && path[j] == v;
                        assert(old_path[j] == v);
                    }
                }
            }
            assert(path.len() <= n);
            assert(base_walk(g, current, (n + 1 - old_path.len()) as nat) == base_walk(g, next, (n + 1 - path.len()) as nat));
            assert(g.sources@[next.0 as int] == g.sources@[next.0 as int]);
        }
        proof {
            lemma_step_in_range(g, current, next);
        }
        current = next;
    }
}

proof fn lemma_step_in_range(g: &ValueGraph, v: ValueId, next: ValueId)
    requires
        g.well_formed(),
        (v.0 as int) < g.sources@.len(),
        base_step(g, v) == BaseStep::Next(next),
    ensures
        (next.0 as int) < g.sources@.len(),
{
    match g.sources@[v.0 as int] {
        ValueSource::Result(op) => {
            let o = g.op(op.0 as int)->0;
            assert(g.ops@[op.0 as int] is Some);
            assert(op_within(o, g.sources@.len()));
            if o.class != OpClass::PtrAdd {
                let rd = o.handle.memory_read->0;
                let ws = writers(g, rd.location, g.ops@.len() as int);
                lemma_writers_in_range(g, rd.location, g.ops@.len() as int);
                assert(ws[0] == next);
            } else {
                assert(o.operands@[0] == next);
            }
        },
        _ => {},
    }
}

proof fn lemma_writers_in_range(g: &ValueGraph, slot: ValueId, upto: int)
    requires
        g.well_formed(),
    ensures
        forall|k: int| 0 <= k < writers(g, slot, upto).len() ==> (#[trigger] writers(g, slot, upto)[k]).0 < g.sources@.len(),
    decreases upto,
{
    if upto > 0 {
        lemma_writers_in_range(g, slot, upto - 1);
        match g.op(upto - 1) {
            Some(op) => {
                assert(g.ops@[upto - 1] is Some);
                assert(op_within(op, g.sources@.len()));
                let prev = writers(g, slot, upto - 1);
                if uses(op, slot) && op.handle.memory_write is Some {
                    let w = writers(g, slot, upto);
                    assert forall|k: int| 0 <= k < w.len() implies (#[trigger] w[k]).0 < g.sources@.len() by {
                        if k < prev.len() {
                            assert(w[k] == prev[k]);
                        }
                    }
                }
            },
            None => {},
        }
    }
}

proof fn lemma_unseen_all(seen: Seq<bool>)
    requires
        forall|q: int| 0 <= q < seen.len() ==> !seen[q],
    ensures
        unseen(seen) == seen.len(),
    decreases seen.len(),
{
    if seen.len() > 0 {
        lemma_unseen_all(seen.drop_last());
    }
}

} // verus!
