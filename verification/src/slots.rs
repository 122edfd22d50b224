//! Stack-slot classification: which allocations a pass may treat as values.
use vstd::prelude::*;

use crate::effects::{access_of, spec_access_of};
use crate::ids::{copy_vec, OpId, TypeId, ValueId};
use crate::value_graph::{op_within, OpClass, ValueGraph, ValueSource};

verus! {

/// What is known about one allocated stack slot across the operations it was
/// collected from.
#[derive(Debug)]
pub struct SlotState {
    /// The allocation that opens the slot, if it was among the collected ops.
    pub alloca: Option<OpId>,
    /// Every write into the slot, whether it names the slot itself or a
    /// pointer derived from it.
    pub stores: Vec<OpId>,
    /// Every read of the slot, named the same two ways.
    pub loads: Vec<OpId>,
    /// The slot's address travels somewhere the analysis cannot follow.
    pub escapes: bool,
}

impl Default for SlotState {
    fn default() -> (r: Self)
        ensures
            r.alloca is None,
            r.stores@.len() == 0,
            r.loads@.len() == 0,
            !r.escapes,
    {
        SlotState { alloca: None, stores: Vec::new(), loads: Vec::new(), escapes: false }
    }
}

/// Where the pointer arithmetic leading to `v` starts, within `fuel` steps.
pub open spec fn ptr_root(g: &ValueGraph, v: ValueId, fuel: nat) -> Option<ValueId>
    decreases fuel,
{
    match g.sources@[v.0 as int] {
        ValueSource::Result(op) => match g.op(op.0 as int) {
            Some(o) => if o.class == OpClass::PtrAdd {
                if fuel == 0 { None } else { ptr_root(g, o.operands@[0], (fuel - 1) as nat) }
            } else {
                Some(v)
            },
            None => None,
        },
        _ => Some(v),
    }
}

/// The chain of pointer arithmetic leading to `v` has a start.
pub open spec fn chain_ends(g: &ValueGraph, v: ValueId) -> bool {
    exists|f: nat| #[trigger] ptr_root(g, v, f) is Some
}

/// The allocation a pointer names: the start of the pointer arithmetic
/// leading to it.
pub open spec fn spec_slot_base(g: &ValueGraph, v: ValueId) -> ValueId {
    ptr_root(g, v, choose|f: nat| #[trigger] ptr_root(g, v, f) is Some)->0
}

proof fn lemma_ptr_root_fuel(g: &ValueGraph, v: ValueId, f: nat, h: nat)
    requires
        g.well_formed(),
        (v.0 as int) < g.sources@.len(),
        ptr_root(g, v, f) is Some,
        ptr_root(g, v, h) is Some,
    ensures
        ptr_root(g, v, f) == ptr_root(g, v, h),
    decreases f,
{
    match g.sources@[v.0 as int] {
        ValueSource::Result(op) => {
            let o = g.op(op.0 as int)->0;
            if o.class == OpClass::PtrAdd {
                assert(g.ops@[op.0 as int] is Some);
                assert(op_within(o, g.sources@.len()));
                lemma_ptr_root_fuel(g, o.operands@[0], (f - 1) as nat, (h - 1) as nat);
            }
        },
        _ => {},
    }
}

/// The allocation a pointer names: arithmetic on a pointer points into the
/// object it started from, so the chain of `ptradd`s reads back to it.
pub fn slot_base(g: &ValueGraph, pointer: ValueId) -> (r: ValueId)
    requires
        g.well_formed(),
        (pointer.0 as int) < g.sources@.len(),
        chain_ends(g, pointer),
    ensures
        r == spec_slot_base(g, pointer),
{
    let ghost f = choose|f: nat| #[trigger] ptr_root(g, pointer, f) is Some;
    let mut base = pointer;
    let ghost mut fuel: nat = f;
    loop
        invariant
            g.well_formed(),
            (base.0 as int) < g.sources@.len(),
            ptr_root(g, base, fuel) == ptr_root(g, pointer, f),
            ptr_root(g, pointer, f) is Some,
            f == choose|f: nat| #[trigger] ptr_root(g, pointer, f) is Some,
        ensures
            ptr_root(g, pointer, f) == Some(base),
        decreases fuel,
    {
        match g.sources[base.0 as usize] {
            ValueSource::Result(op) => {
                proof {
                    assert(g.op(op.0 as int) is Some);
                }
                match &g.ops[op.0 as usize] {
                    Some(o) => {
                        if o.class != OpClass::PtrAdd {
                            break;
                        }
                        proof {
                            assert(g.op(op.0 as int) == Some(*o));
                            assert(op_within(*o, g.sources@.len()));
                            fuel = (fuel - 1) as nat;
                        }
                        base = o.operands[0];
                    },
                    None => {
                        break;
                    },
                }
            },
            _ => {
                break;
            },
        }
    }
    base
}

/// The operations of `ids` (in order) that open the slot `v`.
pub open spec fn allocs(g: &ValueGraph, ids: Seq<OpId>, v: ValueId) -> Seq<OpId>
    decreases ids.len(),
{
    if ids.len() == 0 {
        Seq::empty()
    } else {
        let p = allocs(g, ids.drop_last(), v);
        match g.op(ids.last().0 as int) {
            Some(o) => if o.allocation == Some(v) { p.push(ids.last()) } else { p },
            None => p,
        }
    }
}

/// The operations of `ids` (in order) other than allocations that write
/// (or, for `write` false, read) a location whose allocation is `v`.
pub open spec fn accesses(g: &ValueGraph, ids: Seq<OpId>, v: ValueId, write: bool) -> Seq<OpId>
    decreases ids.len(),
{
    if ids.len() == 0 {
        Seq::empty()
    } else {
        let p = accesses(g, ids.drop_last(), v, write);
        match g.op(ids.last().0 as int) {
            Some(o) => if o.allocation is None && (spec_access_of(&o.handle) matches Some(a) && a.write == write && spec_slot_base(g, a.location) == v) {
                p.push(ids.last())
            } else {
                p
            },
            None => p,
        }
    }
}

/// Every operation of `ids` is live, and every access among them reads back
/// to an allocation.
pub open spec fn ids_fit(g: &ValueGraph, ids: Seq<OpId>) -> bool {
    forall|k: int| 0 <= k < ids.len() ==> {
        let op = g.op((#[trigger] ids[k]).0 as int);
        &&& op is Some
        &&& (spec_access_of(&op->0.handle) matches Some(a) ==> chain_ends(g, a.location))
    }
}

/// What is known of slot `v` across `ids`: nothing if none of them opens
/// it; else its last allocation, its writes and reads in order, and
/// whether its address escapes.
pub open spec fn slot_matches(s: Option<SlotState>, g: &ValueGraph, ids: Seq<OpId>, local: Seq<bool>, v: ValueId) -> bool {
    let opened = allocs(g, ids, v);
    if opened.len() == 0 {
        s is None
    } else {
        s matches Some(st) && st.alloca == Some(opened.last()) && st.stores@ == accesses(g, ids, v, true)
            && st.loads@ == accesses(g, ids, v, false) && st.escapes == !local[v.0 as int]
    }
}

/// Collect every load and store among `op_ids` against the slots the
/// allocations among them open, by slot (the pointer the allocation
/// opens), reading each slot's escape verdict off `local` (whether each
/// value's address stays local, by value number).
pub fn collect_slots(g: &ValueGraph, local: &Vec<bool>, op_ids: &Vec<OpId>) -> (r: Vec<Option<SlotState>>)
    requires
        g.well_formed(),
        local@.len() == g.sources@.len(),
        g.sources@.len() <= u32::MAX + 1,
        ids_fit(g, op_ids@),
    ensures
        r@.len() == g.sources@.len(),
        forall|w: int| 0 <= w < r@.len() ==> slot_matches(#[trigger] r@[w], g, op_ids@, local@, ValueId(w as u32)),
{
    let n = g.sources.len();
    let mut alloca: Vec<Option<OpId>> = Vec::new();
    let mut stores: Vec<Vec<OpId>> = Vec::new();
    let mut loads: Vec<Vec<OpId>> = Vec::new();
    let mut k: usize = 0;
    while k < n
        invariant
            k <= n,
            n == g.sources@.len(),
            alloca@.len() == k,
            stores@.len() == k,
            loads@.len() == k,
            forall|q: int| 0 <= q < k ==> (#[trigger] alloca@[q]) is None,
            forall|q: int| 0 <= q < k ==> (#[trigger] stores@[q])@.len() == 0,
            forall|q: int| 0 <= q < k ==> (#[trigger] loads@[q])@.len() == 0,
        decreases n - k,
    {
        alloca.push(None);
        stores.push(Vec::new());
        loads.push(Vec::new());
        k = k + 1;
    }
    assert(op_ids@.subrange(0, 0) =~= Seq::<OpId>::empty());
    let mut i: usize = 0;
    while i < op_ids.len()
        invariant
            i <= op_ids@.len(),
            n == g.sources@.len(),
            g.well_formed(),
            ids_fit(g, op_ids@),
            alloca@.len() == n,
            forall|w: int| 0 <= w < n ==> (#[trigger] alloca@[w]) == {
                let opened = allocs(g, op_ids@.subrange(0, i as int), ValueId(w as u32));
                if opened.len() == 0 { None } else { Some(opened.last()) }
            },
            n <= u32::MAX + 1,
        decreases op_ids.len() - i,
    {
        proof {
            assert(op_ids@.subrange(0, i + 1).drop_last() =~= op_ids@.subrange(0, i as int));
            assert(g.op(op_ids@[i as int].0 as int) is Some);
        }
        let id = op_ids[i];
        match &g.ops[id.0 as usize] {
            Some(op) => {
                proof {
                    assert(g.op(id.0 as int) == Some(*op));
                    assert(op_within(*op, n as nat));
                }
                match op.allocation {
                    Some(p) => {
                        alloca.set(p.0 as usize, Some(id));
                    },
                    None => {},
                }
            },
            None => {},
        }
        i = i + 1;
    }
    assert(op_ids@.subrange(0, op_ids@.len() as int) =~= op_ids@);
    assert(op_ids@.subrange(0, 0) =~= Seq::<OpId>::empty());
    assert forall|w: int| 0 <= w < n implies (#[trigger] stores@[w])@ == if alloca@[w] is Some { accesses(g, op_ids@.subrange(0, 0), ValueId(w as u32), true) } else { Seq::empty() } by {
        assert(stores@[w]@ =~= Seq::<OpId>::empty());
    }
    assert forall|w: int| 0 <= w < n implies (#[trigger] loads@[w])@ == if alloca@[w] is Some { accesses(g, op_ids@.subrange(0, 0), ValueId(w as u32), false) } else { Seq::empty() } by {
        assert(loads@[w]@ =~= Seq::<OpId>::empty());
    }
    let mut i: usize = 0;
    while i < op_ids.len()
        invariant
            i <= op_ids@.len(),
            n == g.sources@.len(),
            g.well_formed(),
            ids_fit(g, op_ids@),
            n <= u32::MAX + 1,
            alloca@.len() == n,
            stores@.len() == n,
            loads@.len() == n,
            forall|w: int| 0 <= w < n ==> (#[trigger] alloca@[w]) == {
                let opened = allocs(g, op_ids@, ValueId(w as u32));
                if opened.len() == 0 { None } else { Some(opened.last()) }
            },
            forall|w: int| 0 <= w < n ==> (#[trigger] stores@[w])@ == if alloca@[w] is Some { accesses(g, op_ids@.subrange(0, i as int), ValueId(w as u32), true) } else { Seq::empty() },
            forall|w: int| 0 <= w < n ==> (#[trigger] loads@[w])@ == if alloca@[w] is Some { accesses(g, op_ids@.subrange(0, i as int), ValueId(w as u32), false) } else { Seq::empty() },
        decreases op_ids.len() - i,
    {
        proof {
            assert(op_ids@.subrange(0, i + 1).drop_last() =~= op_ids@.subrange(0, i as int));
            assert(g.op(op_ids@[i as int].0 as int) is Some);
        }
        let id = op_ids[i];
        let ghost st = stores@;
        let ghost ld = loads@;
        match &g.ops[id.0 as usize] {
            Some(op) => {
                proof {
                    assert(g.op(id.0 as int) == Some(*op));
                    assert(op_within(*op, n as nat));
                }
                if op.allocation.is_none() {
                    match access_of(&op.handle) {
                        Some(access) => {
                            proof {
                                assert(chain_ends(g, access.location));
                                lemma_access_in_range(g, id.0 as int);
                            }
                            let base = slot_base(g, access.location);
                            proof {
                                lemma_slot_base_in_range(g, access.location);
                            }
                            if alloca[base.0 as usize].is_some() {
                                if access.write {
                                    let mut row = copy_vec(&stores[base.0 as usize]);
                                    row.push(id);
                                    stores.set(base.0 as usize, row);
                                } else {
                                    let mut row = copy_vec(&loads[base.0 as usize]);
                                    row.push(id);
                                    loads.set(base.0 as usize, row);
                                }
                            }
                        },
                        None => {},
                    }
                }
            },
            None => {},
        }
        proof {
            assert forall|w: int| 0 <= w < n implies (#[trigger] stores@[w])@ == if alloca@[w] is Some { accesses(g, op_ids@.subrange(0, i + 1), ValueId(w as u32), true) } else { Seq::empty() } by {
                assert(ValueId(w as u32).0 == w);
            }
            assert forall|w: int| 0 <= w < n implies (#[trigger] loads@[w])@ == if alloca@[w] is Some { accesses(g, op_ids@.subrange(0, i + 1), ValueId(w as u32), false) } else { Seq::empty() } by {
                assert(ValueId(w as u32).0 == w);
            }
        }
        i = i + 1;
    }
    assert(op_ids@.subrange(0, op_ids@.len() as int) =~= op_ids@);
    let mut out: Vec<Option<SlotState>> = Vec::new();
    let mut w: usize = 0;
    while w < n
        invariant
            w <= n,
            n == g.sources@.len(),
            n <= u32::MAX + 1,
            local@.len() == n,
            alloca@.len() == n,
            stores@.len() == n,
            loads@.len() == n,
            forall|v: int| 0 <= v < n ==> (#[trigger] alloca@[v]) == {
                let opened = allocs(g, op_ids@, ValueId(v as u32));
                if opened.len() == 0 { None } else { Some(opened.last()) }
            },
            forall|v: int| 0 <= v < n ==> (#[trigger] stores@[v])@ == if alloca@[v] is Some { accesses(g, op_ids@, ValueId(v as u32), true) } else { Seq::empty() },
            forall|v: int| 0 <= v < n ==> (#[trigger] loads@[v])@ == if alloca@[v] is Some { accesses(g, op_ids@, ValueId(v as u32), false) } else { Seq::empty() },
            out@.len() == w,
            forall|v: int| 0 <= v < w ==> slot_matches(#[trigger] out@[v], g, op_ids@, local@, ValueId(v as u32)),
        decreases n - w,
    {
        let entry = match alloca[w] {
            Some(a) => Some(SlotState { alloca: Some(a), stores: copy_vec(&stores[w]), loads: copy_vec(&loads[w]), escapes: !local[w] }),
            None => None,
        };
        out.push(entry);
        proof {
            assert(ValueId(w as u32).0 == w);
        }
        w = w + 1;
    }
    out
}

proof fn lemma_access_in_range(g: &ValueGraph, i: int)
    requires
        g.well_formed(),
        g.op(i) is Some,
    ensures
        spec_access_of(&g.op(i)->0.handle) matches Some(a) ==> (a.location.0 as int) < g.sources@.len(),
{
    assert(g.ops@[i] is Some);
    assert(op_within(g.op(i)->0, g.sources@.len()));
}

proof fn lemma_slot_base_in_range(g: &ValueGraph, v: ValueId)
    requires
        g.well_formed(),
        (v.0 as int) < g.sources@.len(),
        chain_ends(g, v),
    ensures
        (spec_slot_base(g, v).0 as int) < g.sources@.len(),
{
    let f = choose|f: nat| #[trigger] ptr_root(g, v, f) is Some;
    lemma_ptr_root_range(g, v, f);
}

proof fn lemma_ptr_root_range(g: &ValueGraph, v: ValueId, f: nat)
    requires
        g.well_formed(),
        (v.0 as int) < g.sources@.len(),
        ptr_root(g, v, f) is Some,
    ensures
        ((ptr_root(g, v, f)->0).0 as int) < g.sources@.len(),
    decreases f,
{
    match g.sources@[v.0 as int] {
        ValueSource::Result(op) => {
            let o = g.op(op.0 as int)->0;
            if o.class == OpClass::PtrAdd {
                assert(g.ops@[op.0 as int] is Some);
                assert(op_within(o, g.sources@.len()));
                lemma_ptr_root_range(g, o.operands@[0], (f - 1) as nat);
            }
        },
        _ => {},
    }
}

/// The type of the value the access of operation `id` names.
pub open spec fn access_type(g: &ValueGraph, id: OpId) -> TypeId {
    g.types@[spec_access_of(&g.op(id.0 as int)->0.handle)->0.value.0 as int]
}

/// The one type every access in `ops` names, if they agree; none for no
/// accesses.
pub open spec fn agreed_type(g: &ValueGraph, ops: Seq<OpId>) -> Option<TypeId> {
    if ops.len() == 0 {
        None
    } else if forall|k: int| 0 <= k < ops.len() ==> access_type(g, #[trigger] ops[k]) == access_type(g, ops[0]) {
        Some(access_type(g, ops[0]))
    } else {
        None
    }
}

/// Every operation of `ops` is live and names an access.
pub open spec fn accesses_named(g: &ValueGraph, ops: Seq<OpId>) -> bool {
    forall|k: int| 0 <= k < ops.len() ==> {
        let op = g.op((#[trigger] ops[k]).0 as int);
        op is Some && spec_access_of(&op->0.handle) is Some
    }
}

/// The one type the slot's loads and stores name, or `None` where they
/// disagree or there are none: promotion carries a single value per slot,
/// so a slot whose accesses disagree on type has no type to give it.
pub fn agreed_value_type(g: &ValueGraph, state: &SlotState) -> (r: Option<TypeId>)
    requires
        g.well_formed(),
        accesses_named(g, state.loads@ + state.stores@),
    ensures
        r == agreed_type(g, state.loads@ + state.stores@),
{
    let ghost all = state.loads@ + state.stores@;
    proof {
        assert forall|j: int| 0 <= j < state.loads@.len() implies all[j] == state.loads@[j] by {}
        assert forall|j: int| 0 <= j < state.stores@.len() implies all[state.loads@.len() + j] == state.stores@[j] by {}
    }
    let first = match agree_over(g, &state.loads, None, Ghost(all), Ghost(0)) {
        Ok(f) => f,
        Err(()) => {
            return None;
        },
    };
    match agree_over(g, &state.stores, first, Ghost(all), Ghost(state.loads@.len() as int)) {
        Ok(f) => {
            assert(state.loads@.len() + state.stores@.len() == all.len());
            f
        },
        Err(()) => None,
    }
}

fn agree_over(g: &ValueGraph, ids: &Vec<OpId>, first: Option<TypeId>, Ghost(all): Ghost<Seq<OpId>>, Ghost(offset): Ghost<int>) -> (r: Result<Option<TypeId>, ()>)
    requires
        g.well_formed(),
        accesses_named(g, all),
        0 <= offset,
        offset + ids@.len() <= all.len(),
        forall|j: int| 0 <= j < ids@.len() ==> all[offset + j] == ids@[j],
        offset == 0 ==> first is None,
        offset > 0 ==> first == Some(access_type(g, all[0])),
        forall|j: int| 0 <= j < offset ==> access_type(g, #[trigger] all[j]) == access_type(g, all[0]),
    ensures
        match r {
            Ok(f) => {
                &&& offset + ids@.len() == 0 ==> f is None
                &&& offset + ids@.len() > 0 ==> f == Some(access_type(g, all[0]))
                &&& forall|j: int| 0 <= j < offset + ids@.len() ==> access_type(g, #[trigger] all[j]) == access_type(g, all[0])
            },
            Err(()) => exists|j: int| 0 <= j < offset + ids@.len() && access_type(g, #[trigger] all[j]) != access_type(g, all[0]),
        },
{
    let mut first = first;
    let mut k: usize = 0;
    while k < ids.len()
        invariant
            k <= ids@.len(),
            g.well_formed(),
            accesses_named(g, all),
            0 <= offset,
            offset + ids@.len() <= all.len(),
            forall|j: int| 0 <= j < ids@.len() ==> all[offset + j] == ids@[j],
            offset + k == 0 ==> first is None,
            offset + k > 0 ==> first == Some(access_type(g, all[0])),
            forall|j: int| 0 <= j < offset + k ==> access_type(g, #[trigger] all[j]) == access_type(g, all[0]),
        decreases ids.len() - k,
    {
        let id = ids[k];
        proof {
            assert(all[offset + k] == id);
            assert(g.op(all[offset + k].0 as int) is Some);
            assert(g.ops@[id.0 as int] is Some);
            assert(op_within(g.op(id.0 as int)->0, g.sources@.len()));
        }
        let op = match &g.ops[id.0 as usize] {
            Some(o) => o,
            None => {
                return Err(());
            },
        };
        proof {
            assert(g.op(id.0 as int) == Some(*op));
        }
        let named = match access_of(&op.handle) {
            Some(a) => a,
            None => {
                return Err(());
            },
        };
        let ty = g.types[named.value.0 as usize];
        proof {
            assert(access_type(g, all[offset + k]) == ty);
        }
        match first {
            None => {
                first = Some(ty);
            },
            Some(f) => {
                if f != ty {
                    return Err(());
                }
            },
        }
        k = k + 1;
    }
    Ok(first)
}

} // verus!
