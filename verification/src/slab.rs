//! Slab arenas indexed by dense ids: the context's storage for operations,
//! values, regions and blocks.
use vstd::prelude::*;

verus! {

/// The entry at `idx`, if one was inserted there and not removed.
pub open spec fn slab_entry<T>(slab: Seq<Option<T>>, idx: int) -> Option<T> {
    if 0 <= idx < slab.len() {
        slab[idx]
    } else {
        None
    }
}

/// Read an entry from a slab arena indexed by a dense id, or `None` if the
/// id was never inserted or has been removed.
pub fn slab_get<T>(slab: &[Option<T>], idx: usize) -> (r: Option<&T>)
    ensures
        match slab_entry(slab@, idx as int) {
            Some(v) => r matches Some(x) && *x == v,
            None => r is None,
        },
{
    if idx < slab.len() {
        match &slab[idx] {
            Some(v) => Some(v),
            None => None,
        }
    } else {
        None
    }
}

/// Mutable counterpart of [`slab_get`], for in-place edits.
pub fn slab_get_mut<T>(slab: &mut Vec<Option<T>>, idx: usize) -> (r: Option<&mut T>)
    ensures
        match slab_entry(old(slab)@, idx as int) {
            Some(v) => r matches Some(x) && *x == v && final(slab)@ == old(slab)@.update(idx as int, Some(*final(x))),
            None => r is None && final(slab)@ == old(slab)@,
        },
{
    if idx < slab.len() {
        match &mut slab[idx] {
            Some(v) => Some(v),
            None => None,
        }
    } else {
        None
    }
}

/// The slab after inserting `val` at `idx`: grown with empty entries up to
/// `idx` where it was shorter.
pub open spec fn slab_after_put<T>(slab: Seq<Option<T>>, idx: int, val: T) -> Seq<Option<T>> {
    let grown = if idx < slab.len() {
        slab
    } else {
        slab + Seq::new((idx + 1 - slab.len()) as nat, |i: int| None::<T>)
    };
    grown.update(idx, Some(val))
}

/// Insert into a slab arena at a dense id, growing the backing vector as
/// needed.
pub fn slab_put<T>(slab: &mut Vec<Option<T>>, idx: usize, val: T)
    requires
        idx < usize::MAX,
    ensures
        final(slab)@ == slab_after_put(old(slab)@, idx as int, val),
{
    let ghost start = slab@;
    if idx >= slab.len() {
        while slab.len() <= idx
            invariant
                start.len() <= slab@.len() <= idx + 1,
                idx >= start.len(),
                slab@ == start + Seq::new((slab@.len() - start.len()) as nat, |i: int| None::<T>),
            decreases idx + 1 - slab.len(),
        {
            let ghost before = slab@;
            slab.push(None);
            assert(slab@ =~= start + Seq::new((slab@.len() - start.len()) as nat, |i: int| None::<T>));
        }
    }
    slab.set(idx, Some(val));
    assert(slab@ =~= slab_after_put(start, idx as int, val));
}

/// After a put, the entry at `idx` is the value put and every other entry is
/// as it was.
pub proof fn lemma_slab_after_put<T>(slab: Seq<Option<T>>, idx: int, val: T)
    requires
        0 <= idx,
    ensures
        forall|j: int| #[trigger] slab_entry(slab_after_put(slab, idx, val), j) == if j == idx { Some(val) } else { slab_entry(slab, j) },
{
    let after = slab_after_put(slab, idx, val);
    assert forall|j: int| #[trigger] slab_entry(after, j) == if j == idx { Some(val) } else { slab_entry(slab, j) } by {
        if j != idx && 0 <= j && j < after.len() && j >= slab.len() {
            assert(after[j] == (slab + Seq::new((idx + 1 - slab.len()) as nat, |i: int| None::<T>))[j]);
        }
    }
}

} // verus!
