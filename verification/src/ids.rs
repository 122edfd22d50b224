use vstd::prelude::*;

verus! {

/// A basic block, named by its dense index in the context's block slab.
#[derive(Clone, Copy, Debug, PartialEq, Eq, PartialOrd, Ord, Hash, Structural)]
pub struct BlockId(pub u32);

/// An SSA value, named by its dense index.
#[derive(Clone, Copy, Debug, PartialEq, Eq, PartialOrd, Ord, Hash, Structural)]
pub struct ValueId(pub u32);

/// An operation, named by its dense index.
#[derive(Clone, Copy, Debug, PartialEq, Eq, PartialOrd, Ord, Hash, Structural)]
pub struct OpId(pub u32);

/// A region, named by its dense index.
#[derive(Clone, Copy, Debug, PartialEq, Eq, PartialOrd, Ord, Hash, Structural)]
pub struct RegionId(pub u32);

/// An interned type, named by its index in the context's type table.
#[derive(Clone, Copy, Debug, PartialEq, Eq, PartialOrd, Ord, Hash, Structural)]
pub struct TypeId(pub u32);

impl BlockId {
    pub fn new(id: u32) -> (r: Self)
        ensures
            r.0 == id,
    {
        BlockId(id)
    }

    pub fn number(&self) -> (r: u32)
        ensures
            r == self.0,
    {
        self.0
    }

    pub fn from_number(n: u32) -> (r: Self)
        ensures
            r.0 == n,
    {
        BlockId(n)
    }

    /// The block's position in the block slab.
    pub fn index(self) -> (r: usize)
        ensures
            r == self.0,
    {
        self.0 as usize
    }
}

impl ValueId {
    pub fn from_number(n: u32) -> (r: Self)
        ensures
            r.0 == n,
    {
        ValueId(n)
    }

    pub fn number(&self) -> (r: u32)
        ensures
            r == self.0,
    {
        self.0
    }
}

/// An element-for-element copy of a list of plain ids.
pub fn copy_vec<T: Copy>(v: &Vec<T>) -> (r: Vec<T>)
    ensures
        r@ == v@,
{
    let mut out: Vec<T> = Vec::new();
    let mut k: usize = 0;
    while k < v.len()
        invariant
            k <= v@.len(),
            out@ == v@.subrange(0, k as int),
        decreases v.len() - k,
    {
        out.push(v[k]);
        assert(out@ =~= v@.subrange(0, k + 1));
        k = k + 1;
    }
    assert(v@.subrange(0, v@.len() as int) =~= v@);
    out
}

} // verus!
