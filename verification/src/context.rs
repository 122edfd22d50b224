//! The context: the owner of every operation, value, region and block, held
//! in slabs indexed by dense ids, with the reverse links a walk climbs by
//! (the block holding each op, the region holding each block, the block
//! whose argument a value is) and a structural version per op.
//!
//! Every tree edit bumps the version of the edited op's owner and of every
//! op enclosing it, up to the root, so an analysis keyed on any ancestor
//! sees the edit; and it records the owner's subtree as dirty.
use vstd::prelude::*;

use crate::attributes::{attr_index, find_attr, AttributeRole, AttributeValue, NamedAttribute, RegisterAttr};
use crate::ids::{BlockId, OpId, RegionId, TypeId, ValueId};
use crate::slab::{lemma_slab_after_put, slab_after_put, slab_entry, slab_get, slab_get_mut, slab_put};

verus! {

/// A value: its id, its type, and the operation defining it, if any.
#[derive(Clone, Copy, Debug, PartialEq, Eq, Structural)]
pub struct Value {
    pub id: ValueId,
    pub ty: TypeId,
    pub defining_op: Option<OpId>,
}

/// A basic block: its arguments, its operations in order, and its
/// attributes.
pub struct Block {
    pub id: BlockId,
    pub arguments: Vec<ValueId>,
    pub operations: Vec<OpId>,
    pub attributes: Vec<NamedAttribute>,
}

/// A region: its blocks in order and the operation owning it.
pub struct Region {
    pub id: RegionId,
    pub blocks: Vec<BlockId>,
    pub parent_op: Option<OpId>,
}

/// An operation: its name, operands, results, regions and attributes.
pub struct OpInstance {
    pub id: OpId,
    pub dialect: String,
    pub name: String,
    pub operands: Vec<ValueId>,
    pub results: Vec<ValueId>,
    pub regions: Vec<RegionId>,
    pub attributes: Vec<NamedAttribute>,
}

/// The owner of all IR entities.
pub struct Context {
    operations: Vec<Option<OpInstance>>,
    last_op_id: u32,
    values: Vec<Option<Value>>,
    last_value_id: u32,
    regions: Vec<Option<Region>>,
    last_region_id: u32,
    blocks: Vec<Option<Block>>,
    last_block_id: u32,
    /// The block holding each op, by op number.
    op_parent: Vec<Option<BlockId>>,
    /// The region holding each block, by block number.
    block_parent: Vec<Option<RegionId>>,
    /// The block whose argument list each value entered, by value number.
    value_block: Vec<Option<BlockId>>,
    /// The structural version of each op, by op number.
    op_version: Vec<u32>,
    /// The ops whose subtree an edit touched since the last drain.
    dirty_ops: Vec<OpId>,
}

impl Context {
    pub closed spec fn spec_op(&self, op: OpId) -> Option<OpInstance> {
        slab_entry(self.operations@, op.0 as int)
    }

    pub closed spec fn spec_value(&self, v: ValueId) -> Option<Value> {
        slab_entry(self.values@, v.0 as int)
    }

    pub closed spec fn spec_region(&self, r: RegionId) -> Option<Region> {
        slab_entry(self.regions@, r.0 as int)
    }

    pub closed spec fn spec_block(&self, b: BlockId) -> Option<Block> {
        slab_entry(self.blocks@, b.0 as int)
    }

    /// The block holding `op`.
    pub closed spec fn spec_parent_block(&self, op: OpId) -> Option<BlockId> {
        slab_entry(self.op_parent@, op.0 as int)
    }

    /// The region holding `block`.
    pub closed spec fn spec_parent_region(&self, block: BlockId) -> Option<RegionId> {
        slab_entry(self.block_parent@, block.0 as int)
    }

    /// The block whose argument `v` is.
    pub closed spec fn spec_value_block(&self, v: ValueId) -> Option<BlockId> {
        slab_entry(self.value_block@, v.0 as int)
    }

    /// The structural version of `op`: zero until its first edit.
    pub closed spec fn version(&self, op: OpId) -> nat {
        if (op.0 as int) < self.op_version@.len() {
            self.op_version@[op.0 as int] as nat
        } else {
            0
        }
    }

    /// The subtrees edited since the last drain, in order.
    pub closed spec fn dirty(&self) -> Seq<OpId> {
        self.dirty_ops@
    }

    /// The op enclosing `block`: the owner of the region holding it.
    pub open spec fn enclosing_op(&self, block: BlockId) -> Option<OpId> {
        match self.spec_parent_region(block) {
            Some(r) => match self.spec_region(r) {
                Some(region) => region.parent_op,
                None => None,
            },
            None => None,
        }
    }

    /// The op enclosing `op`, climbing out through its block and region.
    pub open spec fn enclosing_op_of(&self, op: OpId) -> Option<OpId> {
        match self.spec_parent_block(op) {
            Some(b) => self.enclosing_op(b),
            None => None,
        }
    }

    /// `op` and the ops enclosing it, innermost first, if the climb ends
    /// within `fuel` steps.
    pub open spec fn spine_within(&self, op: OpId, fuel: nat) -> Option<Seq<OpId>>
        decreases fuel,
    {
        if fuel == 0 {
            None
        } else {
            match self.enclosing_op_of(op) {
                None => Some(seq![op]),
                Some(parent) => match self.spine_within(parent, (fuel - 1) as nat) {
                    Some(rest) => Some(seq![op] + rest),
                    None => None,
                },
            }
        }
    }

    /// The climb out from `op` ends (the enclosing ops form no cycle).
    pub open spec fn spine_ends(&self, op: OpId) -> bool {
        exists|fuel: nat| #[trigger] self.spine_within(op, fuel) is Some
    }

    /// `op` and every op enclosing it, innermost first.
    pub open spec fn spine(&self, op: OpId) -> Seq<OpId> {
        self.spine_within(op, choose|fuel: nat| #[trigger] self.spine_within(op, fuel) is Some)->0
    }

    /// An edit to `op`'s subtree can be recorded: the climb out of it ends
    /// and no version on it is at its limit.
    pub open spec fn can_edit(&self, op: OpId) -> bool {
        &&& self.spine_ends(op)
        &&& forall|k: int| 0 <= k < self.spine(op).len() ==> self.version(#[trigger] self.spine(op)[k]) < u32::MAX
            && (self.spine(op)[k].0 as int) < usize::MAX
    }

    /// An edit to `block`'s contents can be recorded.
    pub open spec fn can_edit_block(&self, block: BlockId) -> bool {
        self.enclosing_op(block) matches Some(op) ==> self.can_edit(op)
    }

    /// The versions after an edit to `block`'s contents.
    pub open spec fn block_edited(&self, before: &Context, block: BlockId) -> bool {
        match before.enclosing_op(block) {
            Some(op) => self.bumped(before, op) && self.dirty() == Context::marked(before.dirty(), op),
            None => self.same_versions(before) && self.dirty() == before.dirty(),
        }
    }

    /// The op owning `region`, if the region exists and has one.
    pub open spec fn region_owner(&self, region: RegionId) -> Option<OpId> {
        match self.spec_region(region) {
            Some(r) => r.parent_op,
            None => None,
        }
    }

    /// The versions after an edit to `region`'s block list.
    pub open spec fn region_edited(&self, before: &Context, region: RegionId) -> bool {
        match before.region_owner(region) {
            Some(op) => self.bumped(before, op) && self.dirty() == Context::marked(before.dirty(), op),
            None => self.same_versions(before) && self.dirty() == before.dirty(),
        }
    }

    /// Every version as in `before`.
    pub open spec fn same_versions(&self, before: &Context) -> bool {
        forall|o: OpId| #[trigger] self.version(o) == before.version(o)
    }

    /// The id the next value created gets.
    pub closed spec fn next_value(&self) -> u32 {
        self.last_value_id
    }

    pub closed spec fn next_op(&self) -> u32 {
        self.last_op_id
    }

    pub closed spec fn next_region(&self) -> u32 {
        self.last_region_id
    }

    pub closed spec fn next_block(&self) -> u32 {
        self.last_block_id
    }

    /// Every operation as in `before`.
    pub open spec fn same_ops(&self, before: &Context) -> bool {
        forall|o: OpId| #[trigger] self.spec_op(o) == before.spec_op(o)
    }

    /// Every value as in `before`.
    pub open spec fn same_values(&self, before: &Context) -> bool {
        forall|v: ValueId| #[trigger] self.spec_value(v) == before.spec_value(v)
    }

    /// Every region as in `before`.
    pub open spec fn same_regions(&self, before: &Context) -> bool {
        forall|r: RegionId| #[trigger] self.spec_region(r) == before.spec_region(r)
    }

    /// Every block as in `before`.
    pub open spec fn same_blocks(&self, before: &Context) -> bool {
        forall|b: BlockId| #[trigger] self.spec_block(b) == before.spec_block(b)
    }

    /// Every parent link as in `before`.
    pub open spec fn same_links(&self, before: &Context) -> bool {
        &&& forall|o: OpId| #[trigger] self.spec_parent_block(o) == before.spec_parent_block(o)
        &&& forall|b: BlockId| #[trigger] self.spec_parent_region(b) == before.spec_parent_region(b)
        &&& forall|v: ValueId| #[trigger] self.spec_value_block(v) == before.spec_value_block(v)
    }

    /// The id counters as in `before`.
    pub open spec fn same_counters(&self, before: &Context) -> bool {
        &&& self.next_value() == before.next_value()
        &&& self.next_op() == before.next_op()
        &&& self.next_region() == before.next_region()
        &&& self.next_block() == before.next_block()
    }

    /// The IR itself (every slab, link and counter) as in `before`.
    pub closed spec fn same_structure(&self, before: &Context) -> bool {
        &&& self.operations@ == before.operations@
        &&& self.values@ == before.values@
        &&& self.regions@ == before.regions@
        &&& self.blocks@ == before.blocks@
        &&& self.op_parent@ == before.op_parent@
        &&& self.block_parent@ == before.block_parent@
        &&& self.value_block@ == before.value_block@
        &&& self.last_op_id == before.last_op_id
        &&& self.last_value_id == before.last_value_id
        &&& self.last_region_id == before.last_region_id
        &&& self.last_block_id == before.last_block_id
    }

    /// The versions after an edit to `op`'s subtree: each op on its spine
    /// one higher, every other op as before.
    pub open spec fn bumped(&self, before: &Context, op: OpId) -> bool {
        forall|o: OpId| #[trigger] self.version(o) == before.version(o) + if before.spine(op).contains(o) { 1nat } else { 0nat }
    }

    /// `dirty` with `op` recorded, unless it was the last one recorded.
    pub open spec fn marked(dirty: Seq<OpId>, op: OpId) -> Seq<OpId> {
        if dirty.len() > 0 && dirty.last() == op { dirty } else { dirty.push(op) }
    }
}

impl Context {
    /// The climb is the same whatever fuel lets it end.
    pub proof fn lemma_spine_fuel(&self, op: OpId, f: nat, g: nat)
        requires
            self.spine_within(op, f) is Some,
            self.spine_within(op, g) is Some,
        ensures
            self.spine_within(op, f) == self.spine_within(op, g),
        decreases f,
    {
        match self.enclosing_op_of(op) {
            None => {},
            Some(parent) => {
                self.lemma_spine_fuel(parent, (f - 1) as nat, (g - 1) as nat);
            },
        }
    }

    /// Each op of a climb climbs on to the next one, and the last is a root;
    /// from any op of it the climb is the rest of it.
    pub proof fn lemma_spine_shape(&self, op: OpId, f: nat)
        requires
            self.spine_within(op, f) is Some,
        ensures
            ({
                let s = self.spine_within(op, f)->0;
                &&& s.len() >= 1
                &&& s.len() <= f
                &&& s[0] == op
                &&& forall|k: int| 0 <= k < s.len() - 1 ==> self.enclosing_op_of(#[trigger] s[k]) == Some(s[k + 1])
                &&& self.enclosing_op_of(s.last()) is None
                &&& forall|k: int| 0 <= k < s.len() ==> self.spine_within(#[trigger] s[k], (f - k) as nat) == Some(s.subrange(k, s.len() as int))
            }),
        decreases f,
    {
        let s = self.spine_within(op, f)->0;
        match self.enclosing_op_of(op) {
            None => {
                assert(s =~= seq![op]);
                assert(s.subrange(0, 1) =~= s);
            },
            Some(parent) => {
                self.lemma_spine_shape(parent, (f - 1) as nat);
                let rest = self.spine_within(parent, (f - 1) as nat)->0;
                assert(s =~= seq![op] + rest);
                assert forall|k: int| 0 <= k < s.len() - 1 implies self.enclosing_op_of(#[trigger] s[k]) == Some(s[k + 1]) by {
                    if k > 0 {
                        assert(s[k] == rest[k - 1]);
                        assert(s[k + 1] == rest[k]);
                    } else {
                        assert(s[1] == rest[0]);
                    }
                }
                assert(s.last() == rest.last());
                assert forall|k: int| 0 <= k < s.len() implies self.spine_within(#[trigger] s[k], (f - k) as nat) == Some(s.subrange(k, s.len() as int)) by {
                    if k == 0 {
                        assert(s.subrange(0, s.len() as int) =~= s);
                    } else {
                        assert(s[k] == rest[k - 1]);
                        assert(self.spine_within(rest[k - 1], ((f - 1) as nat - (k - 1)) as nat) == Some(rest.subrange(k - 1, rest.len() as int)));
                        assert(s.subrange(k, s.len() as int) =~= rest.subrange(k - 1, rest.len() as int));
                    }
                }
            },
        }
    }

    /// A climb that ends passes no op twice.
    pub proof fn lemma_spine_distinct(&self, op: OpId, f: nat)
        requires
            self.spine_within(op, f) is Some,
        ensures
            forall|i: int, j: int| 0 <= i < j < self.spine_within(op, f)->0.len()
                ==> self.spine_within(op, f)->0[i] != self.spine_within(op, f)->0[j],
    {
        let s = self.spine_within(op, f)->0;
        self.lemma_spine_shape(op, f);
        assert forall|i: int, j: int| 0 <= i < j < s.len() implies s[i] != s[j] by {
            if s[i] == s[j] {
                assert(self.spine_within(s[i], (f - i) as nat) == Some(s.subrange(i, s.len() as int)));
                assert(self.spine_within(s[j], (f - j) as nat) == Some(s.subrange(j, s.len() as int)));
                self.lemma_spine_fuel(s[i], (f - i) as nat, (f - j) as nat);
                assert(s.subrange(i, s.len() as int).len() != s.subrange(j, s.len() as int).len());
            }
        }
    }

    /// What a climb that ends is, for the chosen fuel.
    pub proof fn lemma_spine(&self, op: OpId)
        requires
            self.spine_ends(op),
        ensures
            ({
                let s = self.spine(op);
                &&& s.len() >= 1
                &&& s[0] == op
                &&& forall|k: int| 0 <= k < s.len() - 1 ==> self.enclosing_op_of(#[trigger] s[k]) == Some(s[k + 1])
                &&& self.enclosing_op_of(s.last()) is None
                &&& forall|i: int, j: int| 0 <= i < j < s.len() ==> s[i] != s[j]
            }),
    {
        let f = choose|fuel: nat| #[trigger] self.spine_within(op, fuel) is Some;
        self.lemma_spine_shape(op, f);
        self.lemma_spine_distinct(op, f);
    }

    /// The climb from `op`'s parent is the climb from `op` without `op`.
    pub proof fn lemma_spine_parent(&self, op: OpId, parent: OpId)
        requires
            self.spine_ends(op),
            self.enclosing_op_of(op) == Some(parent),
        ensures
            self.spine_ends(parent),
            self.spine(op) == seq![op] + self.spine(parent),
    {
        let f = choose|fuel: nat| #[trigger] self.spine_within(op, fuel) is Some;
        assert(self.spine_within(parent, (f - 1) as nat) is Some);
        let g = choose|fuel: nat| #[trigger] self.spine_within(parent, fuel) is Some;
        self.lemma_spine_fuel(parent, (f - 1) as nat, g);
    }
}

impl Context {
    fn parent_region_exec(&self, block: BlockId) -> (r: Option<RegionId>)
        ensures
            r == self.spec_parent_region(block),
    {
        if (block.0 as usize) < self.block_parent.len() {
            self.block_parent[block.0 as usize]
        } else {
            None
        }
    }

    fn parent_block_exec(&self, op: OpId) -> (r: Option<BlockId>)
        ensures
            r == self.spec_parent_block(op),
    {
        match slab_get(self.op_parent.as_slice(), op.0 as usize) {
            Some(b) => Some(*b),
            None => None,
        }
    }

    /// The op enclosing `block`, if the block sits in a region owned by one.
    fn enclosing_op_exec(&self, block: BlockId) -> (r: Option<OpId>)
        ensures
            r == self.enclosing_op(block),
    {
        match self.parent_region_exec(block) {
            Some(region) => match slab_get(self.regions.as_slice(), region.0 as usize) {
                Some(reg) => reg.parent_op,
                None => None,
            },
            None => None,
        }
    }

    /// The op enclosing `op`, walking out through its block and region.
    fn enclosing_op_of_exec(&self, op: OpId) -> (r: Option<OpId>)
        ensures
            r == self.enclosing_op_of(op),
    {
        match self.parent_block_exec(op) {
            Some(block) => self.enclosing_op_exec(block),
            None => None,
        }
    }

    fn bump_version(&mut self, op: OpId)
        requires
            old(self).version(op) < u32::MAX,
            (op.0 as int) < usize::MAX,
        ensures
            forall|o: OpId| #[trigger] final(self).version(o) == old(self).version(o) + if o == op { 1nat } else { 0nat },
            final(self).same_structure(old(self)),
            final(self).dirty() == old(self).dirty(),
    {
        let idx = op.0 as usize;
        let ghost start = self.op_version@;
        while self.op_version.len() <= idx
            invariant
                start.len() <= self.op_version@.len(),
                self.op_version@.len() == start.len() || self.op_version@.len() <= idx + 1,
                forall|k: int| 0 <= k < start.len() ==> self.op_version@[k] == start[k],
                forall|k: int| start.len() <= k < self.op_version@.len() ==> self.op_version@[k] == 0,
                self.same_structure(old(self)),
                self.dirty() == old(self).dirty(),
            decreases idx + 1 - self.op_version.len(),
        {
            self.op_version.push(0);
        }
        let v = self.op_version[idx];
        self.op_version.set(idx, v + 1);
        proof {
            assert forall|o: OpId| #[trigger] self.version(o) == old(self).version(o) + if o == op { 1nat } else { 0nat } by {
                if o != op {
                    assert(o.0 != op.0);
                }
            }
        }
    }

    /// Record that `op`'s subtree changed. Consecutive edits to the same
    /// subtree collapse.
    fn mark_dirty(&mut self, op: OpId)
        ensures
            final(self).dirty() == Context::marked(old(self).dirty(), op),
            final(self).same_structure(old(self)),
            final(self).same_versions(old(self)),
    {
        let n = self.dirty_ops.len();
        if n == 0 || self.dirty_ops[n - 1] != op {
            self.dirty_ops.push(op);
        }
    }

    /// `op`'s subtree changed: bump it and every enclosing op.
    fn edit_subtree(&mut self, op: OpId)
        requires
            old(self).can_edit(op),
        ensures
            final(self).bumped(old(self), op),
            final(self).dirty() == Context::marked(old(self).dirty(), op),
            final(self).same_structure(old(self)),
    {
        let ghost s = self.spine(op);
        proof {
            self.lemma_spine(op);
        }
        self.mark_dirty(op);
        let mut current = Some(op);
        let ghost mut k: int = 0;
        loop
            invariant
                0 <= k <= s.len(),
                s == old(self).spine(op),
                s.len() >= 1,
                s[0] == op,
                forall|j: int| 0 <= j < s.len() - 1 ==> old(self).enclosing_op_of(#[trigger] s[j]) == Some(s[j + 1]),
                old(self).enclosing_op_of(s.last()) is None,
                forall|i: int, j: int| 0 <= i < j < s.len() ==> s[i] != s[j],
                old(self).can_edit(op),
                current == if k < s.len() { Some(s[k]) } else { None::<OpId> },
                self.same_structure(old(self)),
                self.dirty() == Context::marked(old(self).dirty(), op),
                forall|o: OpId| #[trigger] self.version(o) == old(self).version(o) + if s.subrange(0, k).contains(o) { 1nat } else { 0nat },
            ensures
                k == s.len(),
                self.same_structure(old(self)),
                self.dirty() == Context::marked(old(self).dirty(), op),
                forall|o: OpId| #[trigger] self.version(o) == old(self).version(o) + if s.subrange(0, k).contains(o) { 1nat } else { 0nat },
            decreases s.len() - k,
        {
            let o = match current {
                Some(o) => o,
                None => {
                    break;
                },
            };
            proof {
                assert(!s.subrange(0, k).contains(s[k])) by {
                    if s.subrange(0, k).contains(s[k]) {
                        let i = choose|i: int| 0 <= i < k && s.subrange(0, k)[i] == s[k];
                        assert(s[i] == s[k]);
                    }
                }
                assert(self.version(o) == old(self).version(o));
                assert(old(self).version(s[k]) < u32::MAX && (s[k].0 as int) < usize::MAX);
            }
            self.bump_version(o);
            let next = self.enclosing_op_of_exec(o);
            proof {
                let pre = s.subrange(0, k);
                let post = s.subrange(0, k + 1);
                assert(post =~= pre.push(s[k]));
                assert forall|x: OpId| #[trigger] self.version(x) == old(self).version(x) + if post.contains(x) { 1nat } else { 0nat } by {
                    if post.contains(x) && x != s[k] {
                        let i = choose|i: int| 0 <= i < post.len() && post[i] == x;
                        assert(pre[i] == x);
                    }
                    if pre.contains(x) {
                        let i = choose|i: int| 0 <= i < pre.len() && pre[i] == x;
                        assert(post[i] == x);
                    }
                    if x == s[k] {
                        assert(post[k] == x);
                    }
                }
                k = k + 1;
            }
            current = next;
        }
        proof {
            assert(s.subrange(0, s.len() as int) =~= s);
        }
    }

    /// `op` itself changed (operands, attributes): bump it, and record the
    /// edit against its owner's subtree (or its own, for a root), so that
    /// verification also sees the siblings the edit may have broken.
    fn edit_op(&mut self, op: OpId)
        requires
            old(self).can_edit(op),
        ensures
            final(self).bumped(old(self), op),
            final(self).dirty() == Context::marked(old(self).dirty(), match old(self).enclosing_op_of(op) { Some(p) => p, None => op }),
            final(self).same_structure(old(self)),
    {
        proof {
            self.lemma_spine(op);
        }
        self.bump_version(op);
        match self.enclosing_op_of_exec(op) {
            Some(parent) => {
                proof {
                    old(self).lemma_spine_parent(op, parent);
                    Context::lemma_same_spine(self, old(self), parent);
                    assert(self.spine(parent) == old(self).spine(parent));
                    assert forall|k: int| 0 <= k < self.spine(parent).len() implies self.version(#[trigger] self.spine(parent)[k]) < u32::MAX
                        && (self.spine(parent)[k].0 as int) < usize::MAX by {
                        assert(old(self).spine(op)[k + 1] == self.spine(parent)[k]);
                        assert(self.spine(parent)[k] != op) by {
                            assert(old(self).spine(op)[0] == op);
                        }
                    }
                }
                self.edit_subtree(parent);
                proof {
                    assert forall|o: OpId| #[trigger] self.version(o) == old(self).version(o) + if old(self).spine(op).contains(o) { 1nat } else { 0nat } by {
                        let sp = old(self).spine(op);
                        let pp = old(self).spine(parent);
                        assert(sp == seq![op] + pp);
                        if pp.contains(o) {
                            let i = choose|i: int| 0 <= i < pp.len() && pp[i] == o;
                            assert(sp[i + 1] == o);
                            assert(o != op);
                        }
                        if sp.contains(o) && o != op {
                            let i = choose|i: int| 0 <= i < sp.len() && sp[i] == o;
                            assert(pp[i - 1] == o);
                        }
                        if o == op {
                            assert(sp[0] == o);
                            assert(!pp.contains(o)) by {
                                if pp.contains(o) {
                                    let i = choose|i: int| 0 <= i < pp.len() && pp[i] == o;
                                    assert(sp[i + 1] == sp[0]);
                                }
                            }
                        }
                    }
                }
            },
            None => {
                self.mark_dirty(op);
                proof {
                    assert(old(self).spine(op) =~= seq![op]);
                    assert forall|o: OpId| #[trigger] self.version(o) == old(self).version(o) + if old(self).spine(op).contains(o) { 1nat } else { 0nat } by {
                        if o == op {
                            assert(old(self).spine(op)[0] == o);
                        }
                    }
                }
            },
        }
    }

    /// `block`'s contents changed.
    fn edit_block(&mut self, block: BlockId)
        requires
            old(self).can_edit_block(block),
        ensures
            final(self).block_edited(old(self), block),
            final(self).same_structure(old(self)),
    {
        match self.enclosing_op_exec(block) {
            Some(op) => self.edit_subtree(op),
            None => {},
        }
    }

    /// `region`'s block list changed.
    fn edit_region(&mut self, region: RegionId)
        requires
            old(self).region_owner(region) matches Some(op) ==> old(self).can_edit(op),
        ensures
            final(self).region_edited(old(self), region),
            final(self).same_structure(old(self)),
    {
        let owner = match slab_get(self.regions.as_slice(), region.0 as usize) {
            Some(r) => r.parent_op,
            None => None,
        };
        match owner {
            Some(op) => self.edit_subtree(op),
            None => {},
        }
    }
}

impl Context {
    /// Contexts with the same IR climb the same way.
    proof fn lemma_same_spine(a: &Context, b: &Context, op: OpId)
        requires
            a.same_structure(b),
        ensures
            forall|fuel: nat| #[trigger] a.spine_within(op, fuel) == b.spine_within(op, fuel),
            a.spine_ends(op) == b.spine_ends(op),
            a.spine_ends(op) ==> a.spine(op) == b.spine(op),
    {
        assert forall|fuel: nat| #[trigger] a.spine_within(op, fuel) == b.spine_within(op, fuel) by {
            Context::lemma_same_spine_fuel(a, b, op, fuel);
        }
        if a.spine_ends(op) {
            let fa = choose|fuel: nat| #[trigger] a.spine_within(op, fuel) is Some;
            let fb = choose|fuel: nat| #[trigger] b.spine_within(op, fuel) is Some;
            assert(b.spine_within(op, fa) is Some);
            a.lemma_spine_fuel(op, fa, fb);
        }
        if b.spine_ends(op) {
            let fb = choose|fuel: nat| #[trigger] b.spine_within(op, fuel) is Some;
            assert(a.spine_within(op, fb) is Some);
        }
    }

    proof fn lemma_same_spine_fuel(a: &Context, b: &Context, op: OpId, fuel: nat)
        requires
            a.same_structure(b),
        ensures
            a.spine_within(op, fuel) == b.spine_within(op, fuel),
        decreases fuel,
    {
        assert(a.enclosing_op_of(op) == b.enclosing_op_of(op));
        if fuel > 0 {
            match a.enclosing_op_of(op) {
                Some(parent) => Context::lemma_same_spine_fuel(a, b, parent, (fuel - 1) as nat),
                None => {},
            }
        }
    }
}

/// The counter after handing out `id`: one more, wrapping around.
pub open spec fn advanced(id: u32) -> u32 {
    if id == u32::MAX { 0 } else { (id + 1) as u32 }
}

fn advance(id: u32) -> (r: u32)
    ensures
        r == advanced(id),
{
    if id == u32::MAX { 0 } else { id + 1 }
}

/// The value id a register attribute names, for the kinds that name one.
pub open spec fn register_value(r: RegisterAttr) -> Option<u32> {
    match r {
        RegisterAttr::Virtual { id, .. } => Some(id),
        RegisterAttr::FixedUse { id, .. } => Some(id),
        RegisterAttr::FixedDef { id, .. } => Some(id),
        RegisterAttr::Physical { .. } => None,
    }
}

/// Whether a role defines the register it names.
pub open spec fn defines(role: AttributeRole) -> bool {
    role == AttributeRole::Def || role == AttributeRole::ReadWrite
}

/// Whether `v` is a value the attributes define in a defining role: the
/// first attribute named by a `Def` or `ReadWrite` role is a register
/// naming it.
pub open spec fn role_defines(attrs: Seq<NamedAttribute>, roles: Seq<(String, AttributeRole)>, v: ValueId) -> bool {
    exists|k: int| 0 <= k < roles.len() && defines((#[trigger] roles[k]).1) && {
        match attr_index(attrs, roles[k].0@) {
            Some(i) => attrs[i].value matches AttributeValue::Register(reg) && register_value(reg) == Some(v.0),
            None => false,
        }
    }
}

impl Context {
    /// A context holding nothing.
    pub fn new() -> (r: Context)
        ensures
            forall|o: OpId| #[trigger] r.spec_op(o) is None && r.version(o) == 0 && r.spec_parent_block(o) is None,
            forall|v: ValueId| #[trigger] r.spec_value(v) is None && r.spec_value_block(v) is None,
            forall|x: RegionId| #[trigger] r.spec_region(x) is None,
            forall|b: BlockId| #[trigger] r.spec_block(b) is None && r.spec_parent_region(b) is None,
            r.dirty().len() == 0,
            r.next_value() == 0 && r.next_op() == 0 && r.next_region() == 0 && r.next_block() == 0,
    {
        Context {
            operations: Vec::new(),
            last_op_id: 0,
            values: Vec::new(),
            last_value_id: 0,
            regions: Vec::new(),
            last_region_id: 0,
            blocks: Vec::new(),
            last_block_id: 0,
            op_parent: Vec::new(),
            block_parent: Vec::new(),
            value_block: Vec::new(),
            op_version: Vec::new(),
            dirty_ops: Vec::new(),
        }
    }

    pub fn has_operation(&self, id: OpId) -> (r: bool)
        ensures
            r == self.spec_op(id) is Some,
    {
        slab_get(self.operations.as_slice(), id.0 as usize).is_some()
    }

    pub fn has_value(&self, id: ValueId) -> (r: bool)
        ensures
            r == self.spec_value(id) is Some,
    {
        slab_get(self.values.as_slice(), id.0 as usize).is_some()
    }

    pub fn has_region(&self, id: RegionId) -> (r: bool)
        ensures
            r == self.spec_region(id) is Some,
    {
        slab_get(self.regions.as_slice(), id.0 as usize).is_some()
    }

    pub fn has_block(&self, id: BlockId) -> (r: bool)
        ensures
            r == self.spec_block(id) is Some,
    {
        slab_get(self.blocks.as_slice(), id.0 as usize).is_some()
    }

    /// Whether `id` entered some block's argument list.
    pub fn is_block_argument(&self, id: ValueId) -> (r: bool)
        ensures
            r == self.spec_value_block(id) is Some,
    {
        slab_get(self.value_block.as_slice(), id.0 as usize).is_some()
    }

    /// The structural version of `op`: a counter bumped by every edit to
    /// `op` or to anything under it.
    pub fn op_version(&self, op: OpId) -> (r: u32)
        ensures
            r == self.version(op),
    {
        if (op.0 as usize) < self.op_version.len() {
            self.op_version[op.0 as usize]
        } else {
            0
        }
    }

    /// The block currently holding `op`, or `None` for an op in no block.
    pub fn parent_block(&self, op: OpId) -> (r: Option<BlockId>)
        ensures
            r == self.spec_parent_block(op),
    {
        self.parent_block_exec(op)
    }

    /// The operation enclosing `op`: the owner of the region holding `op`'s
    /// block.
    pub fn parent_op(&self, op: OpId) -> (r: Option<OpId>)
        ensures
            r == self.enclosing_op_of(op),
    {
        self.enclosing_op_of_exec(op)
    }

    /// The region currently holding `block`.
    pub fn parent_region(&self, block: BlockId) -> (r: Option<RegionId>)
        ensures
            r == self.spec_parent_region(block),
    {
        self.parent_region_exec(block)
    }

    pub fn get_op(&self, id: OpId) -> (r: &OpInstance)
        requires
            self.spec_op(id) is Some,
        ensures
            Some(*r) == self.spec_op(id),
    {
        slab_get(self.operations.as_slice(), id.0 as usize).unwrap()
    }

    pub fn get_value(&self, id: ValueId) -> (r: Value)
        requires
            self.spec_value(id) is Some,
        ensures
            Some(r) == self.spec_value(id),
    {
        *slab_get(self.values.as_slice(), id.0 as usize).unwrap()
    }

    pub fn get_block(&self, id: BlockId) -> (r: &Block)
        requires
            self.spec_block(id) is Some,
        ensures
            Some(*r) == self.spec_block(id),
    {
        slab_get(self.blocks.as_slice(), id.0 as usize).unwrap()
    }

    pub fn get_region(&self, id: RegionId) -> (r: &Region)
        requires
            self.spec_region(id) is Some,
        ensures
            Some(*r) == self.spec_region(id),
    {
        slab_get(self.regions.as_slice(), id.0 as usize).unwrap()
    }

    /// A new value of type `ty`, defined by `defining_op` if given.
    pub fn create_value(&mut self, ty: TypeId, defining_op: Option<OpId>) -> (r: Value)
        requires
            (old(self).next_value() as int) < usize::MAX,
        ensures
            r == (Value { id: ValueId(old(self).next_value()), ty, defining_op }),
            final(self).spec_value(r.id) == Some(r),
            forall|v: ValueId| v != r.id ==> #[trigger] final(self).spec_value(v) == old(self).spec_value(v),
            final(self).next_value() == advanced(old(self).next_value()),
            final(self).next_op() == old(self).next_op(),
            final(self).next_region() == old(self).next_region(),
            final(self).next_block() == old(self).next_block(),
            final(self).same_ops(old(self)),
            final(self).same_regions(old(self)),
            final(self).same_blocks(old(self)),
            final(self).same_links(old(self)),
            final(self).same_versions(old(self)),
            final(self).dirty() == old(self).dirty(),
    {
        let id = ValueId(self.last_value_id);
        self.last_value_id = advance(self.last_value_id);
        let value = Value { id, ty, defining_op };
        slab_put(&mut self.values, id.0 as usize, value);
        proof {
            assert forall|v: ValueId| v != id implies #[trigger] self.spec_value(v) == old(self).spec_value(v) by {
                assert(v.0 != id.0);
            }
        }
        value
    }

    /// A new region, in no op and holding no block.
    pub fn create_region(&mut self) -> (r: RegionId)
        requires
            (old(self).next_region() as int) < usize::MAX,
        ensures
            r == RegionId(old(self).next_region()),
            final(self).spec_region(r) matches Some(x) && x.id == r && x.blocks@.len() == 0 && x.parent_op is None,
            forall|x: RegionId| x != r ==> #[trigger] final(self).spec_region(x) == old(self).spec_region(x),
            final(self).next_region() == advanced(old(self).next_region()),
            final(self).next_value() == old(self).next_value(),
            final(self).next_op() == old(self).next_op(),
            final(self).next_block() == old(self).next_block(),
            final(self).same_ops(old(self)),
            final(self).same_values(old(self)),
            final(self).same_blocks(old(self)),
            final(self).same_links(old(self)),
            final(self).same_versions(old(self)),
            final(self).dirty() == old(self).dirty(),
    {
        let id = RegionId(self.last_region_id);
        self.last_region_id = advance(self.last_region_id);
        slab_put(&mut self.regions, id.0 as usize, Region { id, blocks: Vec::new(), parent_op: None });
        proof {
            assert forall|x: RegionId| x != id implies #[trigger] self.spec_region(x) == old(self).spec_region(x) by {
                assert(x.0 != id.0);
            }
        }
        id
    }

    /// A new block with `arguments` (values created for it), in no region;
    /// each argument records the block as its def-site.
    pub fn create_block(&mut self, arguments: Vec<ValueId>) -> (r: BlockId)
        requires
            (old(self).next_block() as int) < usize::MAX,
            forall|k: int| 0 <= k < arguments@.len() ==> ((#[trigger] arguments@[k]).0 as int) < usize::MAX,
        ensures
            r == BlockId(old(self).next_block()),
            final(self).spec_block(r) matches Some(b) && b.id == r && b.arguments@ == arguments@ && b.operations@.len() == 0 && b.attributes@.len() == 0,
            forall|x: BlockId| x != r ==> #[trigger] final(self).spec_block(x) == old(self).spec_block(x),
            forall|v: ValueId| #[trigger] final(self).spec_value_block(v) == if arguments@.contains(v) { Some(r) } else { old(self).spec_value_block(v) },
            final(self).next_block() == advanced(old(self).next_block()),
            final(self).next_value() == old(self).next_value(),
            final(self).next_op() == old(self).next_op(),
            final(self).next_region() == old(self).next_region(),
            final(self).same_ops(old(self)),
            final(self).same_values(old(self)),
            final(self).same_regions(old(self)),
            forall|o: OpId| #[trigger] final(self).spec_parent_block(o) == old(self).spec_parent_block(o),
            forall|b: BlockId| #[trigger] final(self).spec_parent_region(b) == old(self).spec_parent_region(b),
            final(self).same_versions(old(self)),
            final(self).dirty() == old(self).dirty(),
    {
        let id = BlockId(self.last_block_id);
        self.last_block_id = advance(self.last_block_id);
        let mut k: usize = 0;
        while k < arguments.len()
            invariant
                k <= arguments@.len(),
                forall|j: int| 0 <= j < arguments@.len() ==> ((#[trigger] arguments@[j]).0 as int) < usize::MAX,
                forall|v: ValueId| #[trigger] self.spec_value_block(v) == if arguments@.subrange(0, k as int).contains(v) { Some(id) } else { old(self).spec_value_block(v) },
                self.operations@ == old(self).operations@,
                self.values@ == old(self).values@,
                self.regions@ == old(self).regions@,
                self.blocks@ == old(self).blocks@,
                self.op_parent@ == old(self).op_parent@,
                self.block_parent@ == old(self).block_parent@,
                self.op_version@ == old(self).op_version@,
                self.dirty_ops@ == old(self).dirty_ops@,
                self.last_value_id == old(self).last_value_id,
                self.last_op_id == old(self).last_op_id,
                self.last_region_id == old(self).last_region_id,
                self.last_block_id == advanced(old(self).last_block_id),
            decreases arguments.len() - k,
        {
            let a = arguments[k];
            let ghost head = self.value_block@;
            proof {
                assert forall|v: ValueId| #[trigger] slab_entry(head, v.0 as int) == if arguments@.subrange(0, k as int).contains(v) { Some(id) } else { old(self).spec_value_block(v) } by {
                    assert(self.spec_value_block(v) == slab_entry(head, v.0 as int));
                }
            }
            slab_put(&mut self.value_block, a.0 as usize, id);
            proof {
                lemma_slab_after_put(head, a.0 as int, id);
                let pre = arguments@.subrange(0, k as int);
                let post = arguments@.subrange(0, k + 1);
                assert(post =~= pre.push(a));
                assert forall|v: ValueId| #[trigger] self.spec_value_block(v) == if post.contains(v) { Some(id) } else { old(self).spec_value_block(v) } by {
                    assert(self.spec_value_block(v) == slab_entry(self.value_block@, v.0 as int));
                    assert(slab_entry(self.value_block@, v.0 as int) == if v.0 == a.0 { Some(id) } else { slab_entry(head, v.0 as int) });
                    if v == a {
                        assert(post[k as int] == v);
                    } else {
                        assert(v.0 != a.0);
                        if post.contains(v) {
                            let i = choose|i: int| 0 <= i < post.len() && post[i] == v;
                            assert(pre[i] == v);
                        }
                        if pre.contains(v) {
                            let i = choose|i: int| 0 <= i < pre.len() && pre[i] == v;
                            assert(post[i] == v);
                        }
                    }
                }
            }
            k = k + 1;
        }
        let ghost args = arguments@;
        let ghost links = self.value_block@;
        proof {
            assert(arguments@.subrange(0, arguments@.len() as int) =~= arguments@);
            assert forall|v: ValueId| #[trigger] slab_entry(links, v.0 as int) == if args.contains(v) { Some(id) } else { old(self).spec_value_block(v) } by {
                assert(self.spec_value_block(v) == slab_entry(links, v.0 as int));
            }
        }
        let ghost blocks_before = self.blocks@;
        let block = Block { id, arguments, operations: Vec::new(), attributes: Vec::new() };
        slab_put(&mut self.blocks, id.0 as usize, block);
        proof {
            lemma_slab_after_put(blocks_before, id.0 as int, block);
            assert(self.value_block@ == links);
            assert forall|v: ValueId| #[trigger] self.spec_value_block(v) == if args.contains(v) { Some(id) } else { old(self).spec_value_block(v) } by {
                assert(self.spec_value_block(v) == slab_entry(links, v.0 as int));
            }
            assert forall|x: BlockId| x != id implies #[trigger] self.spec_block(x) == old(self).spec_block(x) by {
                assert(x.0 != id.0);
            }
        }
        id
    }
}

impl Context {
    /// A climb that meets only ops whose enclosing op is the same in `b`
    /// is the same climb in `b`.
    proof fn lemma_spine_stable_fuel(a: &Context, b: &Context, op: OpId, fuel: nat)
        requires
            a.spine_within(op, fuel) is Some,
            forall|k: int| 0 <= k < a.spine_within(op, fuel)->0.len() ==> b.enclosing_op_of(#[trigger] a.spine_within(op, fuel)->0[k]) == a.enclosing_op_of(a.spine_within(op, fuel)->0[k]),
        ensures
            b.spine_within(op, fuel) == a.spine_within(op, fuel),
        decreases fuel,
    {
        let s = a.spine_within(op, fuel)->0;
        assert(s[0] == op) by {
            a.lemma_spine_shape(op, fuel);
        }
        assert(b.enclosing_op_of(op) == a.enclosing_op_of(op));
        match a.enclosing_op_of(op) {
            None => {},
            Some(parent) => {
                let rest = a.spine_within(parent, (fuel - 1) as nat)->0;
                assert(s == seq![op] + rest);
                assert forall|k: int| 0 <= k < rest.len() implies b.enclosing_op_of(#[trigger] rest[k]) == a.enclosing_op_of(rest[k]) by {
                    assert(s[k + 1] == rest[k]);
                }
                Context::lemma_spine_stable_fuel(a, b, parent, (fuel - 1) as nat);
            },
        }
    }

    /// If every op on `op`'s climb climbs the same way in `b`, the climb is
    /// the same in `b`.
    proof fn lemma_spine_stable(a: &Context, b: &Context, op: OpId)
        requires
            a.spine_ends(op),
            forall|k: int| 0 <= k < a.spine(op).len() ==> b.enclosing_op_of(#[trigger] a.spine(op)[k]) == a.enclosing_op_of(a.spine(op)[k]),
        ensures
            b.spine_ends(op),
            b.spine(op) == a.spine(op),
    {
        let f = choose|fuel: nat| #[trigger] a.spine_within(op, fuel) is Some;
        assert(a.spine(op) == a.spine_within(op, f)->0);
        assert forall|k: int| 0 <= k < a.spine_within(op, f)->0.len() implies b.enclosing_op_of(#[trigger] a.spine_within(op, f)->0[k]) == a.enclosing_op_of(a.spine_within(op, f)->0[k]) by {
            assert(a.spine(op)[k] == a.spine_within(op, f)->0[k]);
        }
        Context::lemma_spine_stable_fuel(a, b, op, f);
        let g = choose|fuel: nat| #[trigger] b.spine_within(op, fuel) is Some;
        b.lemma_spine_fuel(op, f, g);
    }

    /// Whether moving `op` leaves `block`'s climb alone: `op` is not on it.
    pub open spec fn off_spine(&self, block: BlockId, op: OpId) -> bool {
        self.enclosing_op(block) matches Some(e) ==> !self.spine(e).contains(op)
    }

    /// After an edit that moved only `op` (by its parent link) and left
    /// versions alone, the edit can be recorded as it could before.
    proof fn lemma_moved_op(a: &Context, b: &Context, block: BlockId, op: OpId)
        requires
            a.can_edit_block(block),
            a.off_spine(block, op),
            b.same_versions(a),
            b.enclosing_op(block) == a.enclosing_op(block),
            forall|x: OpId| x != op ==> #[trigger] b.enclosing_op_of(x) == a.enclosing_op_of(x),
        ensures
            b.can_edit_block(block),
            b.enclosing_op(block) matches Some(e) ==> b.spine(e) == a.spine(e),
    {
        match a.enclosing_op(block) {
            Some(e) => {
                assert forall|k: int| 0 <= k < a.spine(e).len() implies b.enclosing_op_of(#[trigger] a.spine(e)[k]) == a.enclosing_op_of(a.spine(e)[k]) by {
                    assert(a.spine(e)[k] != op) by {
                        if a.spine(e)[k] == op {
                            assert(a.spine(e).contains(op));
                        }
                    }
                }
                Context::lemma_spine_stable(a, b, e);
                assert forall|k: int| 0 <= k < b.spine(e).len() implies b.version(#[trigger] b.spine(e)[k]) < u32::MAX
                    && (b.spine(e)[k].0 as int) < usize::MAX by {
                    assert(b.version(b.spine(e)[k]) == a.version(a.spine(e)[k]));
                }
            },
            None => {},
        }
    }
}

impl Context {
    /// Append `op` after everything `block` holds, recording the new parent.
    pub fn append_op(&mut self, block: BlockId, op: OpId)
        requires
            old(self).can_edit_block(block),
            old(self).off_spine(block, op),
            (op.0 as int) < usize::MAX,
        ensures
            Context::block_changed(old(self).spec_block(block), final(self).spec_block(block), old(self).block_ops(block).push(op)),
            forall|b: BlockId| b != block ==> #[trigger] final(self).spec_block(b) == old(self).spec_block(b),
            forall|o: OpId| #[trigger] final(self).spec_parent_block(o) == if o == op { Some(block) } else { old(self).spec_parent_block(o) },
            final(self).block_edited(old(self), block),
            final(self).same_ops(old(self)),
            final(self).same_values(old(self)),
            final(self).same_regions(old(self)),
            final(self).same_counters(old(self)),
            forall|b: BlockId| #[trigger] final(self).spec_parent_region(b) == old(self).spec_parent_region(b),
            forall|v: ValueId| #[trigger] final(self).spec_value_block(v) == old(self).spec_value_block(v),
    {
        self.push_into(block, op);
        let ghost pushed = *self;
        self.set_parent_link(op, block);
        proof {
            Context::lemma_moved_op(old(self), self, block, op);
        }
        let ghost linked = *self;
        self.edit_block(block);
        proof {
            Context::lemma_frame(self, &linked);
            assert forall|b: BlockId| b != block implies #[trigger] self.spec_block(b) == old(self).spec_block(b) by {
                assert(linked.spec_block(b) == pushed.spec_block(b));
            }
        }
    }
}

impl Context {
    /// The operations `block` holds, in order (none if it does not exist).
    pub open spec fn block_ops(&self, block: BlockId) -> Seq<OpId> {
        match self.spec_block(block) {
            Some(b) => b.operations@,
            None => Seq::empty(),
        }
    }

    /// A block edited to hold `ops`, everything else about it kept; a block
    /// that does not exist stays so.
    pub open spec fn block_changed(before: Option<Block>, after: Option<Block>, ops: Seq<OpId>) -> bool {
        match before {
            Some(ob) => after matches Some(nb) && nb.id == ob.id && nb.arguments@ == ob.arguments@
                && nb.operations@ == ops && nb.attributes@ == ob.attributes@,
            None => after is None,
        }
    }

    /// Push `op` onto `block`'s operations, if the block exists.
    fn push_into(&mut self, block: BlockId, op: OpId)
        ensures
            Context::block_changed(old(self).spec_block(block), final(self).spec_block(block), old(self).block_ops(block).push(op)),
            forall|b: BlockId| b != block ==> #[trigger] final(self).spec_block(b) == old(self).spec_block(b),
            final(self).operations@ == old(self).operations@,
            final(self).values@ == old(self).values@,
            final(self).regions@ == old(self).regions@,
            final(self).op_parent@ == old(self).op_parent@,
            final(self).block_parent@ == old(self).block_parent@,
            final(self).value_block@ == old(self).value_block@,
            final(self).op_version@ == old(self).op_version@,
            final(self).dirty_ops@ == old(self).dirty_ops@,
            final(self).same_counters(old(self)),
    {
        match slab_get_mut(&mut self.blocks, block.0 as usize) {
            Some(entry) => {
                entry.operations.push(op);
            },
            None => {},
        }
        proof {
            assert forall|b: BlockId| b != block implies #[trigger] self.spec_block(b) == old(self).spec_block(b) by {
                assert(b.0 != block.0);
            }
        }
    }

    /// Record `block` as the block holding `op`.
    fn set_parent_link(&mut self, op: OpId, block: BlockId)
        requires
            (op.0 as int) < usize::MAX,
        ensures
            forall|o: OpId| #[trigger] final(self).spec_parent_block(o) == if o == op { Some(block) } else { old(self).spec_parent_block(o) },
            forall|x: OpId| x != op ==> #[trigger] final(self).enclosing_op_of(x) == old(self).enclosing_op_of(x),
            forall|b: BlockId| #[trigger] final(self).enclosing_op(b) == old(self).enclosing_op(b),
            final(self).operations@ == old(self).operations@,
            final(self).values@ == old(self).values@,
            final(self).regions@ == old(self).regions@,
            final(self).blocks@ == old(self).blocks@,
            final(self).block_parent@ == old(self).block_parent@,
            final(self).value_block@ == old(self).value_block@,
            final(self).op_version@ == old(self).op_version@,
            final(self).dirty_ops@ == old(self).dirty_ops@,
            final(self).same_counters(old(self)),
    {
        let ghost before = self.op_parent@;
        slab_put(&mut self.op_parent, op.0 as usize, block);
        proof {
            lemma_slab_after_put(before, op.0 as int, block);
            assert forall|o: OpId| #[trigger] self.spec_parent_block(o) == if o == op { Some(block) } else { old(self).spec_parent_block(o) } by {
                if o != op {
                    assert(o.0 != op.0);
                }
            }
            assert forall|x: OpId| x != op implies #[trigger] self.enclosing_op_of(x) == old(self).enclosing_op_of(x) by {
                assert(self.spec_parent_block(x) == old(self).spec_parent_block(x));
            }
        }
    }
}

impl Context {
    /// Contexts with the same IR answer every structural question alike.
    proof fn lemma_frame(a: &Context, b: &Context)
        requires
            a.same_structure(b),
        ensures
            a.same_ops(b),
            a.same_values(b),
            a.same_regions(b),
            a.same_blocks(b),
            a.same_links(b),
            a.same_counters(b),
            forall|x: OpId| #[trigger] a.enclosing_op_of(x) == b.enclosing_op_of(x),
            forall|x: BlockId| #[trigger] a.enclosing_op(x) == b.enclosing_op(x),
    {
    }
}

/// The first position of `op` in `ops`.
pub open spec fn op_position(ops: Seq<OpId>, op: OpId) -> Option<int>
    decreases ops.len(),
{
    if ops.len() == 0 {
        None
    } else {
        match op_position(ops.drop_last(), op) {
            Some(i) => Some(i),
            None => if ops.last() == op { Some(ops.len() - 1) } else { None },
        }
    }
}

proof fn lemma_op_position(ops: Seq<OpId>, op: OpId)
    ensures
        match op_position(ops, op) {
            Some(i) => 0 <= i < ops.len() && ops[i] == op && forall|j: int| 0 <= j < i ==> ops[j] != op,
            None => !ops.contains(op),
        },
    decreases ops.len(),
{
    if ops.len() > 0 {
        let prefix = ops.drop_last();
        lemma_op_position(prefix, op);
        assert forall|j: int| 0 <= j < prefix.len() implies prefix[j] == ops[j] by {}
        match op_position(prefix, op) {
            Some(i) => {
                assert(ops[i] == op);
                assert forall|j: int| 0 <= j < i implies ops[j] != op by {
                    assert(prefix[j] != op);
                }
            },
            None => {
                if ops.last() == op {
                    assert forall|j: int| 0 <= j < ops.len() - 1 implies ops[j] != op by {
                        assert(!prefix.contains(op));
                        assert(prefix[j] == ops[j]);
                    }
                } else {
                    if ops.contains(op) {
                        let j = choose|j: int| 0 <= j < ops.len() && ops[j] == op;
                        assert(prefix[j] == op);
                    }
                }
            },
        }
    }
}

fn position_of(ops: &Vec<OpId>, op: OpId) -> (r: Option<usize>)
    ensures
        match r {
            Some(i) => op_position(ops@, op) == Some(i as int),
            None => op_position(ops@, op) is None,
        },
{
    proof {
        lemma_op_position(ops@, op);
    }
    let mut k: usize = 0;
    while k < ops.len()
        invariant
            k <= ops@.len(),
            forall|j: int| 0 <= j < k ==> ops@[j] != op,
            match op_position(ops@, op) {
                Some(i) => 0 <= i < ops@.len() && ops@[i] == op && forall|j: int| 0 <= j < i ==> ops@[j] != op,
                None => !ops@.contains(op),
            },
        decreases ops.len() - k,
    {
        if ops[k] == op {
            return Some(k);
        }
        k = k + 1;
    }
    None
}

impl Context {
    /// Edit `block`'s operation list with `edit`'s result, if the block
    /// exists.
    fn set_block_ops(&mut self, block: BlockId, ops: Vec<OpId>)
        ensures
            Context::block_changed(old(self).spec_block(block), final(self).spec_block(block), ops@),
            forall|b: BlockId| b != block ==> #[trigger] final(self).spec_block(b) == old(self).spec_block(b),
            final(self).operations@ == old(self).operations@,
            final(self).values@ == old(self).values@,
            final(self).regions@ == old(self).regions@,
            final(self).op_parent@ == old(self).op_parent@,
            final(self).block_parent@ == old(self).block_parent@,
            final(self).value_block@ == old(self).value_block@,
            final(self).op_version@ == old(self).op_version@,
            final(self).dirty_ops@ == old(self).dirty_ops@,
            final(self).same_counters(old(self)),
    {
        match slab_get_mut(&mut self.blocks, block.0 as usize) {
            Some(entry) => {
                entry.operations = ops;
            },
            None => {},
        }
        proof {
            assert forall|b: BlockId| b != block implies #[trigger] self.spec_block(b) == old(self).spec_block(b) by {
                assert(b.0 != block.0);
            }
        }
    }

    fn block_ops_exec(&self, block: BlockId) -> (r: Option<Vec<OpId>>)
        ensures
            match self.spec_block(block) {
                Some(b) => r matches Some(v) && v@ == b.operations@,
                None => r is None,
            },
    {
        match slab_get(self.blocks.as_slice(), block.0 as usize) {
            Some(b) => Some(crate::ids::copy_vec(&b.operations)),
            None => None,
        }
    }

    /// Clear the record of the block holding `op`.
    fn clear_parent_link(&mut self, op: OpId)
        ensures
            forall|o: OpId| #[trigger] final(self).spec_parent_block(o) == if o == op { None } else { old(self).spec_parent_block(o) },
            forall|x: OpId| x != op ==> #[trigger] final(self).enclosing_op_of(x) == old(self).enclosing_op_of(x),
            forall|b: BlockId| #[trigger] final(self).enclosing_op(b) == old(self).enclosing_op(b),
            final(self).operations@ == old(self).operations@,
            final(self).values@ == old(self).values@,
            final(self).regions@ == old(self).regions@,
            final(self).blocks@ == old(self).blocks@,
            final(self).block_parent@ == old(self).block_parent@,
            final(self).value_block@ == old(self).value_block@,
            final(self).op_version@ == old(self).op_version@,
            final(self).dirty_ops@ == old(self).dirty_ops@,
            final(self).same_counters(old(self)),
    {
        if (op.0 as usize) < self.op_parent.len() {
            self.op_parent.set(op.0 as usize, None);
        }
        proof {
            assert forall|o: OpId| #[trigger] self.spec_parent_block(o) == if o == op { None } else { old(self).spec_parent_block(o) } by {
                if o != op {
                    assert(o.0 != op.0);
                }
            }
            assert forall|x: OpId| x != op implies #[trigger] self.enclosing_op_of(x) == old(self).enclosing_op_of(x) by {
                assert(self.spec_parent_block(x) == old(self).spec_parent_block(x));
            }
        }
    }

    /// Insert `op` into `block` at `index`, recording the new parent.
    pub fn insert_op(&mut self, block: BlockId, index: usize, op: OpId)
        requires
            old(self).spec_block(block) is Some ==> index <= old(self).block_ops(block).len(),
            old(self).can_edit_block(block),
            old(self).off_spine(block, op),
            (op.0 as int) < usize::MAX,
        ensures
            Context::block_changed(old(self).spec_block(block), final(self).spec_block(block), old(self).block_ops(block).insert(index as int, op)),
            forall|b: BlockId| b != block ==> #[trigger] final(self).spec_block(b) == old(self).spec_block(b),
            forall|o: OpId| #[trigger] final(self).spec_parent_block(o) == if o == op { Some(block) } else { old(self).spec_parent_block(o) },
            final(self).block_edited(old(self), block),
            final(self).same_ops(old(self)),
            final(self).same_values(old(self)),
            final(self).same_regions(old(self)),
            final(self).same_counters(old(self)),
            forall|b: BlockId| #[trigger] final(self).spec_parent_region(b) == old(self).spec_parent_region(b),
            forall|v: ValueId| #[trigger] final(self).spec_value_block(v) == old(self).spec_value_block(v),
    {
        match self.block_ops_exec(block) {
            Some(mut ops) => {
                ops.insert(index, op);
                self.set_block_ops(block, ops);
            },
            None => {},
        }
        let ghost pushed = *self;
        self.set_parent_link(op, block);
        proof {
            Context::lemma_moved_op(old(self), self, block, op);
        }
        let ghost linked = *self;
        self.edit_block(block);
        proof {
            Context::lemma_frame(self, &linked);
            assert forall|b: BlockId| b != block implies #[trigger] self.spec_block(b) == old(self).spec_block(b) by {
                assert(linked.spec_block(b) == pushed.spec_block(b));
            }
        }
    }

    /// Take `op` out of `block`, clearing its parent: whether it was there.
    pub fn remove_op_from_block(&mut self, block: BlockId, op: OpId) -> (r: bool)
        requires
            old(self).can_edit_block(block),
            old(self).off_spine(block, op),
        ensures
            r == old(self).block_ops(block).contains(op),
            r ==> Context::block_changed(old(self).spec_block(block), final(self).spec_block(block),
                old(self).block_ops(block).remove(op_position(old(self).block_ops(block), op)->0)),
            r ==> forall|o: OpId| #[trigger] final(self).spec_parent_block(o) == if o == op { None } else { old(self).spec_parent_block(o) },
            r ==> final(self).block_edited(old(self), block),
            !r ==> final(self).same_blocks(old(self)) && final(self).same_links(old(self)) && final(self).same_versions(old(self))
                && final(self).dirty() == old(self).dirty(),
            forall|b: BlockId| b != block ==> #[trigger] final(self).spec_block(b) == old(self).spec_block(b),
            final(self).same_ops(old(self)),
            final(self).same_values(old(self)),
            final(self).same_regions(old(self)),
            final(self).same_counters(old(self)),
            forall|b: BlockId| #[trigger] final(self).spec_parent_region(b) == old(self).spec_parent_region(b),
            forall|v: ValueId| #[trigger] final(self).spec_value_block(v) == old(self).spec_value_block(v),
    {
        proof {
            lemma_op_position(old(self).block_ops(block), op);
        }
        let mut ops = match self.block_ops_exec(block) {
            Some(ops) => ops,
            None => {
                return false;
            },
        };
        let position = match position_of(&ops, op) {
            Some(p) => p,
            None => {
                return false;
            },
        };
        ops.remove(position);
        self.set_block_ops(block, ops);
        let ghost pushed = *self;
        self.clear_parent_link(op);
        proof {
            Context::lemma_moved_op(old(self), self, block, op);
        }
        let ghost linked = *self;
        self.edit_block(block);
        proof {
            Context::lemma_frame(self, &linked);
            assert forall|b: BlockId| b != block implies #[trigger] self.spec_block(b) == old(self).spec_block(b) by {
                assert(linked.spec_block(b) == pushed.spec_block(b));
            }
        }
        true
    }

    /// Put `new` in `old`'s place in `block`, moving the parent over:
    /// whether `old` was there.
    pub fn replace_op_in_block(&mut self, block: BlockId, old_op: OpId, new_op: OpId) -> (r: bool)
        requires
            old(self).can_edit_block(block),
            old(self).off_spine(block, old_op),
            old(self).off_spine(block, new_op),
            (new_op.0 as int) < usize::MAX,
        ensures
            r == old(self).block_ops(block).contains(old_op),
            r ==> Context::block_changed(old(self).spec_block(block), final(self).spec_block(block),
                old(self).block_ops(block).update(op_position(old(self).block_ops(block), old_op)->0, new_op)),
            r ==> forall|o: OpId| #[trigger] final(self).spec_parent_block(o) == if o == new_op { Some(block) } else if o == old_op { None } else { old(self).spec_parent_block(o) },
            r ==> final(self).block_edited(old(self), block),
            !r ==> final(self).same_blocks(old(self)) && final(self).same_links(old(self)) && final(self).same_versions(old(self))
                && final(self).dirty() == old(self).dirty(),
            forall|b: BlockId| b != block ==> #[trigger] final(self).spec_block(b) == old(self).spec_block(b),
            final(self).same_ops(old(self)),
            final(self).same_values(old(self)),
            final(self).same_regions(old(self)),
            final(self).same_counters(old(self)),
            forall|b: BlockId| #[trigger] final(self).spec_parent_region(b) == old(self).spec_parent_region(b),
            forall|v: ValueId| #[trigger] final(self).spec_value_block(v) == old(self).spec_value_block(v),
    {
        proof {
            lemma_op_position(old(self).block_ops(block), old_op);
        }
        let mut ops = match self.block_ops_exec(block) {
            Some(ops) => ops,
            None => {
                return false;
            },
        };
        let position = match position_of(&ops, old_op) {
            Some(p) => p,
            None => {
                return false;
            },
        };
        ops.set(position, new_op);
        self.set_block_ops(block, ops);
        let ghost pushed = *self;
        self.clear_parent_link(old_op);
        let ghost cleared = *self;
        self.set_parent_link(new_op, block);
        proof {
            Context::lemma_moved_op(old(self), &cleared, block, old_op);
            Context::lemma_moved_op(&cleared, self, block, new_op);
        }
        let ghost linked = *self;
        self.edit_block(block);
        proof {
            Context::lemma_frame(self, &linked);
            assert forall|b: BlockId| b != block implies #[trigger] self.spec_block(b) == old(self).spec_block(b) by {
                assert(linked.spec_block(b) == pushed.spec_block(b));
            }
        }
        true
    }
}

} // verus!

verus! {

impl Context {
    /// The climb out of every op, as far as `self` and `other` agree on the
    /// links and regions, is the same; an edit recordable in one is in the
    /// other.
    proof fn lemma_same_climb(a: &Context, b: &Context, op: OpId)
        requires
            a.can_edit(op),
            forall|o: OpId| #[trigger] b.spec_parent_block(o) == a.spec_parent_block(o),
            forall|x: BlockId| #[trigger] b.spec_parent_region(x) == a.spec_parent_region(x),
            b.same_regions(a),
            b.same_versions(a),
        ensures
            b.can_edit(op),
            b.spine(op) == a.spine(op),
    {
        assert forall|k: int| 0 <= k < a.spine(op).len() implies b.enclosing_op_of(#[trigger] a.spine(op)[k]) == a.enclosing_op_of(a.spine(op)[k]) by {}
        Context::lemma_spine_stable(a, b, op);
        assert forall|k: int| 0 <= k < b.spine(op).len() implies b.version(#[trigger] b.spine(op)[k]) < u32::MAX
            && (b.spine(op)[k].0 as int) < usize::MAX by {
            assert(b.version(b.spine(op)[k]) == a.version(a.spine(op)[k]));
        }
    }

    /// `after` is `before` with the given operands and attributes, everything
    /// else about it kept.
    pub open spec fn op_with(before: OpInstance, after: OpInstance, operands: Seq<ValueId>, attributes: Seq<NamedAttribute>) -> bool {
        &&& after.id == before.id
        &&& after.dialect@ == before.dialect@
        &&& after.name@ == before.name@
        &&& after.operands@ == operands
        &&& after.results@ == before.results@
        &&& after.regions@ == before.regions@
        &&& after.attributes@ == attributes
    }

    /// The subtree an edit to `op` itself is recorded against: its owner's,
    /// or its own for an op in no other.
    pub open spec fn edit_owner(&self, op: OpId) -> OpId {
        match self.enclosing_op_of(op) {
            Some(p) => p,
            None => op,
        }
    }

    /// `self` after `op` was edited in place into a state that `op_with`
    /// describes, with everything else about the IR kept.
    pub open spec fn op_edited(&self, before: &Context, op: OpId, operands: Seq<ValueId>, attributes: Seq<NamedAttribute>) -> bool {
        &&& before.spec_op(op) matches Some(o) && self.spec_op(op) matches Some(n) && Context::op_with(o, n, operands, attributes)
        &&& forall|x: OpId| x != op ==> #[trigger] self.spec_op(x) == before.spec_op(x)
        &&& self.bumped(before, op)
        &&& self.dirty() == Context::marked(before.dirty(), before.edit_owner(op))
        &&& self.same_values(before)
        &&& self.same_regions(before)
        &&& self.same_blocks(before)
        &&& self.same_links(before)
        &&& self.same_counters(before)
    }

    /// `self` is `before`, untouched.
    pub open spec fn unchanged(&self, before: &Context) -> bool {
        &&& self.same_ops(before)
        &&& self.same_values(before)
        &&& self.same_regions(before)
        &&& self.same_blocks(before)
        &&& self.same_links(before)
        &&& self.same_counters(before)
        &&& self.same_versions(before)
        &&& self.dirty() == before.dirty()
    }

    /// Write `operands` and `attributes`, where given, into `op`, then
    /// record the edit.
    fn rewrite_op(&mut self, op: OpId, operands: Option<Vec<ValueId>>, attributes: Option<Vec<NamedAttribute>>)
        requires
            old(self).spec_op(op) is Some,
            old(self).can_edit(op),
        ensures
            final(self).op_edited(old(self), op,
                match operands { Some(v) => v@, None => old(self).spec_op(op)->0.operands@ },
                match attributes { Some(v) => v@, None => old(self).spec_op(op)->0.attributes@ }),
            final(self).operations@.len() == old(self).operations@.len(),
    {
        match slab_get_mut(&mut self.operations, op.0 as usize) {
            Some(entry) => {
                match operands {
                    Some(v) => {
                        entry.operands = v;
                    },
                    None => {},
                }
                match attributes {
                    Some(v) => {
                        entry.attributes = v;
                    },
                    None => {},
                }
            },
            None => {},
        }
        proof {
            Context::lemma_same_climb(old(self), self, op);
        }
        let ghost written = *self;
        self.edit_op(op);
        proof {
            assert forall|x: OpId| x != op implies #[trigger] self.spec_op(x) == old(self).spec_op(x) by {
                assert(x.0 != op.0);
                assert(self.spec_op(x) == written.spec_op(x));
            }
            assert(self.spec_op(op) == written.spec_op(op));
            Context::lemma_frame(self, &written);
            assert(written.enclosing_op_of(op) == old(self).enclosing_op_of(op));
            assert forall|o: OpId| #[trigger] self.version(o) == old(self).version(o) + if old(self).spine(op).contains(o) { 1nat } else { 0nat } by {
                assert(written.version(o) == old(self).version(o));
            }
        }
    }

    /// The operands of an existing op, copied out.
    fn op_operands(&self, op: OpId) -> (r: Vec<ValueId>)
        requires
            self.spec_op(op) is Some,
        ensures
            r@ == self.spec_op(op)->0.operands@,
    {
        let instance = slab_get(self.operations.as_slice(), op.0 as usize).unwrap();
        crate::ids::copy_vec(&instance.operands)
    }

    /// Replace an operation's attributes in place, keeping its id, position
    /// and regions, and record the edit; an op that does not exist is left
    /// alone.
    pub fn set_op_attributes(&mut self, id: OpId, attributes: Vec<NamedAttribute>)
        requires
            old(self).spec_op(id) is Some ==> old(self).can_edit(id),
        ensures
            old(self).spec_op(id) matches Some(o) ==> final(self).op_edited(old(self), id, o.operands@, attributes@),
            old(self).spec_op(id) is None ==> final(self).unchanged(old(self)),
    {
        if !self.has_operation(id) {
            return;
        }
        self.rewrite_op(id, None, Some(attributes));
    }

    /// Replace the operand at `index` with `new`, and record the edit; an op
    /// that does not exist, an index past its operands, or an operand that
    /// is already `new` leaves everything alone.
    pub fn set_op_operand(&mut self, id: OpId, index: usize, new: ValueId)
        requires
            old(self).spec_op(id) is Some ==> old(self).can_edit(id),
        ensures
            old(self).spec_op(id) matches Some(o) ==> (index < o.operands@.len() && o.operands@[index as int] != new
                ==> final(self).op_edited(old(self), id, o.operands@.update(index as int, new), o.attributes@)),
            old(self).spec_op(id) matches Some(o) ==> (!(index < o.operands@.len() && o.operands@[index as int] != new)
                ==> final(self).unchanged(old(self))),
            old(self).spec_op(id) is None ==> final(self).unchanged(old(self)),
    {
        if !self.has_operation(id) {
            return;
        }
        let mut operands = self.op_operands(id);
        if index >= operands.len() || operands[index] == new {
            return;
        }
        operands.set(index, new);
        self.rewrite_op(id, Some(operands), None);
    }

    /// Replace all of an operation's operands, and record the edit; an op
    /// that does not exist is left alone.
    pub fn set_op_operands(&mut self, id: OpId, operands: Vec<ValueId>)
        requires
            old(self).spec_op(id) is Some ==> old(self).can_edit(id),
        ensures
            old(self).spec_op(id) matches Some(o) ==> final(self).op_edited(old(self), id, operands@, o.attributes@),
            old(self).spec_op(id) is None ==> final(self).unchanged(old(self)),
    {
        if !self.has_operation(id) {
            return;
        }
        self.rewrite_op(id, Some(operands), None);
    }

    /// Remove an op from the arena; its links, versions and everything else
    /// stay.
    pub fn remove_operation(&mut self, id: OpId)
        ensures
            final(self).spec_op(id) is None,
            forall|x: OpId| x != id ==> #[trigger] final(self).spec_op(x) == old(self).spec_op(x),
            final(self).same_values(old(self)),
            final(self).same_regions(old(self)),
            final(self).same_blocks(old(self)),
            final(self).same_links(old(self)),
            final(self).same_counters(old(self)),
            final(self).same_versions(old(self)),
            final(self).dirty() == old(self).dirty(),
    {
        if (id.0 as usize) < self.operations.len() {
            self.operations.set(id.0 as usize, None);
        }
        proof {
            assert forall|x: OpId| x != id implies #[trigger] self.spec_op(x) == old(self).spec_op(x) by {
                assert(x.0 != id.0);
            }
        }
    }
}

} // verus!

verus! {

/// Ops in strictly increasing order of their numbers.
pub open spec fn strictly_sorted(ops: Seq<OpId>) -> bool {
    forall|i: int, j: int| 0 <= i < j < ops.len() ==> ops[i].0 < ops[j].0
}

/// `sorted` with `op` added in its place, unless it is already there.
fn insert_sorted(sorted: &mut Vec<OpId>, op: OpId)
    requires
        strictly_sorted(old(sorted)@),
    ensures
        strictly_sorted(final(sorted)@),
        forall|o: OpId| #[trigger] final(sorted)@.contains(o) <==> (old(sorted)@.contains(o) || o == op),
{
    let mut k: usize = 0;
    while k < sorted.len() && sorted[k].0 < op.0
        invariant
            k <= sorted@.len(),
            sorted@ == old(sorted)@,
            forall|j: int| 0 <= j < k ==> sorted@[j].0 < op.0,
        decreases sorted.len() - k,
    {
        k = k + 1;
    }
    if k < sorted.len() && sorted[k].0 == op.0 {
        proof {
            assert(sorted@[k as int] == op);
        }
        return;
    }
    let ghost before = sorted@;
    sorted.insert(k, op);
    proof {
        assert forall|i: int, j: int| 0 <= i < j < sorted@.len() implies sorted@[i].0 < sorted@[j].0 by {
            if j < k {
                assert(sorted@[i] == before[i] && sorted@[j] == before[j]);
            } else if j == k {
                assert(sorted@[i] == before[i]);
            } else if i > k {
                assert(sorted@[i] == before[i - 1] && sorted@[j] == before[j - 1]);
            } else if i == k {
                assert(sorted@[j] == before[j - 1]);
                assert(before[k as int].0 >= op.0);
                if j - 1 > k {
                    assert(before[k as int].0 < before[j - 1].0);
                }
            } else {
                assert(sorted@[i] == before[i] && sorted@[j] == before[j - 1]);
            }
        }
        assert forall|o: OpId| #[trigger] sorted@.contains(o) <==> (before.contains(o) || o == op) by {
            if sorted@.contains(o) {
                let i = choose|i: int| 0 <= i < sorted@.len() && sorted@[i] == o;
                if i < k {
                    assert(before[i] == o);
                } else if i > k {
                    assert(before[i - 1] == o);
                }
            }
            if before.contains(o) {
                let i = choose|i: int| 0 <= i < before.len() && before[i] == o;
                if i < k {
                    assert(sorted@[i] == o);
                } else {
                    assert(sorted@[i + 1] == o);
                }
            }
            if o == op {
                assert(sorted@[k as int] == o);
            }
        }
    }
}

impl Context {
    /// The subtrees edited since the last call, in increasing order with no
    /// repeats; the record is then cleared.
    pub fn take_dirty_ops(&mut self) -> (r: Vec<OpId>)
        ensures
            strictly_sorted(r@),
            forall|o: OpId| #[trigger] r@.contains(o) <==> old(self).dirty().contains(o),
            final(self).dirty().len() == 0,
            final(self).same_structure(old(self)),
            final(self).same_versions(old(self)),
    {
        let mut sorted: Vec<OpId> = Vec::new();
        let mut k: usize = 0;
        while k < self.dirty_ops.len()
            invariant
                k <= self.dirty_ops@.len(),
                self.dirty_ops@ == old(self).dirty_ops@,
                strictly_sorted(sorted@),
                forall|o: OpId| #[trigger] sorted@.contains(o) <==> self.dirty_ops@.subrange(0, k as int).contains(o),
            decreases self.dirty_ops.len() - k,
        {
            let op = self.dirty_ops[k];
            let ghost pre = self.dirty_ops@.subrange(0, k as int);
            insert_sorted(&mut sorted, op);
            proof {
                let post = self.dirty_ops@.subrange(0, k + 1);
                assert(post =~= pre.push(op));
                assert forall|o: OpId| #[trigger] post.contains(o) <==> (pre.contains(o) || o == op) by {
                    if post.contains(o) && o != op {
                        let i = choose|i: int| 0 <= i < post.len() && post[i] == o;
                        assert(pre[i] == o);
                    }
                    if pre.contains(o) {
                        let i = choose|i: int| 0 <= i < pre.len() && pre[i] == o;
                        assert(post[i] == o);
                    }
                    if o == op {
                        assert(post[k as int] == o);
                    }
                }
            }
            k = k + 1;
        }
        proof {
            assert(self.dirty_ops@.subrange(0, k as int) =~= self.dirty_ops@);
        }
        self.dirty_ops = Vec::new();
        sorted
    }
}

} // verus!

verus! {

/// `attrs` with the first attribute called `name` set to `value`, or, if
/// none is, with one appended.
pub open spec fn attrs_set(attrs: Seq<NamedAttribute>, name: String, value: AttributeValue) -> Seq<NamedAttribute> {
    match attr_index(attrs, name@) {
        Some(i) => attrs.update(i, NamedAttribute { name: attrs[i].name, value }),
        None => attrs.push(NamedAttribute { name, value }),
    }
}

impl Context {
    /// A block whose arguments, operations and attributes are as given,
    /// its id kept; a block that does not exist stays so.
    pub open spec fn block_became(before: Option<Block>, after: Option<Block>, arguments: Seq<ValueId>, attributes: Seq<NamedAttribute>) -> bool {
        match before {
            Some(ob) => after matches Some(nb) && nb.id == ob.id && nb.arguments@ == arguments
                && nb.operations@ == ob.operations@ && nb.attributes@ == attributes,
            None => after is None,
        }
    }

    /// An edit recordable against `block` stays recordable after a change
    /// that kept every link, region and version.
    proof fn lemma_block_climb(a: &Context, b: &Context, block: BlockId)
        requires
            a.can_edit_block(block),
            forall|o: OpId| #[trigger] b.spec_parent_block(o) == a.spec_parent_block(o),
            forall|x: BlockId| #[trigger] b.spec_parent_region(x) == a.spec_parent_region(x),
            b.same_regions(a),
            b.same_versions(a),
        ensures
            b.can_edit_block(block),
            b.enclosing_op(block) == a.enclosing_op(block),
            b.enclosing_op(block) matches Some(e) ==> b.spine(e) == a.spine(e),
    {
        match a.enclosing_op(block) {
            Some(e) => Context::lemma_same_climb(a, b, e),
            None => {},
        }
    }

    /// Set (or replace) the attribute `name` of `block`, and record the edit;
    /// a block that does not exist is left alone.
    pub fn set_block_attr(&mut self, block: BlockId, name: String, value: AttributeValue)
        requires
            old(self).can_edit_block(block),
        ensures
            Context::block_became(old(self).spec_block(block), final(self).spec_block(block),
                old(self).spec_block(block)->0.arguments@,
                attrs_set(old(self).spec_block(block)->0.attributes@, name, value)),
            forall|b: BlockId| b != block ==> #[trigger] final(self).spec_block(b) == old(self).spec_block(b),
            old(self).spec_block(block) is Some ==> final(self).block_edited(old(self), block),
            old(self).spec_block(block) is None ==> final(self).unchanged(old(self)),
            final(self).same_ops(old(self)),
            final(self).same_values(old(self)),
            final(self).same_regions(old(self)),
            final(self).same_links(old(self)),
            final(self).same_counters(old(self)),
    {
        let ghost before = *self;
        let found = match slab_get_mut(&mut self.blocks, block.0 as usize) {
            Some(entry) => {
                match crate::attributes::attr_position(entry.attributes.as_slice(), name.as_str()) {
                    Some(i) => {
                        proof {
                            crate::attributes::lemma_attr_index(entry.attributes@, name@);
                        }
                        let kept = entry.attributes[i].name.clone();
                        entry.attributes.set(i, NamedAttribute { name: kept, value });
                    },
                    None => {
                        entry.attributes.push(NamedAttribute { name, value });
                    },
                }
                true
            },
            None => false,
        };
        proof {
            assert forall|b: BlockId| b != block implies #[trigger] self.spec_block(b) == old(self).spec_block(b) by {
                assert(b.0 != block.0);
            }
        }
        if !found {
            return;
        }
        proof {
            Context::lemma_block_climb(&before, self, block);
        }
        let ghost written = *self;
        self.edit_block(block);
        proof {
            Context::lemma_frame(self, &written);
            assert forall|b: BlockId| b != block implies #[trigger] self.spec_block(b) == old(self).spec_block(b) by {
                assert(written.spec_block(b) == old(self).spec_block(b));
            }
            assert(forall|o: OpId| #[trigger] written.version(o) == old(self).version(o));
        }
    }

    /// Append a new argument of type `ty` to `block`, recording the block as
    /// its def-site, and record the edit. The value is created even when the
    /// block does not exist.
    pub fn append_block_argument(&mut self, block: BlockId, ty: TypeId) -> (r: Value)
        requires
            (old(self).next_value() as int) < usize::MAX,
            old(self).can_edit_block(block),
        ensures
            r == (Value { id: ValueId(old(self).next_value()), ty, defining_op: None }),
            final(self).spec_value(r.id) == Some(r),
            forall|v: ValueId| v != r.id ==> #[trigger] final(self).spec_value(v) == old(self).spec_value(v),
            final(self).next_value() == advanced(old(self).next_value()),
            final(self).next_op() == old(self).next_op(),
            final(self).next_region() == old(self).next_region(),
            final(self).next_block() == old(self).next_block(),
            Context::block_became(old(self).spec_block(block), final(self).spec_block(block),
                old(self).spec_block(block)->0.arguments@.push(r.id), old(self).spec_block(block)->0.attributes@),
            forall|b: BlockId| b != block ==> #[trigger] final(self).spec_block(b) == old(self).spec_block(b),
            forall|v: ValueId| #[trigger] final(self).spec_value_block(v) ==
                if v == r.id && old(self).spec_block(block) is Some { Some(block) } else { old(self).spec_value_block(v) },
            old(self).spec_block(block) is Some ==> final(self).block_edited(old(self), block),
            old(self).spec_block(block) is None ==> final(self).same_versions(old(self)) && final(self).dirty() == old(self).dirty(),
            final(self).same_ops(old(self)),
            final(self).same_regions(old(self)),
            forall|o: OpId| #[trigger] final(self).spec_parent_block(o) == old(self).spec_parent_block(o),
            forall|b: BlockId| #[trigger] final(self).spec_parent_region(b) == old(self).spec_parent_region(b),
    {
        let value = self.create_value(ty, None);
        let ghost created = *self;
        let found = self.has_block(block);
        self.push_argument(block, value.id);
        let ghost pushed = *self;
        proof {
            assert forall|v: ValueId| v != value.id implies #[trigger] self.spec_value(v) == old(self).spec_value(v) by {
                assert(self.spec_value(v) == created.spec_value(v));
            }
            assert forall|o: OpId| #[trigger] self.version(o) == old(self).version(o) by {
                assert(self.version(o) == created.version(o));
            }
            assert forall|o: OpId| #[trigger] self.spec_op(o) == old(self).spec_op(o) by {
                assert(self.spec_op(o) == created.spec_op(o));
            }
            assert forall|x: RegionId| #[trigger] self.spec_region(x) == old(self).spec_region(x) by {
                assert(self.spec_region(x) == created.spec_region(x));
            }
            assert forall|o: OpId| #[trigger] self.spec_parent_block(o) == old(self).spec_parent_block(o) by {
                assert(self.spec_parent_block(o) == created.spec_parent_block(o));
            }
            assert forall|x: BlockId| #[trigger] self.spec_parent_region(x) == old(self).spec_parent_region(x) by {
                assert(self.spec_parent_region(x) == created.spec_parent_region(x));
            }
            assert forall|v: ValueId| #[trigger] self.spec_value_block(v) == old(self).spec_value_block(v) by {
                assert(self.spec_value_block(v) == created.spec_value_block(v));
            }
            assert forall|b: BlockId| b != block implies #[trigger] self.spec_block(b) == old(self).spec_block(b) by {
                assert(created.spec_block(b) == old(self).spec_block(b));
            }
        }
        if !found {
            return value;
        }
        let ghost links = self.value_block@;
        slab_put(&mut self.value_block, value.id.0 as usize, block);
        proof {
            lemma_slab_after_put(links, value.id.0 as int, block);
            assert forall|v: ValueId| #[trigger] self.spec_value_block(v) ==
                if v == value.id { Some(block) } else { old(self).spec_value_block(v) } by {
                if v != value.id {
                    assert(v.0 != value.id.0);
                    assert(created.spec_value_block(v) == old(self).spec_value_block(v));
                }
            }
            assert forall|b: BlockId| b != block implies #[trigger] self.spec_block(b) == old(self).spec_block(b) by {
                assert(self.spec_block(b) == pushed.spec_block(b));
            }
            assert forall|o: OpId| #[trigger] self.spec_parent_block(o) == old(self).spec_parent_block(o) by {
                assert(self.spec_parent_block(o) == pushed.spec_parent_block(o));
            }
            assert forall|x: BlockId| #[trigger] self.spec_parent_region(x) == old(self).spec_parent_region(x) by {
                assert(self.spec_parent_region(x) == pushed.spec_parent_region(x));
            }
            assert forall|x: RegionId| #[trigger] self.spec_region(x) == old(self).spec_region(x) by {
                assert(self.spec_region(x) == pushed.spec_region(x));
            }
            assert forall|o: OpId| #[trigger] self.version(o) == old(self).version(o) by {
                assert(self.version(o) == pushed.version(o));
            }
            Context::lemma_block_climb(old(self), self, block);
        }
        let ghost written = *self;
        self.edit_block(block);
        proof {
            Context::lemma_frame(self, &written);
            assert forall|b: BlockId| b != block implies #[trigger] self.spec_block(b) == old(self).spec_block(b) by {
                assert(written.spec_block(b) == old(self).spec_block(b));
            }
            assert(forall|o: OpId| #[trigger] written.version(o) == old(self).version(o));
            assert forall|v: ValueId| v != value.id implies #[trigger] self.spec_value(v) == old(self).spec_value(v) by {
                assert(written.spec_value(v) == pushed.spec_value(v));
            }
            assert forall|o: OpId| #[trigger] self.spec_op(o) == old(self).spec_op(o) by {
                assert(written.spec_op(o) == pushed.spec_op(o));
            }
        }
        value
    }

    /// Push `v` onto `block`'s arguments, if the block exists.
    fn push_argument(&mut self, block: BlockId, v: ValueId)
        ensures
            Context::block_became(old(self).spec_block(block), final(self).spec_block(block),
                old(self).spec_block(block)->0.arguments@.push(v), old(self).spec_block(block)->0.attributes@),
            forall|b: BlockId| b != block ==> #[trigger] final(self).spec_block(b) == old(self).spec_block(b),
            final(self).operations@ == old(self).operations@,
            final(self).values@ == old(self).values@,
            final(self).regions@ == old(self).regions@,
            final(self).op_parent@ == old(self).op_parent@,
            final(self).block_parent@ == old(self).block_parent@,
            final(self).value_block@ == old(self).value_block@,
            final(self).op_version@ == old(self).op_version@,
            final(self).dirty_ops@ == old(self).dirty_ops@,
            final(self).same_counters(old(self)),
    {
        match slab_get_mut(&mut self.blocks, block.0 as usize) {
            Some(entry) => {
                entry.arguments.push(v);
            },
            None => {},
        }
        proof {
            assert forall|b: BlockId| b != block implies #[trigger] self.spec_block(b) == old(self).spec_block(b) by {
                assert(b.0 != block.0);
            }
        }
    }
}

} // verus!

verus! {

/// `before` with `op` as its defining op where `yes`.
pub open spec fn redefined(before: Option<Value>, op: OpId, yes: bool) -> Option<Value> {
    match before {
        Some(x) => Some(if yes { Value { id: x.id, ty: x.ty, defining_op: Some(op) } } else { x }),
        None => None,
    }
}

/// `before` owned by `op` where `yes`.
pub open spec fn reowned(before: Option<Region>, op: OpId, yes: bool) -> Option<Region> {
    match before {
        Some(x) => Some(if yes { Region { id: x.id, blocks: x.blocks, parent_op: Some(op) } } else { x }),
        None => None,
    }
}

/// `after` is `before` with one more op, `id`, the next op id: named
/// `dialect`.`name`, with no operands, results or regions and with
/// `attributes`; the registers its attributes name in a defining role of
/// `roles` record it as their defining op. Nothing else changes.
pub open spec fn attributed_op_added(
    before: &Context,
    after: &Context,
    id: OpId,
    dialect: Seq<char>,
    name: Seq<char>,
    attributes: Seq<NamedAttribute>,
    roles: Seq<(String, AttributeRole)>,
) -> bool {
    &&& id == OpId(before.next_op())
    &&& after.spec_op(id) matches Some(o) && o.id == id && o.dialect@ == dialect && o.name@ == name
        && o.operands@.len() == 0 && o.results@.len() == 0 && o.regions@.len() == 0 && o.attributes@ == attributes
    &&& forall|x: OpId| x != id ==> #[trigger] after.spec_op(x) == before.spec_op(x)
    &&& forall|v: ValueId| #[trigger] after.spec_value(v) == redefined(before.spec_value(v), id,
        op_defines(Seq::empty(), attributes, roles, v))
    &&& after.same_regions(before)
    &&& after.next_op() == advanced(before.next_op())
    &&& after.next_value() == before.next_value()
    &&& after.next_region() == before.next_region()
    &&& after.next_block() == before.next_block()
    &&& after.same_blocks(before)
    &&& after.same_links(before)
    &&& after.same_versions(before)
    &&& after.dirty() == before.dirty()
}

impl Context {
    /// Add an operation `dialect`.`name` that carries everything it touches
    /// in its attributes (no operands, results or regions), under the next
    /// op id, and return that id.
    pub fn add_attributed_op(&mut self, dialect: &str, name: &str, attributes: Vec<NamedAttribute>, attribute_roles: Vec<(String, AttributeRole)>) -> (r: OpId)
        requires
            (old(self).next_op() as int) < usize::MAX,
        ensures
            attributed_op_added(old(self), final(self), r, dialect@, name@, attributes@, attribute_roles@),
    {
        let instance = OpInstance {
            id: OpId(0),
            dialect: String::from_str(dialect),
            name: String::from_str(name),
            operands: Vec::new(),
            results: Vec::new(),
            regions: Vec::new(),
            attributes,
        };
        let ghost before = *self;
        let r = self.add_operation(instance, attribute_roles);
        proof {
            assert forall|x: RegionId| #[trigger] self.spec_region(x) == before.spec_region(x) by {
                assert(!Seq::<RegionId>::empty().contains(x));
            }
        }
        r
    }
}

/// Whether an op with these results, attributes and register roles defines
/// `v`: as one of its results, or through a register attribute in a
/// defining role.
pub open spec fn op_defines(results: Seq<ValueId>, attrs: Seq<NamedAttribute>, roles: Seq<(String, AttributeRole)>, v: ValueId) -> bool {
    results.contains(v) || role_defines(attrs, roles, v)
}

/// The value a register attribute in a defining role names, if the
/// attribute called `name` is such a register.
fn defined_register(attrs: &Vec<NamedAttribute>, name: &str) -> (r: Option<ValueId>)
    ensures
        r == match attr_index(attrs@, name@) {
            Some(i) => match attrs@[i].value {
                AttributeValue::Register(reg) => match register_value(reg) {
                    Some(n) => Some(ValueId(n)),
                    None => None,
                },
                _ => None,
            },
            None => None,
        },
{
    match find_attr(attrs.as_slice(), name) {
        Some(AttributeValue::Register(reg)) => match reg {
            RegisterAttr::Virtual { id, .. } => Some(ValueId(*id)),
            RegisterAttr::FixedUse { id, .. } => Some(ValueId(*id)),
            RegisterAttr::FixedDef { id, .. } => Some(ValueId(*id)),
            RegisterAttr::Physical { .. } => None,
        },
        _ => None,
    }
}

impl Context {
    /// Record `op` as `v`'s defining op, if `v` exists.
    fn mark_defined(&mut self, v: ValueId, op: OpId)
        ensures
            forall|x: ValueId| #[trigger] final(self).spec_value(x) == if x == v { redefined(old(self).spec_value(x), op, true) } else { old(self).spec_value(x) },
            final(self).operations@ == old(self).operations@,
            final(self).regions@ == old(self).regions@,
            final(self).blocks@ == old(self).blocks@,
            final(self).op_parent@ == old(self).op_parent@,
            final(self).block_parent@ == old(self).block_parent@,
            final(self).value_block@ == old(self).value_block@,
            final(self).op_version@ == old(self).op_version@,
            final(self).dirty_ops@ == old(self).dirty_ops@,
            final(self).same_counters(old(self)),
    {
        match slab_get_mut(&mut self.values, v.0 as usize) {
            Some(entry) => {
                entry.defining_op = Some(op);
            },
            None => {},
        }
        proof {
            assert forall|x: ValueId| #[trigger] self.spec_value(x) == if x == v { redefined(old(self).spec_value(x), op, true) } else { old(self).spec_value(x) } by {
                if x != v {
                    assert(x.0 != v.0);
                }
            }
        }
    }

    /// Record `op` as the owner of `region`, if it exists.
    fn mark_owned(&mut self, region: RegionId, op: OpId)
        ensures
            forall|x: RegionId| #[trigger] final(self).spec_region(x) == if x == region { reowned(old(self).spec_region(x), op, true) } else { old(self).spec_region(x) },
            final(self).operations@ == old(self).operations@,
            final(self).values@ == old(self).values@,
            final(self).blocks@ == old(self).blocks@,
            final(self).op_parent@ == old(self).op_parent@,
            final(self).block_parent@ == old(self).block_parent@,
            final(self).value_block@ == old(self).value_block@,
            final(self).op_version@ == old(self).op_version@,
            final(self).dirty_ops@ == old(self).dirty_ops@,
            final(self).same_counters(old(self)),
    {
        match slab_get_mut(&mut self.regions, region.0 as usize) {
            Some(entry) => {
                entry.parent_op = Some(op);
            },
            None => {},
        }
        proof {
            assert forall|x: RegionId| #[trigger] self.spec_region(x) == if x == region { reowned(old(self).spec_region(x), op, true) } else { old(self).spec_region(x) } by {
                if x != region {
                    assert(x.0 != region.0);
                }
            }
        }
    }

    /// Add `instance` to the arena under the next op id, and return that id.
    /// Its results, and the registers its attributes name in a defining role
    /// of `attribute_roles`, record it as their defining op; its regions
    /// record it as their owner.
    pub fn add_operation(&mut self, instance: OpInstance, attribute_roles: Vec<(String, AttributeRole)>) -> (r: OpId)
        requires
            (old(self).next_op() as int) < usize::MAX,
            forall|k: int| 0 <= k < instance.regions@.len() ==> old(self).spec_region(#[trigger] instance.regions@[k]) is Some,
        ensures
            r == OpId(old(self).next_op()),
            final(self).spec_op(r) matches Some(o) && o.id == r && o.dialect@ == instance.dialect@ && o.name@ == instance.name@
                && o.operands@ == instance.operands@ && o.results@ == instance.results@ && o.regions@ == instance.regions@
                && o.attributes@ == instance.attributes@,
            forall|x: OpId| x != r ==> #[trigger] final(self).spec_op(x) == old(self).spec_op(x),
            forall|v: ValueId| #[trigger] final(self).spec_value(v) == redefined(old(self).spec_value(v), r,
                op_defines(instance.results@, instance.attributes@, attribute_roles@, v)),
            forall|x: RegionId| #[trigger] final(self).spec_region(x) == reowned(old(self).spec_region(x), r, instance.regions@.contains(x)),
            final(self).next_op() == advanced(old(self).next_op()),
            final(self).next_value() == old(self).next_value(),
            final(self).next_region() == old(self).next_region(),
            final(self).next_block() == old(self).next_block(),
            final(self).same_blocks(old(self)),
            final(self).same_links(old(self)),
            final(self).same_versions(old(self)),
            final(self).dirty() == old(self).dirty(),
    {
        let mut instance = instance;
        let op_id = OpId(self.last_op_id);
        self.last_op_id = advance(self.last_op_id);
        instance.id = op_id;
        let ghost start = *self;
        let ghost results = instance.results@;
        let ghost attrs = instance.attributes@;
        let ghost roles = attribute_roles@;

        let mut k: usize = 0;
        while k < instance.results.len()
            invariant
                k <= results.len(),
                instance.results@ == results,
                forall|v: ValueId| #[trigger] self.spec_value(v) == redefined(start.spec_value(v), op_id, results.subrange(0, k as int).contains(v)),
                self.operations@ == start.operations@,
                self.regions@ == start.regions@,
                self.blocks@ == start.blocks@,
                self.op_parent@ == start.op_parent@,
                self.block_parent@ == start.block_parent@,
                self.value_block@ == start.value_block@,
                self.op_version@ == start.op_version@,
                self.dirty_ops@ == start.dirty_ops@,
                self.same_counters(&start),
            decreases results.len() - k,
        {
            let v = instance.results[k];
            let ghost before = *self;
            self.mark_defined(v, op_id);
            proof {
                let pre = results.subrange(0, k as int);
                let post = results.subrange(0, k + 1);
                assert(post =~= pre.push(v));
                assert forall|x: ValueId| #[trigger] self.spec_value(x) == redefined(start.spec_value(x), op_id, post.contains(x)) by {
                    assert(before.spec_value(x) == redefined(start.spec_value(x), op_id, pre.contains(x)));
                    if post.contains(x) && x != v {
                        let i = choose|i: int| 0 <= i < post.len() && post[i] == x;
                        assert(pre[i] == x);
                    }
                    if pre.contains(x) {
                        let i = choose|i: int| 0 <= i < pre.len() && pre[i] == x;
                        assert(post[i] == x);
                    }
                    if x == v {
                        assert(post[k as int] == x);
                    }
                }
            }
            k = k + 1;
        }
        proof {
            assert(results.subrange(0, results.len() as int) =~= results);
        }

        let mut m: usize = 0;
        while m < attribute_roles.len()
            invariant
                m <= roles.len(),
                attribute_roles@ == roles,
                instance.results@ == results,
                instance.attributes@ == attrs,
                forall|v: ValueId| #[trigger] self.spec_value(v) == redefined(start.spec_value(v), op_id,
                    results.contains(v) || role_defines(attrs, roles.subrange(0, m as int), v)),
                self.operations@ == start.operations@,
                self.regions@ == start.regions@,
                self.blocks@ == start.blocks@,
                self.op_parent@ == start.op_parent@,
                self.block_parent@ == start.block_parent@,
                self.value_block@ == start.value_block@,
                self.op_version@ == start.op_version@,
                self.dirty_ops@ == start.dirty_ops@,
                self.same_counters(&start),
            decreases roles.len() - m,
        {
            let ghost pre = roles.subrange(0, m as int);
            let ghost post = roles.subrange(0, m + 1);
            let ghost before = *self;
            let role = attribute_roles[m].1;
            let target = if role == AttributeRole::Def || role == AttributeRole::ReadWrite {
                defined_register(&instance.attributes, attribute_roles[m].0.as_str())
            } else {
                None
            };
            match target {
                Some(v) => {
                    self.mark_defined(v, op_id);
                },
                None => {},
            }
            proof {
                assert forall|x: ValueId| #[trigger] role_defines(attrs, post, x) <==> (role_defines(attrs, pre, x) || target == Some(x)) by {
                    if role_defines(attrs, post, x) {
                        let j = choose|j: int| 0 <= j < post.len() && defines((#[trigger] post[j]).1) && {
                            match attr_index(attrs, post[j].0@) {
                                Some(i) => attrs[i].value matches AttributeValue::Register(reg) && register_value(reg) == Some(x.0),
                                None => false,
                            }
                        };
                        if j < m {
                            assert(pre[j] == post[j]);
                        } else {
                            assert(post[j] == roles[m as int]);
                        }
                    }
                    if role_defines(attrs, pre, x) {
                        let j = choose|j: int| 0 <= j < pre.len() && defines((#[trigger] pre[j]).1) && {
                            match attr_index(attrs, pre[j].0@) {
                                Some(i) => attrs[i].value matches AttributeValue::Register(reg) && register_value(reg) == Some(x.0),
                                None => false,
                            }
                        };
                        assert(post[j] == pre[j]);
                    }
                    if target == Some(x) {
                        assert(post[m as int] == roles[m as int]);
                    }
                }
                assert forall|x: ValueId| #[trigger] self.spec_value(x) == redefined(start.spec_value(x), op_id,
                    results.contains(x) || role_defines(attrs, post, x)) by {
                    assert(before.spec_value(x) == redefined(start.spec_value(x), op_id, results.contains(x) || role_defines(attrs, pre, x)));
                }
            }
            m = m + 1;
        }
        proof {
            assert(roles.subrange(0, roles.len() as int) =~= roles);
        }

        let ghost valued = *self;
        let mut j: usize = 0;
        while j < instance.regions.len()
            invariant
                j <= instance.regions@.len(),
                forall|x: RegionId| #[trigger] self.spec_region(x) == reowned(start.spec_region(x), op_id, instance.regions@.subrange(0, j as int).contains(x)),
                self.operations@ == valued.operations@,
                self.values@ == valued.values@,
                self.blocks@ == valued.blocks@,
                self.op_parent@ == valued.op_parent@,
                self.block_parent@ == valued.block_parent@,
                self.value_block@ == valued.value_block@,
                self.op_version@ == valued.op_version@,
                self.dirty_ops@ == valued.dirty_ops@,
                self.same_counters(&start),
                valued.regions@ == start.regions@,
            decreases instance.regions.len() - j,
        {
            let region = instance.regions[j];
            let ghost before = *self;
            self.mark_owned(region, op_id);
            proof {
                let pre = instance.regions@.subrange(0, j as int);
                let post = instance.regions@.subrange(0, j + 1);
                assert(post =~= pre.push(region));
                assert forall|x: RegionId| #[trigger] self.spec_region(x) == reowned(start.spec_region(x), op_id, post.contains(x)) by {
                    assert(before.spec_region(x) == reowned(start.spec_region(x), op_id, pre.contains(x)));
                    if post.contains(x) && x != region {
                        let i = choose|i: int| 0 <= i < post.len() && post[i] == x;
                        assert(pre[i] == x);
                    }
                    if pre.contains(x) {
                        let i = choose|i: int| 0 <= i < pre.len() && pre[i] == x;
                        assert(post[i] == x);
                    }
                    if x == region {
                        assert(post[j as int] == x);
                    }
                }
            }
            j = j + 1;
        }
        proof {
            assert(instance.regions@.subrange(0, instance.regions@.len() as int) =~= instance.regions@);
        }
        let ghost ops_before = self.operations@;
        let ghost owned = *self;
        let ghost placed = instance;
        slab_put(&mut self.operations, op_id.0 as usize, instance);
        proof {
            lemma_slab_after_put(ops_before, op_id.0 as int, placed);
            assert forall|x: OpId| x != op_id implies #[trigger] self.spec_op(x) == old(self).spec_op(x) by {
                assert(x.0 != op_id.0);
            }
            assert forall|v: ValueId| #[trigger] self.spec_value(v) == redefined(old(self).spec_value(v), op_id,
                op_defines(results, attrs, roles, v)) by {
                assert(start.spec_value(v) == old(self).spec_value(v));
                assert(self.spec_value(v) == valued.spec_value(v));
            }
            assert forall|x: RegionId| #[trigger] self.spec_region(x) == reowned(old(self).spec_region(x), op_id, placed.regions@.contains(x)) by {
                assert(start.spec_region(x) == old(self).spec_region(x));
                assert(self.spec_region(x) == owned.spec_region(x));
            }
        }
        op_id
    }
}

} // verus!

verus! {

impl Context {
    /// Whether relinking `block` leaves the climb out of `region`'s owner
    /// alone: no op on that climb sits in `block`.
    pub open spec fn block_off_spine(&self, region: RegionId, block: BlockId) -> bool {
        self.region_owner(region) matches Some(o) ==> forall|k: int| 0 <= k < self.spine(o).len()
            ==> self.spec_parent_block(#[trigger] self.spine(o)[k]) != Some(block)
    }

    /// An edit to `region` recordable before relinking `block` is recordable
    /// after, along the same climb.
    proof fn lemma_relinked_block(a: &Context, b: &Context, region: RegionId, block: BlockId)
        requires
            a.region_owner(region) matches Some(o) ==> a.can_edit(o),
            a.block_off_spine(region, block),
            forall|x: BlockId| x != block ==> #[trigger] b.spec_parent_region(x) == a.spec_parent_region(x),
            forall|o: OpId| #[trigger] b.spec_parent_block(o) == a.spec_parent_block(o),
            b.same_regions(a),
            b.same_versions(a),
        ensures
            b.region_owner(region) == a.region_owner(region),
            b.region_owner(region) matches Some(o) ==> b.can_edit(o) && b.spine(o) == a.spine(o),
    {
        match a.region_owner(region) {
            Some(o) => {
                assert forall|k: int| 0 <= k < a.spine(o).len() implies b.enclosing_op_of(#[trigger] a.spine(o)[k]) == a.enclosing_op_of(a.spine(o)[k]) by {
                    let x = a.spine(o)[k];
                    match a.spec_parent_block(x) {
                        Some(pb) => {
                            assert(pb != block);
                            assert(b.spec_parent_region(pb) == a.spec_parent_region(pb));
                        },
                        None => {},
                    }
                }
                Context::lemma_spine_stable(a, b, o);
                assert forall|k: int| 0 <= k < b.spine(o).len() implies b.version(#[trigger] b.spine(o)[k]) < u32::MAX
                    && (b.spine(o)[k].0 as int) < usize::MAX by {
                    assert(b.version(b.spine(o)[k]) == a.version(a.spine(o)[k]));
                }
            },
            None => {},
        }
    }

    /// Set the record of the region holding `block`.
    fn write_block_link(&mut self, block: BlockId, region: Option<RegionId>)
        requires
            (block.0 as int) < usize::MAX,
        ensures
            forall|x: BlockId| #[trigger] final(self).spec_parent_region(x) == if x == block {
                if (block.0 as int) < old(self).block_parent@.len() || region is Some { region } else { None }
            } else { old(self).spec_parent_region(x) },
            final(self).operations@ == old(self).operations@,
            final(self).values@ == old(self).values@,
            final(self).regions@ == old(self).regions@,
            final(self).blocks@ == old(self).blocks@,
            final(self).op_parent@ == old(self).op_parent@,
            final(self).value_block@ == old(self).value_block@,
            final(self).op_version@ == old(self).op_version@,
            final(self).dirty_ops@ == old(self).dirty_ops@,
            final(self).same_counters(old(self)),
    {
        let ghost before = self.block_parent@;
        match region {
            Some(r) => {
                slab_put(&mut self.block_parent, block.0 as usize, r);
                proof {
                    lemma_slab_after_put(before, block.0 as int, r);
                }
            },
            None => {
                if (block.0 as usize) < self.block_parent.len() {
                    self.block_parent.set(block.0 as usize, None);
                }
            },
        }
        proof {
            assert forall|x: BlockId| #[trigger] self.spec_parent_region(x) == if x == block {
                if (block.0 as int) < before.len() || region is Some { region } else { None }
            } else { old(self).spec_parent_region(x) } by {
                if x != block {
                    assert(x.0 != block.0);
                }
            }
        }
    }

    /// Record `region` as the region holding `block`, and record the edit to
    /// the region's block list.
    pub fn set_block_parent(&mut self, block: BlockId, region: RegionId)
        requires
            (block.0 as int) < usize::MAX,
            old(self).region_owner(region) matches Some(o) ==> old(self).can_edit(o),
            old(self).block_off_spine(region, block),
        ensures
            forall|x: BlockId| #[trigger] final(self).spec_parent_region(x) == if x == block { Some(region) } else { old(self).spec_parent_region(x) },
            final(self).region_edited(old(self), region),
            final(self).same_ops(old(self)),
            final(self).same_values(old(self)),
            final(self).same_regions(old(self)),
            final(self).same_blocks(old(self)),
            forall|o: OpId| #[trigger] final(self).spec_parent_block(o) == old(self).spec_parent_block(o),
            forall|v: ValueId| #[trigger] final(self).spec_value_block(v) == old(self).spec_value_block(v),
            final(self).same_counters(old(self)),
    {
        self.write_block_link(block, Some(region));
        proof {
            Context::lemma_relinked_block(old(self), self, region, block);
        }
        let ghost linked = *self;
        self.edit_region(region);
        proof {
            Context::lemma_frame(self, &linked);
        }
    }

    /// Clear the record of the region holding `block`, and record the edit
    /// to that region's block list, if there was one.
    pub fn clear_block_parent(&mut self, block: BlockId)
        requires
            (block.0 as int) < usize::MAX,
            old(self).spec_parent_region(block) matches Some(region) ==> (
                (old(self).region_owner(region) matches Some(o) ==> old(self).can_edit(o))
                && old(self).block_off_spine(region, block)),
        ensures
            forall|x: BlockId| #[trigger] final(self).spec_parent_region(x) == if x == block { None } else { old(self).spec_parent_region(x) },
            old(self).spec_parent_region(block) matches Some(region) ==> final(self).region_edited(old(self), region),
            old(self).spec_parent_region(block) is None ==> final(self).same_versions(old(self)) && final(self).dirty() == old(self).dirty(),
            final(self).same_ops(old(self)),
            final(self).same_values(old(self)),
            final(self).same_regions(old(self)),
            final(self).same_blocks(old(self)),
            forall|o: OpId| #[trigger] final(self).spec_parent_block(o) == old(self).spec_parent_block(o),
            forall|v: ValueId| #[trigger] final(self).spec_value_block(v) == old(self).spec_value_block(v),
            final(self).same_counters(old(self)),
    {
        let region = self.parent_region_exec(block);
        self.write_block_link(block, None);
        match region {
            Some(region) => {
                proof {
                    Context::lemma_relinked_block(old(self), self, region, block);
                }
                let ghost linked = *self;
                self.edit_region(region);
                proof {
                    Context::lemma_frame(self, &linked);
                }
            },
            None => {},
        }
    }
}

} // verus!

verus! {

impl Context {
    /// A region with `block` appended to its blocks, everything else about
    /// it kept; a region that does not exist stays so.
    pub open spec fn region_grew(before: Option<Region>, after: Option<Region>, block: BlockId) -> bool {
        match before {
            Some(o) => after matches Some(n) && n.id == o.id && n.parent_op == o.parent_op && n.blocks@ == o.blocks@.push(block),
            None => after is None,
        }
    }

    /// Append `block` to `region`'s blocks, if the region exists.
    fn push_block(&mut self, region: RegionId, block: BlockId)
        ensures
            Context::region_grew(old(self).spec_region(region), final(self).spec_region(region), block),
            forall|x: RegionId| x != region ==> #[trigger] final(self).spec_region(x) == old(self).spec_region(x),
            final(self).operations@ == old(self).operations@,
            final(self).values@ == old(self).values@,
            final(self).blocks@ == old(self).blocks@,
            final(self).op_parent@ == old(self).op_parent@,
            final(self).block_parent@ == old(self).block_parent@,
            final(self).value_block@ == old(self).value_block@,
            final(self).op_version@ == old(self).op_version@,
            final(self).dirty_ops@ == old(self).dirty_ops@,
            final(self).same_counters(old(self)),
    {
        match slab_get_mut(&mut self.regions, region.0 as usize) {
            Some(entry) => {
                entry.blocks.push(block);
            },
            None => {},
        }
        proof {
            assert forall|x: RegionId| x != region implies #[trigger] self.spec_region(x) == old(self).spec_region(x) by {
                assert(x.0 != region.0);
            }
        }
    }

    /// Append `block` to `region`'s blocks and record the region as the one
    /// holding it, recording the edit to the region.
    pub fn add_block(&mut self, region: RegionId, block: BlockId)
        requires
            (block.0 as int) < usize::MAX,
            old(self).region_owner(region) matches Some(o) ==> old(self).can_edit(o),
            old(self).block_off_spine(region, block),
        ensures
            Context::region_grew(old(self).spec_region(region), final(self).spec_region(region), block),
            forall|x: RegionId| x != region ==> #[trigger] final(self).spec_region(x) == old(self).spec_region(x),
            forall|x: BlockId| #[trigger] final(self).spec_parent_region(x) == if x == block { Some(region) } else { old(self).spec_parent_region(x) },
            final(self).region_edited(old(self), region),
            final(self).same_ops(old(self)),
            final(self).same_values(old(self)),
            final(self).same_blocks(old(self)),
            forall|o: OpId| #[trigger] final(self).spec_parent_block(o) == old(self).spec_parent_block(o),
            forall|v: ValueId| #[trigger] final(self).spec_value_block(v) == old(self).spec_value_block(v),
            final(self).same_counters(old(self)),
    {
        self.set_block_parent(block, region);
        let ghost linked = *self;
        self.push_block(region, block);
        proof {
            assert(forall|o: OpId| #[trigger] self.version(o) == linked.version(o));
            assert(forall|o: OpId| #[trigger] self.spec_op(o) == linked.spec_op(o));
            assert(forall|v: ValueId| #[trigger] self.spec_value(v) == linked.spec_value(v));
            assert(forall|b: BlockId| #[trigger] self.spec_block(b) == linked.spec_block(b));
            assert(forall|o: OpId| #[trigger] self.spec_parent_block(o) == linked.spec_parent_block(o));
            assert(forall|b: BlockId| #[trigger] self.spec_parent_region(b) == linked.spec_parent_region(b));
            assert(forall|v: ValueId| #[trigger] self.spec_value_block(v) == linked.spec_value_block(v));
        }
    }
}

} // verus!

verus! {

impl Block {
    pub fn id(&self) -> (r: BlockId)
        ensures
            r == self.id,
    {
        self.id
    }

    /// The number of operations the block holds.
    pub fn len(&self) -> (r: usize)
        ensures
            r == self.operations@.len(),
    {
        self.operations.len()
    }

    pub fn is_empty(&self) -> (r: bool)
        ensures
            r == (self.operations@.len() == 0),
    {
        self.operations.len() == 0
    }

    /// The operations the block holds, in order.
    pub fn op_ids(&self) -> (r: Vec<OpId>)
        ensures
            r@ == self.operations@,
    {
        crate::ids::copy_vec(&self.operations)
    }

    /// The value of the first attribute called `name`, if any.
    pub fn attr(&self, name: &str) -> (r: Option<&AttributeValue>)
        ensures
            r == match attr_index(self.attributes@, name@) {
                Some(i) => Some(&self.attributes@[i].value),
                None => None::<&AttributeValue>,
            },
    {
        find_attr(self.attributes.as_slice(), name)
    }

    /// Whether `a` comes before `b` in the block: both are there and the
    /// first place of `a` is before the first place of `b`.
    pub fn is_before(&self, a: OpId, b: OpId) -> (r: bool)
        ensures
            r == (op_position(self.operations@, a) matches Some(i) && op_position(self.operations@, b) matches Some(j) && i < j),
    {
        match (position_of(&self.operations, a), position_of(&self.operations, b)) {
            (Some(i), Some(j)) => i < j,
            _ => false,
        }
    }
}

} // verus!

verus! {

/// The first position of `block` in `blocks`.
pub open spec fn block_position(blocks: Seq<BlockId>, block: BlockId) -> Option<int>
    decreases blocks.len(),
{
    if blocks.len() == 0 {
        None
    } else {
        match block_position(blocks.drop_last(), block) {
            Some(i) => Some(i),
            None => if blocks.last() == block { Some(blocks.len() - 1) } else { None },
        }
    }
}

proof fn lemma_block_position(blocks: Seq<BlockId>, block: BlockId)
    ensures
        match block_position(blocks, block) {
            Some(i) => 0 <= i < blocks.len() && blocks[i] == block && forall|j: int| 0 <= j < i ==> blocks[j] != block,
            None => !blocks.contains(block),
        },
    decreases blocks.len(),
{
    if blocks.len() > 0 {
        let prefix = blocks.drop_last();
        lemma_block_position(prefix, block);
        assert forall|j: int| 0 <= j < prefix.len() implies prefix[j] == blocks[j] by {}
        match block_position(prefix, block) {
            Some(i) => {
                assert forall|j: int| 0 <= j < i implies blocks[j] != block by {
                    assert(prefix[j] != block);
                }
            },
            None => {
                if blocks.last() == block {
                    assert forall|j: int| 0 <= j < blocks.len() - 1 implies blocks[j] != block by {
                        assert(!prefix.contains(block));
                        assert(prefix[j] == blocks[j]);
                    }
                } else if blocks.contains(block) {
                    let j = choose|j: int| 0 <= j < blocks.len() && blocks[j] == block;
                    assert(prefix[j] == block);
                }
            },
        }
    }
}

fn block_position_of(blocks: &Vec<BlockId>, block: BlockId) -> (r: Option<usize>)
    ensures
        match r {
            Some(i) => block_position(blocks@, block) == Some(i as int),
            None => block_position(blocks@, block) is None,
        },
{
    proof {
        lemma_block_position(blocks@, block);
    }
    let mut k: usize = 0;
    while k < blocks.len()
        invariant
            k <= blocks@.len(),
            forall|j: int| 0 <= j < k ==> blocks@[j] != block,
            match block_position(blocks@, block) {
                Some(i) => 0 <= i < blocks@.len() && blocks@[i] == block && forall|j: int| 0 <= j < i ==> blocks@[j] != block,
                None => !blocks@.contains(block),
            },
        decreases blocks.len() - k,
    {
        if blocks[k] == block {
            return Some(k);
        }
        k = k + 1;
    }
    None
}

impl Context {
    /// A region with the block at `position` taken out, everything else
    /// about it kept.
    pub open spec fn region_shrank(before: Option<Region>, after: Option<Region>, position: int) -> bool {
        match before {
            Some(o) => after matches Some(n) && n.id == o.id && n.parent_op == o.parent_op && n.blocks@ == o.blocks@.remove(position),
            None => after is None,
        }
    }

    /// Take the block at `position` out of `region`'s blocks.
    fn drop_block_at(&mut self, region: RegionId, position: usize)
        requires
            old(self).spec_region(region) matches Some(r) ==> position < r.blocks@.len(),
        ensures
            Context::region_shrank(old(self).spec_region(region), final(self).spec_region(region), position as int),
            forall|x: RegionId| x != region ==> #[trigger] final(self).spec_region(x) == old(self).spec_region(x),
            final(self).operations@ == old(self).operations@,
            final(self).values@ == old(self).values@,
            final(self).blocks@ == old(self).blocks@,
            final(self).op_parent@ == old(self).op_parent@,
            final(self).block_parent@ == old(self).block_parent@,
            final(self).value_block@ == old(self).value_block@,
            final(self).op_version@ == old(self).op_version@,
            final(self).dirty_ops@ == old(self).dirty_ops@,
            final(self).same_counters(old(self)),
    {
        match slab_get_mut(&mut self.regions, region.0 as usize) {
            Some(entry) => {
                entry.blocks.remove(position);
            },
            None => {},
        }
        proof {
            assert forall|x: RegionId| x != region implies #[trigger] self.spec_region(x) == old(self).spec_region(x) by {
                assert(x.0 != region.0);
            }
        }
    }

    /// The blocks of `region`, in order (none if it does not exist).
    pub open spec fn region_blocks(&self, region: RegionId) -> Seq<BlockId> {
        match self.spec_region(region) {
            Some(r) => r.blocks@,
            None => Seq::empty(),
        }
    }

    /// Take `block` out of `region`'s blocks and clear the record of the
    /// region holding it, recording the edit: whether it was there.
    pub fn remove_block(&mut self, region: RegionId, block: BlockId) -> (r: bool)
        requires
            (block.0 as int) < usize::MAX,
            old(self).spec_parent_region(block) matches Some(holder) ==> (
                (old(self).region_owner(holder) matches Some(o) ==> old(self).can_edit(o))
                && old(self).block_off_spine(holder, block)),
        ensures
            r == old(self).region_blocks(region).contains(block),
            r ==> Context::region_shrank(old(self).spec_region(region), final(self).spec_region(region),
                block_position(old(self).region_blocks(region), block)->0),
            r ==> forall|x: BlockId| #[trigger] final(self).spec_parent_region(x) == if x == block { None } else { old(self).spec_parent_region(x) },
            r ==> (old(self).spec_parent_region(block) matches Some(holder) ==> final(self).region_edited(old(self), holder)),
            r ==> (old(self).spec_parent_region(block) is None ==> final(self).same_versions(old(self)) && final(self).dirty() == old(self).dirty()),
            !r ==> final(self).unchanged(old(self)),
            forall|x: RegionId| x != region ==> #[trigger] final(self).spec_region(x) == old(self).spec_region(x),
            final(self).same_ops(old(self)),
            final(self).same_values(old(self)),
            final(self).same_blocks(old(self)),
            forall|o: OpId| #[trigger] final(self).spec_parent_block(o) == old(self).spec_parent_block(o),
            forall|v: ValueId| #[trigger] final(self).spec_value_block(v) == old(self).spec_value_block(v),
            final(self).same_counters(old(self)),
    {
        proof {
            lemma_block_position(old(self).region_blocks(region), block);
        }
        let position = match slab_get(self.regions.as_slice(), region.0 as usize) {
            Some(r) => block_position_of(&r.blocks, block),
            None => None,
        };
        let position = match position {
            Some(p) => p,
            None => {
                return false;
            },
        };
        self.clear_block_parent(block);
        let ghost cleared = *self;
        self.drop_block_at(region, position);
        proof {
            assert(forall|o: OpId| #[trigger] self.version(o) == cleared.version(o));
            assert(forall|o: OpId| #[trigger] self.spec_op(o) == cleared.spec_op(o));
            assert(forall|v: ValueId| #[trigger] self.spec_value(v) == cleared.spec_value(v));
            assert(forall|b: BlockId| #[trigger] self.spec_block(b) == cleared.spec_block(b));
            assert(forall|o: OpId| #[trigger] self.spec_parent_block(o) == cleared.spec_parent_block(o));
            assert(forall|b: BlockId| #[trigger] self.spec_parent_region(b) == cleared.spec_parent_region(b));
            assert(forall|v: ValueId| #[trigger] self.spec_value_block(v) == cleared.spec_value_block(v));
        }
        true
    }
}

} // verus!

verus! {

/// The number of unset flags.
pub open spec fn unset_count(flags: Seq<bool>) -> nat
    decreases flags.len(),
{
    if flags.len() == 0 {
        0
    } else {
        unset_count(flags.drop_last()) + if flags.last() { 0nat } else { 1nat }
    }
}

proof fn lemma_unset_count_set(flags: Seq<bool>, i: int)
    requires
        0 <= i < flags.len(),
        !flags[i],
    ensures
        unset_count(flags.update(i, true)) + 1 == unset_count(flags),
    decreases flags.len(),
{
    let after = flags.update(i, true);
    if i == flags.len() - 1 {
        assert(after.drop_last() =~= flags.drop_last());
    } else {
        assert(after.drop_last() =~= flags.drop_last().update(i, true));
        lemma_unset_count_set(flags.drop_last(), i);
    }
}

impl Context {
    /// Whether `c` is a block of an existing region of the existing op `op`.
    pub open spec fn op_child(&self, op: OpId, c: BlockId) -> bool {
        self.spec_op(op) matches Some(o) && exists|j: int|
            0 <= j < o.regions@.len() && self.spec_region(#[trigger] o.regions@[j]) is Some
                && self.region_blocks(o.regions@[j]).contains(c)
    }

    /// Whether `c` is a block of a region of an op that `b` holds.
    pub open spec fn child_block(&self, b: BlockId, c: BlockId) -> bool {
        exists|i: int| 0 <= i < self.block_ops(b).len() && self.op_child(#[trigger] self.block_ops(b)[i], c)
    }

    /// The existing blocks reached from `start` in at most `n` steps from a
    /// block to the blocks nested directly in it.
    pub open spec fn reach_within(&self, start: Set<BlockId>, n: nat) -> Set<BlockId>
        decreases n,
    {
        if n == 0 {
            Set::new(|b: BlockId| start.contains(b) && self.spec_block(b) is Some)
        } else {
            let prev = self.reach_within(start, (n - 1) as nat);
            prev.union(Set::new(|c: BlockId| self.spec_block(c) is Some && exists|b: BlockId| #[trigger] prev.contains(b) && self.child_block(b, c)))
        }
    }

    /// Whether `b` is `start` or nested in it, at any depth.
    pub open spec fn reached(&self, start: Set<BlockId>, b: BlockId) -> bool {
        exists|n: nat| #[trigger] self.reach_within(start, n).contains(b)
    }

    /// Whether `op` sits in a block that `start` holds or nests.
    pub open spec fn op_under(&self, start: Set<BlockId>, op: OpId) -> bool {
        exists|b: BlockId| #[trigger] self.reached(start, b) && self.block_ops(b).contains(op)
    }

    /// A set that holds the existing blocks of `start` and every existing
    /// block nested directly in one of its own holds everything reached.
    proof fn lemma_closed_holds_reach(&self, start: Set<BlockId>, s: Set<BlockId>, n: nat)
        requires
            forall|b: BlockId| start.contains(b) && self.spec_block(b) is Some ==> #[trigger] s.contains(b),
            forall|b: BlockId, c: BlockId| #[trigger] s.contains(b) && #[trigger] self.child_block(b, c) && self.spec_block(c) is Some ==> s.contains(c),
        ensures
            self.reach_within(start, n).subset_of(s),
        decreases n,
    {
        if n > 0 {
            self.lemma_closed_holds_reach(start, s, (n - 1) as nat);
        }
    }

    /// Push the blocks of `region` onto `pending`, if it exists.
    fn push_region_blocks(&self, pending: &mut Vec<BlockId>, region: RegionId)
        ensures
            final(pending)@ == old(pending)@ + self.region_blocks(region),
    {
        match slab_get(self.regions.as_slice(), region.0 as usize) {
            Some(r) => {
                let mut k: usize = 0;
                while k < r.blocks.len()
                    invariant
                        k <= r.blocks@.len(),
                        pending@ == old(pending)@ + r.blocks@.subrange(0, k as int),
                    decreases r.blocks.len() - k,
                {
                    pending.push(r.blocks[k]);
                    assert(pending@ =~= old(pending)@ + r.blocks@.subrange(0, k + 1));
                    k = k + 1;
                }
                assert(r.blocks@.subrange(0, r.blocks@.len() as int) =~= r.blocks@);
            },
            None => {
                assert(old(pending)@ + Seq::<BlockId>::empty() =~= old(pending)@);
            },
        }
    }

    /// Push the blocks of every region of `op` onto `pending`.
    fn push_op_children(&self, pending: &mut Vec<BlockId>, op: OpId)
        ensures
            old(pending)@.len() <= final(pending)@.len(),
            final(pending)@.subrange(0, old(pending)@.len() as int) == old(pending)@,
            forall|k: int| old(pending)@.len() <= k < final(pending)@.len() ==> self.op_child(op, #[trigger] final(pending)@[k]),
            forall|c: BlockId| #[trigger] self.op_child(op, c) ==> final(pending)@.contains(c),
    {
        let ghost base = pending@;
        match slab_get(self.operations.as_slice(), op.0 as usize) {
            Some(o) => {
                let mut j: usize = 0;
                while j < o.regions.len()
                    invariant
                        j <= o.regions@.len(),
                        self.spec_op(op) == Some(*o),
                        base.len() <= pending@.len(),
                        pending@.subrange(0, base.len() as int) == base,
                        forall|k: int| base.len() <= k < pending@.len() ==> self.op_child(op, #[trigger] pending@[k]),
                        forall|jj: int, c: BlockId| 0 <= jj < j && self.spec_region(#[trigger] o.regions@[jj]) is Some
                            && #[trigger] self.region_blocks(o.regions@[jj]).contains(c) ==> pending@.contains(c),
                    decreases o.regions.len() - j,
                {
                    let ghost before = pending@;
                    let region = o.regions[j];
                    self.push_region_blocks(pending, region);
                    proof {
                        let added = self.region_blocks(region);
                        assert forall|k: int| base.len() <= k < pending@.len() implies self.op_child(op, #[trigger] pending@[k]) by {
                            if k >= before.len() {
                                let c = pending@[k];
                                assert(added[k - before.len()] == c);
                                assert(added.contains(c));
                                assert(self.spec_region(o.regions@[j as int]) is Some);
                            } else {
                                assert(pending@[k] == before[k]);
                            }
                        }
                        assert(pending@.subrange(0, base.len() as int) =~= before.subrange(0, base.len() as int));
                        assert forall|jj: int, c: BlockId| 0 <= jj < j + 1 && self.spec_region(#[trigger] o.regions@[jj]) is Some
                            && #[trigger] self.region_blocks(o.regions@[jj]).contains(c) implies pending@.contains(c) by {
                            if jj < j {
                                assert(before.contains(c));
                                let k = choose|k: int| 0 <= k < before.len() && before[k] == c;
                                assert(pending@[k] == c);
                            } else {
                                let k = choose|k: int| 0 <= k < added.len() && added[k] == c;
                                assert(pending@[before.len() + k] == c);
                            }
                        }
                    }
                    j = j + 1;
                }
            },
            None => {
                assert(pending@.subrange(0, base.len() as int) =~= base);
            },
        }
    }

    /// Push every op `block` holds onto `ops`, and the blocks nested directly
    /// in it onto `pending`.
    fn visit_block(&self, pending: &mut Vec<BlockId>, ops: &mut Vec<OpId>, block: BlockId)
        ensures
            final(ops)@ == old(ops)@ + self.block_ops(block),
            old(pending)@.len() <= final(pending)@.len(),
            final(pending)@.subrange(0, old(pending)@.len() as int) == old(pending)@,
            forall|k: int| old(pending)@.len() <= k < final(pending)@.len() ==> self.child_block(block, #[trigger] final(pending)@[k]),
            forall|c: BlockId| #[trigger] self.child_block(block, c) ==> final(pending)@.contains(c),
    {
        let ghost base = pending@;
        match slab_get(self.blocks.as_slice(), block.0 as usize) {
            Some(b) => {
                let mut i: usize = 0;
                while i < b.operations.len()
                    invariant
                        i <= b.operations@.len(),
                        self.block_ops(block) == b.operations@,
                        ops@ == old(ops)@ + b.operations@.subrange(0, i as int),
                        base.len() <= pending@.len(),
                        pending@.subrange(0, base.len() as int) == base,
                        forall|k: int| base.len() <= k < pending@.len() ==> self.child_block(block, #[trigger] pending@[k]),
                        forall|ii: int, c: BlockId| 0 <= ii < i && #[trigger] self.op_child(b.operations@[ii], c) ==> pending@.contains(c),
                    decreases b.operations.len() - i,
                {
                    let op = b.operations[i];
                    ops.push(op);
                    assert(ops@ =~= old(ops)@ + b.operations@.subrange(0, i + 1));
                    let ghost before = pending@;
                    self.push_op_children(pending, op);
                    proof {
                        assert forall|k: int| base.len() <= k < pending@.len() implies self.child_block(block, #[trigger] pending@[k]) by {
                            if k >= before.len() {
                                assert(self.op_child(self.block_ops(block)[i as int], pending@[k]));
                            } else {
                                assert(pending@[k] == before[k]);
                            }
                        }
                        assert(pending@.subrange(0, base.len() as int) =~= before.subrange(0, base.len() as int));
                        assert forall|ii: int, c: BlockId| 0 <= ii < i + 1 && #[trigger] self.op_child(b.operations@[ii], c) implies pending@.contains(c) by {
                            if ii < i {
                                let k = choose|k: int| 0 <= k < before.len() && before[k] == c;
                                assert(pending@[k] == c);
                            }
                        }
                    }
                    i = i + 1;
                }
                assert(b.operations@.subrange(0, b.operations@.len() as int) =~= b.operations@);
                assert forall|c: BlockId| #[trigger] self.child_block(block, c) implies pending@.contains(c) by {
                    let ii = choose|ii: int| 0 <= ii < self.block_ops(block).len() && self.op_child(#[trigger] self.block_ops(block)[ii], c);
                    assert(self.op_child(b.operations@[ii], c));
                }
            },
            None => {
                assert(ops@ =~= old(ops)@ + self.block_ops(block));
                assert(pending@.subrange(0, base.len() as int) =~= base);
            },
        }
    }
}

impl Context {
    /// Every op in the blocks `start` holds or nests, and those blocks: the
    /// existing ones, each once.
    fn walk_blocks(&self, start: Vec<BlockId>) -> (r: (Vec<OpId>, Vec<BlockId>))
        ensures
            forall|x: OpId| #[trigger] r.0@.contains(x) <==> self.op_under(start@.to_set(), x),
            forall|b: BlockId| #[trigger] r.1@.contains(b) <==> self.reached(start@.to_set(), b),
    {
        let mut seen: Vec<bool> = Vec::new();
        while seen.len() < self.blocks.len()
            invariant
                seen@.len() <= self.blocks@.len(),
                forall|i: int| 0 <= i < seen@.len() ==> !seen@[i],
            decreases self.blocks.len() - seen.len(),
        {
            seen.push(false);
        }
        let ghost init = start@;
        let ghost init_set = init.to_set();
        let mut pending: Vec<BlockId> = start;
        let mut visited: Vec<BlockId> = Vec::new();
        let mut ops: Vec<OpId> = Vec::new();
        loop
            invariant
                init_set == init.to_set(),
                seen@.len() == self.blocks@.len(),
                forall|b: BlockId| #[trigger] visited@.contains(b) <==> (b.0 < seen@.len() && seen@[b.0 as int]),
                forall|b: BlockId| #[trigger] visited@.contains(b) ==> self.spec_block(b) is Some && self.reached(init_set, b),
                forall|k: int| 0 <= k < pending@.len() ==> init.contains(#[trigger] pending@[k])
                    || exists|b: BlockId| #[trigger] visited@.contains(b) && self.child_block(b, pending@[k]),
                forall|b: BlockId| init.contains(b) && self.spec_block(b) is Some ==> #[trigger] visited@.contains(b) || pending@.contains(b),
                forall|b: BlockId, c: BlockId| #[trigger] visited@.contains(b) && #[trigger] self.child_block(b, c) && self.spec_block(c) is Some
                    ==> visited@.contains(c) || pending@.contains(c),
                forall|x: OpId| #[trigger] ops@.contains(x) <==> exists|b: BlockId| #[trigger] visited@.contains(b) && self.block_ops(b).contains(x),
            ensures
                pending@.len() == 0,
            decreases unset_count(seen@), pending@.len(),
        {
            let ghost p0 = pending@;
            let b = match pending.pop() {
                Some(b) => b,
                None => {
                    break;
                },
            };
            proof {
                assert(p0 =~= pending@.push(b));
                assert forall|c: BlockId| p0.contains(c) && c != b implies pending@.contains(c) by {
                    let k = choose|k: int| 0 <= k < p0.len() && p0[k] == c;
                    assert(pending@[k] == c);
                }
                assert forall|k: int| 0 <= k < pending@.len() implies init.contains(#[trigger] pending@[k])
                    || exists|v: BlockId| #[trigger] visited@.contains(v) && self.child_block(v, pending@[k]) by {
                    assert(pending@[k] == p0[k]);
                }
                assert(init.contains(b) || exists|v: BlockId| #[trigger] visited@.contains(v) && self.child_block(v, b)) by {
                    assert(p0[p0.len() - 1] == b);
                }
            }
            let idx = b.0 as usize;
            if idx >= seen.len() || seen[idx] {
                proof {
                    if idx < seen@.len() {
                        assert(visited@.contains(b));
                    } else {
                        assert(self.spec_block(b) is None);
                    }
                }
                continue;
            }
            if slab_get(self.blocks.as_slice(), idx).is_none() {
                continue;
            }
            let ghost v0 = visited@;
            let ghost o0 = ops@;
            let ghost q0 = pending@;
            proof {
                assert forall|k: int| 0 <= k < q0.len() implies init.contains(#[trigger] q0[k])
                    || exists|v: BlockId| #[trigger] v0.contains(v) && self.child_block(v, q0[k]) by {
                    assert(q0[k] == pending@[k]);
                }
                assert forall|x: OpId| #[trigger] o0.contains(x) <==> exists|v: BlockId| #[trigger] v0.contains(v) && self.block_ops(v).contains(x) by {
                    assert(o0.contains(x) == ops@.contains(x));
                }
                assert forall|c: BlockId, d: BlockId| #[trigger] v0.contains(c) && #[trigger] self.child_block(c, d) && self.spec_block(d) is Some
                    implies v0.contains(d) || q0.contains(d) || d == b by {
                    assert(visited@.contains(c));
                    if !v0.contains(d) && d != b {
                        assert(p0.contains(d));
                    }
                }
                assert forall|c: BlockId| #[trigger] v0.contains(c) implies self.spec_block(c) is Some && self.reached(init_set, c) by {
                    assert(visited@.contains(c));
                }
                assert(self.reached(init_set, b)) by {
                    if init.contains(b) {
                        assert(init_set.contains(b));
                        assert(self.spec_block(b) is Some);
                        assert(self.reach_within(init_set, 0).contains(b));
                    } else {
                        let v = choose|v: BlockId| #[trigger] visited@.contains(v) && self.child_block(v, b);
                        let n = choose|n: nat| #[trigger] self.reach_within(init_set, n).contains(v);
                        assert(self.reach_within(init_set, n + 1).contains(b));
                    }
                }
                lemma_unset_count_set(seen@, idx as int);
            }
            seen.set(idx, true);
            visited.push(b);
            self.visit_block(&mut pending, &mut ops, b);
            proof {
                assert forall|c: BlockId| #[trigger] visited@.contains(c) <==> (c.0 < seen@.len() && seen@[c.0 as int]) by {
                    if visited@.contains(c) && c != b {
                        let k = choose|k: int| 0 <= k < visited@.len() && visited@[k] == c;
                        assert(v0[k] == c);
                    }
                    if v0.contains(c) {
                        let k = choose|k: int| 0 <= k < v0.len() && v0[k] == c;
                        assert(visited@[k] == c);
                    }
                    if c == b {
                        assert(visited@[v0.len() as int] == c);
                    }
                    if c.0 == b.0 {
                        assert(c == b);
                    }
                }
                assert forall|k: int| 0 <= k < pending@.len() implies init.contains(#[trigger] pending@[k])
                    || exists|v: BlockId| #[trigger] visited@.contains(v) && self.child_block(v, pending@[k]) by {
                    if k < q0.len() {
                        assert(pending@[k] == pending@.subrange(0, q0.len() as int)[k]);
                        if !init.contains(q0[k]) {
                            let v = choose|v: BlockId| #[trigger] v0.contains(v) && self.child_block(v, q0[k]);
                            let j = choose|j: int| 0 <= j < v0.len() && v0[j] == v;
                            assert(visited@[j] == v);
                            assert(visited@.contains(v));
                        }
                    } else {
                        assert(self.child_block(b, pending@[k]));
                        assert(visited@[v0.len() as int] == b);
                        assert(visited@.contains(b));
                    }
                }
                assert forall|c: BlockId| q0.contains(c) implies pending@.contains(c) by {
                    let k = choose|k: int| 0 <= k < q0.len() && q0[k] == c;
                    assert(pending@.subrange(0, q0.len() as int)[k] == c);
                }
                assert forall|x: OpId| #[trigger] ops@.contains(x) <==> exists|v: BlockId| #[trigger] visited@.contains(v) && self.block_ops(v).contains(x) by {
                    if ops@.contains(x) {
                        let k = choose|k: int| 0 <= k < ops@.len() && ops@[k] == x;
                        if k < o0.len() {
                            assert(o0[k] == x);
                            assert(o0.contains(x));
                            let v = choose|v: BlockId| #[trigger] v0.contains(v) && self.block_ops(v).contains(x);
                            let j = choose|j: int| 0 <= j < v0.len() && v0[j] == v;
                            assert(visited@[j] == v);
                            assert(visited@.contains(v));
                        } else {
                            assert(self.block_ops(b)[k - o0.len()] == x);
                            assert(visited@.contains(b));
                        }
                    }
                    if exists|v: BlockId| #[trigger] visited@.contains(v) && self.block_ops(v).contains(x) {
                        let v = choose|v: BlockId| #[trigger] visited@.contains(v) && self.block_ops(v).contains(x);
                        if v == b {
                            let k = choose|k: int| 0 <= k < self.block_ops(b).len() && self.block_ops(b)[k] == x;
                            assert(ops@[o0.len() + k] == x);
                        } else {
                            let k = choose|k: int| 0 <= k < visited@.len() && visited@[k] == v;
                            assert(v0[k] == v);
                            assert(v0.contains(v));
                            assert(exists|w: BlockId| #[trigger] v0.contains(w) && self.block_ops(w).contains(x));
                            assert(o0.contains(x));
                            let j = choose|j: int| 0 <= j < o0.len() && o0[j] == x;
                            assert(ops@[j] == x);
                        }
                    }
                }
                assert forall|c: BlockId, d: BlockId| #[trigger] visited@.contains(c) && #[trigger] self.child_block(c, d) && self.spec_block(d) is Some
                    implies visited@.contains(d) || pending@.contains(d) by {
                    if c != b {
                        let k = choose|k: int| 0 <= k < visited@.len() && visited@[k] == c;
                        assert(v0[k] == c);
                        assert(v0.contains(c));
                        if v0.contains(d) {
                            let j = choose|j: int| 0 <= j < v0.len() && v0[j] == d;
                            assert(visited@[j] == d);
                        } else if d != b {
                            assert(q0.contains(d));
                        } else {
                            assert(visited@[v0.len() as int] == d);
                        }
                    }
                }
                assert forall|c: BlockId| #[trigger] visited@.contains(c) implies self.spec_block(c) is Some && self.reached(init_set, c) by {
                    if c != b {
                        let k = choose|k: int| 0 <= k < visited@.len() && visited@[k] == c;
                        assert(v0[k] == c);
                        assert(v0.contains(c));
                    }
                }
                assert forall|c: BlockId| init.contains(c) && self.spec_block(c) is Some implies #[trigger] visited@.contains(c) || pending@.contains(c) by {
                    if v0.contains(c) {
                        let j = choose|j: int| 0 <= j < v0.len() && v0[j] == c;
                        assert(visited@[j] == c);
                    } else if c != b {
                        assert(q0.contains(c));
                    } else {
                        assert(visited@[v0.len() as int] == c);
                    }
                }
            }
        }
        proof {
            let s = Set::new(|c: BlockId| visited@.contains(c));
            assert forall|n: nat| #[trigger] self.reach_within(init_set, n).subset_of(s) by {
                self.lemma_closed_holds_reach(init_set, s, n);
            }
            assert forall|c: BlockId| #[trigger] visited@.contains(c) <==> self.reached(init_set, c) by {
                if self.reached(init_set, c) {
                    let n = choose|n: nat| #[trigger] self.reach_within(init_set, n).contains(c);
                    assert(self.reach_within(init_set, n).subset_of(s));
                }
            }
            assert forall|x: OpId| #[trigger] ops@.contains(x) <==> self.op_under(init_set, x) by {
                if self.op_under(init_set, x) {
                    let v = choose|v: BlockId| #[trigger] self.reached(init_set, v) && self.block_ops(v).contains(x);
                    assert(visited@.contains(v));
                }
            }
        }
        (ops, visited)
    }
}

} // verus!

verus! {

/// `operands` with every `old` replaced by `new`.
pub open spec fn replaced(operands: Seq<ValueId>, old: ValueId, new: ValueId) -> Seq<ValueId> {
    operands.map_values(|v: ValueId| if v == old { new } else { v })
}

fn replace_in(operands: &Vec<ValueId>, old: ValueId, new: ValueId) -> (r: Vec<ValueId>)
    ensures
        r@ == replaced(operands@, old, new),
{
    let mut out: Vec<ValueId> = Vec::new();
    let mut k: usize = 0;
    while k < operands.len()
        invariant
            k <= operands@.len(),
            out@ == replaced(operands@.subrange(0, k as int), old, new),
        decreases operands.len() - k,
    {
        let v = operands[k];
        out.push(if v == old { new } else { v });
        assert(out@ =~= replaced(operands@.subrange(0, k + 1), old, new));
        k = k + 1;
    }
    assert(operands@.subrange(0, operands@.len() as int) =~= operands@);
    out
}

fn contains_value(values: &Vec<ValueId>, v: ValueId) -> (r: bool)
    ensures
        r == values@.contains(v),
{
    let mut k: usize = 0;
    while k < values.len()
        invariant
            k <= values@.len(),
            forall|j: int| 0 <= j < k ==> values@[j] != v,
        decreases values.len() - k,
    {
        if values[k] == v {
            assert(values@[k as int] == v);
            return true;
        }
        k = k + 1;
    }
    false
}

/// A set of ops numbered below `n` has at most `n` members.
proof fn lemma_ops_below(ops: Set<OpId>, n: nat)
    requires
        forall|x: OpId| #[trigger] ops.contains(x) ==> (x.0 as int) < n,
    ensures
        ops.finite(),
        ops.len() <= n,
{
    let range = vstd::set_lib::set_int_range(0, n as int);
    let f = |i: int| OpId(i as u32);
    let all = range.map(f);
    vstd::set_lib::lemma_int_range(0, n as int);
    vstd::set_lib::lemma_map_size_bound(range, all, f);
    assert forall|x: OpId| #[trigger] ops.contains(x) implies all.contains(x) by {
        assert(range.contains(x.0 as int));
        assert(f(x.0 as int) == x);
    }
    vstd::set_lib::lemma_len_subset(ops, all);
}

impl Context {
    /// The number of op slots: every op number in use is below it.
    pub closed spec fn op_slots(&self) -> nat {
        self.operations@.len()
    }

    proof fn lemma_op_slots(&self, x: OpId)
        requires
            self.spec_op(x) is Some,
        ensures
            (x.0 as int) < self.op_slots(),
    {
    }

    /// Every op's climb ends, with room for `n` more bumps of each version
    /// on it.
    pub open spec fn room_to_edit(&self, n: nat) -> bool {
        forall|x: OpId| #[trigger] self.spec_op(x) is Some ==> self.spine_ends(x) && forall|k: int| 0 <= k < self.spine(x).len()
            ==> self.version(#[trigger] self.spine(x)[k]) + n < u32::MAX && (self.spine(x)[k].0 as int) < usize::MAX
    }

    /// The op whose subtree holds every use of `value`: the one enclosing its
    /// definition (its defining op, or the block it is an argument of).
    pub open spec fn use_scope(&self, value: ValueId) -> Option<OpId> {
        match self.spec_value(value) {
            Some(v) => match v.defining_op {
                Some(op) => self.enclosing_op_of(op),
                None => match self.spec_value_block(value) {
                    Some(b) => self.enclosing_op(b),
                    None => None,
                },
            },
            None => None,
        }
    }

    /// Whether a use of `value` at `op` is searched for: `op` sits under the
    /// use scope, or, without one, `op` exists.
    pub open spec fn in_use_scope(&self, value: ValueId, op: OpId) -> bool {
        match self.use_scope(value) {
            Some(root) => self.op_under(Set::new(|c: BlockId| self.op_child(root, c)), op),
            None => self.spec_op(op) is Some,
        }
    }

    /// Whether replacing the uses of `old` rewrites `op`.
    pub open spec fn rewrites(&self, old: ValueId, op: OpId) -> bool {
        &&& self.in_use_scope(old, op)
        &&& self.spec_op(op) matches Some(o) && o.operands@.contains(old)
    }

    /// The ops that replacing the uses of `old` rewrites.
    pub open spec fn rewritten(&self, old: ValueId) -> Set<OpId> {
        Set::new(|x: OpId| self.rewrites(old, x))
    }

    fn use_scope_exec(&self, value: ValueId) -> (r: Option<OpId>)
        ensures
            r == self.use_scope(value),
    {
        match slab_get(self.values.as_slice(), value.0 as usize) {
            Some(v) => match v.defining_op {
                Some(op) => self.enclosing_op_of_exec(op),
                None => match slab_get(self.value_block.as_slice(), value.0 as usize) {
                    Some(b) => self.enclosing_op_exec(*b),
                    None => None,
                },
            },
            None => None,
        }
    }

    /// Every op nested under `root`, at any depth.
    fn ops_under(&self, root: OpId) -> (r: Vec<OpId>)
        ensures
            forall|x: OpId| #[trigger] r@.contains(x) <==> self.op_under(Set::new(|c: BlockId| self.op_child(root, c)), x),
    {
        let mut start: Vec<BlockId> = Vec::new();
        self.push_op_children(&mut start, root);
        proof {
            assert(start@.to_set() =~= Set::new(|c: BlockId| self.op_child(root, c))) by {
                assert forall|c: BlockId| start@.contains(c) implies self.op_child(root, c) by {
                    let k = choose|k: int| 0 <= k < start@.len() && start@[k] == c;
                }
            }
        }
        let (ops, _) = self.walk_blocks(start);
        ops
    }

    /// Every op in the arena.
    fn live_ops(&self) -> (r: Vec<OpId>)
        ensures
            forall|x: OpId| #[trigger] r@.contains(x) <==> self.spec_op(x) is Some,
    {
        let mut out: Vec<OpId> = Vec::new();
        let mut k: usize = 0;
        while k < self.operations.len()
            invariant
                k <= self.operations@.len(),
                forall|x: OpId| #[trigger] out@.contains(x) <==> ((x.0 as int) < k && self.spec_op(x) is Some),
            decreases self.operations.len() - k,
        {
            if k <= u32::MAX as usize && self.operations[k].is_some() {
                let ghost before = out@;
                proof {
                    assert forall|x: OpId| #[trigger] before.contains(x) <==> ((x.0 as int) < k && self.spec_op(x) is Some) by {
                        assert(before.contains(x) == out@.contains(x));
                    }
                }
                out.push(OpId(k as u32));
                proof {
                    assert forall|x: OpId| #[trigger] out@.contains(x) <==> ((x.0 as int) < k + 1 && self.spec_op(x) is Some) by {
                        if out@.contains(x) && x.0 != k {
                            let j = choose|j: int| 0 <= j < out@.len() && out@[j] == x;
                            assert(before[j] == x);
                            assert(before.contains(x));
                        }
                        if x.0 == k {
                            assert(self.operations@[k as int] is Some);
                            assert(self.spec_op(x) is Some);
                        }
                        if (x.0 as int) < k && self.spec_op(x) is Some {
                            assert(before.contains(x));
                            let j = choose|j: int| 0 <= j < before.len() && before[j] == x;
                            assert(out@[j] == x);
                        }
                        if x.0 == k {
                            assert(out@[before.len() as int] == x);
                        }
                    }
                }
            }
            k = k + 1;
        }
        proof {
            assert forall|x: OpId| #[trigger] self.spec_op(x) is Some implies out@.contains(x) by {
                assert((x.0 as int) < self.operations@.len());
            }
        }
        out
    }
}

} // verus!

verus! {

/// `after` is `before` with every use of `old` replaced by `new`.
pub open spec fn op_rewritten(before: Option<OpInstance>, after: Option<OpInstance>, old: ValueId, new: ValueId) -> bool {
    match before {
        Some(o) => after matches Some(n) && Context::op_with(o, n, replaced(o.operands@, old, new), o.attributes@),
        None => false,
    }
}

proof fn lemma_replaced_drops(operands: Seq<ValueId>, old: ValueId, new: ValueId)
    requires
        old != new,
    ensures
        !replaced(operands, old, new).contains(old),
{
    if replaced(operands, old, new).contains(old) {
        let k = choose|k: int| 0 <= k < replaced(operands, old, new).len() && replaced(operands, old, new)[k] == old;
        assert(replaced(operands, old, new)[k] == if operands[k] == old { new } else { operands[k] });
    }
}

proof fn lemma_marked_contains(dirty: Seq<OpId>, op: OpId)
    ensures
        forall|o: OpId| #[trigger] Context::marked(dirty, op).contains(o) <==> (dirty.contains(o) || o == op),
{
    assert forall|o: OpId| #[trigger] Context::marked(dirty, op).contains(o) <==> (dirty.contains(o) || o == op) by {
        if dirty.len() > 0 && dirty.last() == op {
            if o == op {
                assert(dirty[dirty.len() - 1] == o);
            }
        } else {
            let m = dirty.push(op);
            if m.contains(o) && o != op {
                let k = choose|k: int| 0 <= k < m.len() && m[k] == o;
                assert(dirty[k] == o);
            }
            if dirty.contains(o) {
                let k = choose|k: int| 0 <= k < dirty.len() && dirty[k] == o;
                assert(m[k] == o);
            }
            if o == op {
                assert(m[dirty.len() as int] == o);
            }
        }
    }
}

impl Context {
    /// `self` is `before` after every use of `old` under its use scope was
    /// replaced by `new` (nothing changed if they are the same value): each
    /// rewritten op is bumped along its climb and its owner recorded dirty.
    pub open spec fn uses_replaced(&self, before: &Context, old: ValueId, new: ValueId) -> bool {
        &&& old == new ==> self.unchanged(before)
        &&& old != new ==> {
            &&& forall|x: OpId| #[trigger] before.rewrites(old, x) ==> op_rewritten(before.spec_op(x), self.spec_op(x), old, new)
            &&& forall|x: OpId| !before.rewrites(old, x) ==> #[trigger] self.spec_op(x) == before.spec_op(x)
            &&& before.rewritten(old).finite()
            &&& forall|o: OpId| #[trigger] self.version(o) == before.version(o)
                + before.rewritten(old).filter(|x: OpId| before.spine(x).contains(o)).len()
            &&& forall|o: OpId| #[trigger] self.dirty().contains(o) <==> (before.dirty().contains(o)
                || exists|x: OpId| before.rewrites(old, x) && #[trigger] before.edit_owner(x) == o)
            &&& self.same_values(before)
            &&& self.same_regions(before)
            &&& self.same_blocks(before)
            &&& self.same_links(before)
            &&& self.same_counters(before)
        }
        &&& self.op_slots() == before.op_slots()
    }

    /// Replace every use of `old` as an operand with `new`, in every op
    /// under the scope a use of `old` can sit in (or, without one, in every
    /// op), recording an edit for each op rewritten. Register attributes are
    /// left alone.
    pub fn replace_value_uses(&mut self, old_value: ValueId, new_value: ValueId)
        requires
            old(self).room_to_edit(old(self).op_slots()),
        ensures
            final(self).uses_replaced(old(self), old_value, new_value),
    {
        if old_value == new_value {
            return;
        }
        let list = match self.use_scope_exec(old_value) {
            Some(root) => self.ops_under(root),
            None => self.live_ops(),
        };
        let ghost start = *self;
        let ghost mut done: Set<OpId> = Set::empty();
        proof {
            assert forall|o: OpId| #[trigger] self.version(o) == start.version(o) + done.filter(|x: OpId| start.spine(x).contains(o)).len() by {
                assert(done.filter(|x: OpId| start.spine(x).contains(o)) =~= Set::empty());
            }
            assert(done =~= Set::new(|x: OpId| list@.subrange(0, 0).contains(x) && start.rewrites(old_value, x)));
        }
        let mut k: usize = 0;
        while k < list.len()
            invariant
                k <= list@.len(),
                old_value != new_value,
                start == *old(self),
                forall|x: OpId| #[trigger] list@.contains(x) <==> start.in_use_scope(old_value, x),
                start.room_to_edit(start.op_slots()),
                done == Set::new(|x: OpId| list@.subrange(0, k as int).contains(x) && start.rewrites(old_value, x)),
                forall|x: OpId| #[trigger] done.contains(x) ==> op_rewritten(start.spec_op(x), self.spec_op(x), old_value, new_value),
                forall|x: OpId| !done.contains(x) ==> #[trigger] self.spec_op(x) == start.spec_op(x),
                forall|o: OpId| #[trigger] self.version(o) == start.version(o) + done.filter(|x: OpId| start.spine(x).contains(o)).len(),
                forall|o: OpId| #[trigger] self.dirty().contains(o) <==> (start.dirty().contains(o)
                    || exists|x: OpId| #[trigger] done.contains(x) && start.edit_owner(x) == o),
                self.same_values(&start),
                self.same_regions(&start),
                self.same_blocks(&start),
                self.same_links(&start),
                self.same_counters(&start),
                self.operations@.len() == start.operations@.len(),
            decreases list.len() - k,
        {
            let x = list[k];
            let ghost prev = *self;
            let ghost next = Set::new(|y: OpId| list@.subrange(0, k + 1).contains(y) && start.rewrites(old_value, y));
            proof {
                assert forall|y: OpId| #[trigger] list@.subrange(0, k + 1).contains(y) <==> (list@.subrange(0, k as int).contains(y) || y == x) by {
                    let pre = list@.subrange(0, k as int);
                    let post = list@.subrange(0, k + 1);
                    if post.contains(y) && y != x {
                        let i = choose|i: int| 0 <= i < post.len() && post[i] == y;
                        assert(pre[i] == y);
                    }
                    if pre.contains(y) {
                        let i = choose|i: int| 0 <= i < pre.len() && pre[i] == y;
                        assert(post[i] == y);
                    }
                    if y == x {
                        assert(post[k as int] == y);
                    }
                }
                assert(list@.contains(x)) by {
                    assert(list@[k as int] == x);
                }
                assert forall|y: OpId| #[trigger] done.contains(y) implies start.spec_op(y) is Some by {}
                assert forall|y: OpId| #[trigger] done.contains(y) implies (y.0 as int) < start.op_slots() by {
                    start.lemma_op_slots(y);
                }
                lemma_ops_below(done, start.op_slots());
            }
            let present = self.has_operation(x);
            let uses = if present {
                let operands = self.op_operands(x);
                contains_value(&operands, old_value)
            } else {
                false
            };
            proof {
                if done.contains(x) {
                    lemma_replaced_drops(start.spec_op(x)->0.operands@, old_value, new_value);
                    assert(!uses);
                }
            }
            if uses {
                proof {
                    assert(!done.contains(x));
                    assert(start.rewrites(old_value, x));
                    assert(next =~= done.insert(x));
                    Context::lemma_spine_stable(&start, &prev, x);
                    let p = |y: OpId| start.spine(y).contains(x);
                    assert forall|j: int| 0 <= j < prev.spine(x).len() implies prev.version(#[trigger] prev.spine(x)[j]) < u32::MAX
                        && (prev.spine(x)[j].0 as int) < usize::MAX by {
                        let o = prev.spine(x)[j];
                        assert(start.spine(x)[j] == o);
                        done.lemma_len_filter(|y: OpId| start.spine(y).contains(o));
                    }
                }
                let operands = self.op_operands(x);
                let rewritten = replace_in(&operands, old_value, new_value);
                self.rewrite_op(x, Some(rewritten), None);
                proof {
                    assert forall|o: OpId| #[trigger] self.version(o) == start.version(o) + next.filter(|y: OpId| start.spine(y).contains(o)).len() by {
                        let f = done.filter(|y: OpId| start.spine(y).contains(o));
                        let g = next.filter(|y: OpId| start.spine(y).contains(o));
                        done.lemma_len_filter(|y: OpId| start.spine(y).contains(o));
                        if start.spine(x).contains(o) {
                            assert(g =~= f.insert(x));
                        } else {
                            assert(g =~= f);
                        }
                    }
                    lemma_marked_contains(prev.dirty(), prev.edit_owner(x));
                    assert(prev.edit_owner(x) == start.edit_owner(x));
                    assert forall|o: OpId| #[trigger] self.dirty().contains(o) <==> (start.dirty().contains(o)
                        || exists|y: OpId| #[trigger] next.contains(y) && start.edit_owner(y) == o) by {
                        assert(next.contains(x));
                        assert(prev.dirty().contains(o) <==> (start.dirty().contains(o)
                            || exists|y: OpId| #[trigger] done.contains(y) && start.edit_owner(y) == o));
                        if exists|y: OpId| #[trigger] next.contains(y) && start.edit_owner(y) == o {
                            let y = choose|y: OpId| #[trigger] next.contains(y) && start.edit_owner(y) == o;
                            if y != x {
                                assert(done.contains(y));
                                assert(prev.dirty().contains(o));
                            } else {
                                assert(o == prev.edit_owner(x));
                            }
                            assert(self.dirty().contains(o));
                        }
                        if self.dirty().contains(o) {
                            if o == prev.edit_owner(x) {
                                assert(next.contains(x) && start.edit_owner(x) == o);
                            } else {
                                assert(prev.dirty().contains(o));
                                if !start.dirty().contains(o) {
                                    let y = choose|y: OpId| #[trigger] done.contains(y) && start.edit_owner(y) == o;
                                    assert(next.contains(y));
                                }
                            }
                        }
                        if start.dirty().contains(o) {
                            assert(prev.dirty().contains(o));
                        }
                    }
                    assert forall|y: OpId| #[trigger] next.contains(y) implies op_rewritten(start.spec_op(y), self.spec_op(y), old_value, new_value) by {
                        if y != x {
                            assert(done.contains(y));
                            assert(self.spec_op(y) == prev.spec_op(y));
                        }
                    }
                    assert forall|y: OpId| !next.contains(y) implies #[trigger] self.spec_op(y) == start.spec_op(y) by {
                        assert(y != x);
                        assert(self.spec_op(y) == prev.spec_op(y));
                    }
                    assert forall|v: ValueId| #[trigger] self.spec_value(v) == start.spec_value(v) by {
                        assert(prev.spec_value(v) == start.spec_value(v));
                    }
                    assert forall|r: RegionId| #[trigger] self.spec_region(r) == start.spec_region(r) by {
                        assert(prev.spec_region(r) == start.spec_region(r));
                    }
                    assert forall|b: BlockId| #[trigger] self.spec_block(b) == start.spec_block(b) by {
                        assert(prev.spec_block(b) == start.spec_block(b));
                    }
                    assert forall|o: OpId| #[trigger] self.spec_parent_block(o) == start.spec_parent_block(o) by {
                        assert(prev.spec_parent_block(o) == start.spec_parent_block(o));
                    }
                    assert forall|b: BlockId| #[trigger] self.spec_parent_region(b) == start.spec_parent_region(b) by {
                        assert(prev.spec_parent_region(b) == start.spec_parent_region(b));
                    }
                    assert forall|v: ValueId| #[trigger] self.spec_value_block(v) == start.spec_value_block(v) by {
                        assert(prev.spec_value_block(v) == start.spec_value_block(v));
                    }
                }
            } else {
                proof {
                    assert(next =~= done) by {
                        if !done.contains(x) && start.rewrites(old_value, x) {
                            assert(self.spec_op(x) == start.spec_op(x));
                        }
                    }
                }
            }
            proof {
                done = next;
            }
            k = k + 1;
        }
        proof {
            assert(list@.subrange(0, list@.len() as int) =~= list@);
            assert(done =~= start.rewritten(old_value));
            assert forall|y: OpId| #[trigger] done.contains(y) implies (y.0 as int) < start.op_slots() by {
                start.lemma_op_slots(y);
            }
            lemma_ops_below(done, start.op_slots());
            assert forall|o: OpId| #[trigger] self.dirty().contains(o) <==> (start.dirty().contains(o)
                || exists|x: OpId| start.rewrites(old_value, x) && #[trigger] start.edit_owner(x) == o) by {
                if exists|x: OpId| start.rewrites(old_value, x) && #[trigger] start.edit_owner(x) == o {
                    let x = choose|x: OpId| start.rewrites(old_value, x) && #[trigger] start.edit_owner(x) == o;
                    assert(done.contains(x));
                }
            }
        }
    }
}

} // verus!

verus! {

impl Context {
    /// Take the subtree under `start` out of the live IR: clear the parent
    /// links a walk would follow and remove its ops from the arena. Bumps no
    /// version; the caller records the edit.
    fn detach_subtree(&mut self, start: Vec<BlockId>)
        ensures
            forall|x: OpId| #[trigger] final(self).spec_op(x) == if old(self).op_under(start@.to_set(), x) { None } else { old(self).spec_op(x) },
            forall|x: OpId| #[trigger] final(self).spec_parent_block(x) == if old(self).op_under(start@.to_set(), x) { None } else { old(self).spec_parent_block(x) },
            forall|b: BlockId| #[trigger] final(self).spec_parent_region(b) == if old(self).reached(start@.to_set(), b) { None } else { old(self).spec_parent_region(b) },
            final(self).same_values(old(self)),
            final(self).same_regions(old(self)),
            final(self).same_blocks(old(self)),
            forall|v: ValueId| #[trigger] final(self).spec_value_block(v) == old(self).spec_value_block(v),
            final(self).same_counters(old(self)),
            final(self).same_versions(old(self)),
            final(self).dirty() == old(self).dirty(),
            final(self).op_slots() == old(self).op_slots(),
    {
        let ghost set = start@.to_set();
        let (ops, blocks) = self.walk_blocks(start);
        let mut k: usize = 0;
        while k < ops.len()
            invariant
                k <= ops@.len(),
                forall|x: OpId| #[trigger] ops@.contains(x) <==> old(self).op_under(set, x),
                forall|x: OpId| #[trigger] self.spec_op(x) == if ops@.subrange(0, k as int).contains(x) { None } else { old(self).spec_op(x) },
                forall|x: OpId| #[trigger] self.spec_parent_block(x) == if ops@.subrange(0, k as int).contains(x) { None } else { old(self).spec_parent_block(x) },
                self.values@ == old(self).values@,
                self.regions@ == old(self).regions@,
                self.blocks@ == old(self).blocks@,
                self.block_parent@ == old(self).block_parent@,
                self.value_block@ == old(self).value_block@,
                self.op_version@ == old(self).op_version@,
                self.dirty_ops@ == old(self).dirty_ops@,
                self.operations@.len() == old(self).operations@.len(),
                self.same_counters(old(self)),
            decreases ops.len() - k,
        {
            let op = ops[k];
            let idx = op.0 as usize;
            let ghost before = *self;
            if idx < self.op_parent.len() {
                self.op_parent.set(idx, None);
            }
            if idx < self.operations.len() {
                self.operations.set(idx, None);
            }
            proof {
                let pre = ops@.subrange(0, k as int);
                let post = ops@.subrange(0, k + 1);
                assert forall|y: OpId| #[trigger] post.contains(y) <==> (pre.contains(y) || y == op) by {
                    if post.contains(y) && y != op {
                        let i = choose|i: int| 0 <= i < post.len() && post[i] == y;
                        assert(pre[i] == y);
                    }
                    if pre.contains(y) {
                        let i = choose|i: int| 0 <= i < pre.len() && pre[i] == y;
                        assert(post[i] == y);
                    }
                    if y == op {
                        assert(post[k as int] == y);
                    }
                }
                assert forall|y: OpId| #[trigger] self.spec_op(y) == if post.contains(y) { None } else { old(self).spec_op(y) } by {
                    assert(before.spec_op(y) == if pre.contains(y) { None } else { old(self).spec_op(y) });
                    if y != op {
                        assert(y.0 != op.0);
                    }
                }
                assert forall|y: OpId| #[trigger] self.spec_parent_block(y) == if post.contains(y) { None } else { old(self).spec_parent_block(y) } by {
                    assert(before.spec_parent_block(y) == if pre.contains(y) { None } else { old(self).spec_parent_block(y) });
                    if y != op {
                        assert(y.0 != op.0);
                    }
                }
            }
            k = k + 1;
        }
        proof {
            assert(ops@.subrange(0, ops@.len() as int) =~= ops@);
        }
        let ghost cleared = *self;
        let mut j: usize = 0;
        while j < blocks.len()
            invariant
                j <= blocks@.len(),
                forall|b: BlockId| #[trigger] blocks@.contains(b) <==> old(self).reached(set, b),
                forall|b: BlockId| #[trigger] self.spec_parent_region(b) == if blocks@.subrange(0, j as int).contains(b) { None } else { old(self).spec_parent_region(b) },
                self.operations@ == cleared.operations@,
                self.op_parent@ == cleared.op_parent@,
                self.values@ == old(self).values@,
                self.regions@ == old(self).regions@,
                self.blocks@ == old(self).blocks@,
                self.value_block@ == old(self).value_block@,
                self.op_version@ == old(self).op_version@,
                self.dirty_ops@ == old(self).dirty_ops@,
                self.same_counters(old(self)),
            decreases blocks.len() - j,
        {
            let b = blocks[j];
            let idx = b.0 as usize;
            let ghost before = *self;
            if idx < self.block_parent.len() {
                self.block_parent.set(idx, None);
            }
            proof {
                let pre = blocks@.subrange(0, j as int);
                let post = blocks@.subrange(0, j + 1);
                assert forall|y: BlockId| #[trigger] post.contains(y) <==> (pre.contains(y) || y == b) by {
                    if post.contains(y) && y != b {
                        let i = choose|i: int| 0 <= i < post.len() && post[i] == y;
                        assert(pre[i] == y);
                    }
                    if pre.contains(y) {
                        let i = choose|i: int| 0 <= i < pre.len() && pre[i] == y;
                        assert(post[i] == y);
                    }
                    if y == b {
                        assert(post[j as int] == y);
                    }
                }
                assert forall|y: BlockId| #[trigger] self.spec_parent_region(y) == if post.contains(y) { None } else { old(self).spec_parent_region(y) } by {
                    assert(before.spec_parent_region(y) == if pre.contains(y) { None } else { old(self).spec_parent_region(y) });
                    if y != b {
                        assert(y.0 != b.0);
                    }
                }
            }
            j = j + 1;
        }
        proof {
            assert(blocks@.subrange(0, blocks@.len() as int) =~= blocks@);
            assert forall|x: OpId| #[trigger] self.spec_op(x) == if old(self).op_under(set, x) { None } else { old(self).spec_op(x) } by {
                assert(self.spec_op(x) == cleared.spec_op(x));
            }
            assert forall|x: OpId| #[trigger] self.spec_parent_block(x) == if old(self).op_under(set, x) { None } else { old(self).spec_parent_block(x) } by {
                assert(self.spec_parent_block(x) == cleared.spec_parent_block(x));
            }
        }
    }
}

} // verus!

verus! {

/// The climb out from `op` along `step`, innermost first, if it ends within
/// `fuel` steps.
pub open spec fn climb_within(step: spec_fn(OpId) -> Option<OpId>, op: OpId, fuel: nat) -> Option<Seq<OpId>>
    decreases fuel,
{
    if fuel == 0 {
        None
    } else {
        match step(op) {
            None => Some(seq![op]),
            Some(parent) => match climb_within(step, parent, (fuel - 1) as nat) {
                Some(rest) => Some(seq![op] + rest),
                None => None,
            },
        }
    }
}

impl Context {
    /// A climb along the enclosing ops is a climb along any step that agrees
    /// with them.
    proof fn lemma_climb_is_spine(&self, step: spec_fn(OpId) -> Option<OpId>, op: OpId, fuel: nat)
        requires
            forall|x: OpId| #[trigger] step(x) == self.enclosing_op_of(x),
        ensures
            self.spine_within(op, fuel) == climb_within(step, op, fuel),
        decreases fuel,
    {
        if fuel > 0 {
            match self.enclosing_op_of(op) {
                Some(parent) => self.lemma_climb_is_spine(step, parent, (fuel - 1) as nat),
                None => {},
            }
        }
    }

    /// The block holding `x` once the subtree under `old_blocks` is detached.
    pub open spec fn swapped_parent_block(&self, old_blocks: Set<BlockId>, x: OpId) -> Option<BlockId> {
        if self.op_under(old_blocks, x) { None } else { self.spec_parent_block(x) }
    }

    /// The region holding `b` once the subtree under `old_blocks` is
    /// detached and `staged` is linked into `region`.
    pub open spec fn swapped_parent_region(&self, region: RegionId, old_blocks: Set<BlockId>, staged: Set<BlockId>, b: BlockId) -> Option<RegionId> {
        if staged.contains(b) {
            Some(region)
        } else if self.reached(old_blocks, b) {
            None
        } else {
            self.spec_parent_region(b)
        }
    }

    /// The op enclosing `x` once `region`'s contents are swapped for
    /// `staged`.
    pub open spec fn swapped_enclosing_op_of(&self, region: RegionId, old_blocks: Set<BlockId>, staged: Set<BlockId>, x: OpId) -> Option<OpId> {
        match self.swapped_parent_block(old_blocks, x) {
            Some(b) => match self.swapped_parent_region(region, old_blocks, staged, b) {
                Some(g) => self.region_owner(g),
                None => None,
            },
            None => None,
        }
    }

    /// `self` is `before` with `region`'s contents swapped for `staged`: the
    /// old subtree detached (its ops gone, its links cleared), the staged
    /// blocks linked in as the region's blocks, and the region's owner, if
    /// any, bumped and recorded dirty once.
    pub open spec fn swapped(&self, before: &Context, region: RegionId, staged: Seq<BlockId>) -> bool {
        let old_blocks = before.region_blocks(region).to_set();
        &&& forall|x: OpId| #[trigger] self.spec_op(x) == if before.op_under(old_blocks, x) { None } else { before.spec_op(x) }
        &&& forall|x: OpId| #[trigger] self.spec_parent_block(x) == before.swapped_parent_block(old_blocks, x)
        &&& forall|b: BlockId| #[trigger] self.spec_parent_region(b) == before.swapped_parent_region(region, old_blocks, staged.to_set(), b)
        &&& before.spec_region(region) matches Some(o) && self.spec_region(region) matches Some(n)
            && n.id == o.id && n.parent_op == o.parent_op && n.blocks@ == staged
        &&& forall|r: RegionId| r != region ==> #[trigger] self.spec_region(r) == before.spec_region(r)
        &&& self.same_values(before)
        &&& self.same_blocks(before)
        &&& forall|v: ValueId| #[trigger] self.spec_value_block(v) == before.spec_value_block(v)
        &&& self.same_counters(before)
        &&& self.op_slots() == before.op_slots()
        &&& match before.region_owner(region) {
            Some(o) => self.bumped(before, o) && self.dirty() == Context::marked(before.dirty(), o),
            None => self.same_versions(before) && self.dirty() == before.dirty(),
        }
    }

    /// `self` is `before` after replacing the uses of each pair's first
    /// value by its second, in order.
    pub open spec fn remaps_applied(&self, before: &Context, remap: Seq<(ValueId, ValueId)>) -> bool {
        exists|states: Seq<Context>| {
            &&& states.len() == remap.len() + 1
            &&& states[0] == *before
            &&& states[remap.len() as int] == *self
            &&& forall|i: int| 0 <= i < remap.len() ==> #[trigger] states[i + 1].uses_replaced(&states[i], remap[i].0, remap[i].1)
        }
    }

    /// Whether `region`'s contents can be swapped for `staged` and `remap`
    /// applied after: the region exists, the climb out of its owner is
    /// untouched by the swap and has room for its bump, and, when there is
    /// anything to remap, every op left climbs out of the swapped tree with
    /// room for the bump and the rewrites.
    pub open spec fn can_swap(&self, region: RegionId, staged: Seq<BlockId>, remaps: nat) -> bool {
        let old_blocks = self.region_blocks(region).to_set();
        let step = |y: OpId| self.swapped_enclosing_op_of(region, old_blocks, staged.to_set(), y);
        &&& self.spec_region(region) is Some
        &&& forall|k: int| 0 <= k < staged.len() ==> ((#[trigger] staged[k]).0 as int) < usize::MAX
        &&& self.region_owner(region) matches Some(o) ==> self.can_edit(o) && forall|k: int| 0 <= k < self.spine(o).len()
            ==> step(#[trigger] self.spine(o)[k]) == self.enclosing_op_of(self.spine(o)[k])
        &&& remaps > 0 ==> forall|x: OpId| #[trigger] self.spec_op(x) is Some && !self.op_under(old_blocks, x) ==> exists|fuel: nat|
            #[trigger] climb_within(step, x, fuel) matches Some(c) && forall|k: int| 0 <= k < c.len()
                ==> self.version(#[trigger] c[k]) + 1 + remaps * self.op_slots() < u32::MAX && (c[k].0 as int) < usize::MAX
    }
}

} // verus!

verus! {

impl Context {
    /// Set `region`'s blocks to `blocks`, if the region exists.
    fn set_region_blocks(&mut self, region: RegionId, blocks: Vec<BlockId>)
        ensures
            match old(self).spec_region(region) {
                Some(o) => final(self).spec_region(region) matches Some(n) && n.id == o.id && n.parent_op == o.parent_op && n.blocks@ == blocks@,
                None => final(self).spec_region(region) is None,
            },
            forall|x: RegionId| x != region ==> #[trigger] final(self).spec_region(x) == old(self).spec_region(x),
            final(self).operations@ == old(self).operations@,
            final(self).values@ == old(self).values@,
            final(self).blocks@ == old(self).blocks@,
            final(self).op_parent@ == old(self).op_parent@,
            final(self).block_parent@ == old(self).block_parent@,
            final(self).value_block@ == old(self).value_block@,
            final(self).op_version@ == old(self).op_version@,
            final(self).dirty_ops@ == old(self).dirty_ops@,
            final(self).same_counters(old(self)),
    {
        match slab_get_mut(&mut self.regions, region.0 as usize) {
            Some(entry) => {
                entry.blocks = blocks;
            },
            None => {},
        }
        proof {
            assert forall|x: RegionId| x != region implies #[trigger] self.spec_region(x) == old(self).spec_region(x) by {
                assert(x.0 != region.0);
            }
        }
    }

    /// Swap `region`'s contents for `staged` in one edit: detach the old
    /// subtree, link the staged blocks in, and bump the owner's climb once.
    fn swap_region_contents(&mut self, region: RegionId, staged: Vec<BlockId>)
        requires
            old(self).can_swap(region, staged@, 0),
        ensures
            final(self).swapped(old(self), region, staged@),
    {
        let ghost before = *self;
        let ghost old_set = before.region_blocks(region).to_set();
        let ghost staged_set = staged@.to_set();
        let (owner, old_blocks) = match slab_get(self.regions.as_slice(), region.0 as usize) {
            Some(r) => (r.parent_op, crate::ids::copy_vec(&r.blocks)),
            None => (None, Vec::new()),
        };
        proof {
            assert(old_blocks@ == before.region_blocks(region));
        }
        self.detach_subtree(old_blocks);
        let ghost detached = *self;
        self.set_region_blocks(region, crate::ids::copy_vec(&staged));
        let ghost resized = *self;
        let mut j: usize = 0;
        while j < staged.len()
            invariant
                j <= staged@.len(),
                forall|k: int| 0 <= k < staged@.len() ==> ((#[trigger] staged@[k]).0 as int) < usize::MAX,
                forall|b: BlockId| #[trigger] self.spec_parent_region(b) == if staged@.subrange(0, j as int).contains(b) { Some(region) } else { detached.spec_parent_region(b) },
                self.operations@ == resized.operations@,
                self.values@ == resized.values@,
                self.regions@ == resized.regions@,
                self.blocks@ == resized.blocks@,
                self.op_parent@ == resized.op_parent@,
                self.value_block@ == resized.value_block@,
                self.op_version@ == resized.op_version@,
                self.dirty_ops@ == resized.dirty_ops@,
                self.same_counters(&resized),
            decreases staged.len() - j,
        {
            let b = staged[j];
            let ghost pre_state = *self;
            self.write_block_link(b, Some(region));
            proof {
                let pre = staged@.subrange(0, j as int);
                let post = staged@.subrange(0, j + 1);
                assert forall|y: BlockId| #[trigger] post.contains(y) <==> (pre.contains(y) || y == b) by {
                    if post.contains(y) && y != b {
                        let i = choose|i: int| 0 <= i < post.len() && post[i] == y;
                        assert(pre[i] == y);
                    }
                    if pre.contains(y) {
                        let i = choose|i: int| 0 <= i < pre.len() && pre[i] == y;
                        assert(post[i] == y);
                    }
                    if y == b {
                        assert(post[j as int] == y);
                    }
                }
                assert forall|y: BlockId| #[trigger] self.spec_parent_region(y) == if post.contains(y) { Some(region) } else { detached.spec_parent_region(y) } by {
                    assert(pre_state.spec_parent_region(y) == if pre.contains(y) { Some(region) } else { detached.spec_parent_region(y) });
                }
            }
            j = j + 1;
        }
        proof {
            assert(staged@.subrange(0, staged@.len() as int) =~= staged@);
            assert forall|b: BlockId| #[trigger] self.spec_parent_region(b) == before.swapped_parent_region(region, old_set, staged_set, b) by {}
            assert forall|x: OpId| #[trigger] self.spec_parent_block(x) == before.swapped_parent_block(old_set, x) by {
                assert(self.spec_parent_block(x) == detached.spec_parent_block(x));
            }
            assert forall|g: RegionId| #[trigger] self.region_owner(g) == before.region_owner(g) by {
                assert(self.spec_region(g) == resized.spec_region(g));
                assert(detached.spec_region(g) == before.spec_region(g));
            }
            assert forall|x: OpId| #[trigger] self.enclosing_op_of(x) == before.swapped_enclosing_op_of(region, old_set, staged_set, x) by {
                match self.spec_parent_block(x) {
                    Some(b) => {
                        match self.spec_parent_region(b) {
                            Some(g) => {
                                assert(self.enclosing_op(b) == self.region_owner(g));
                            },
                            None => {},
                        }
                    },
                    None => {},
                }
            }
            assert forall|o: OpId| #[trigger] self.version(o) == before.version(o) by {
                assert(self.version(o) == resized.version(o));
                assert(resized.version(o) == detached.version(o));
            }
        }
        let ghost linked = *self;
        match owner {
            Some(o) => {
                proof {
                    assert(before.region_owner(region) == Some(o));
                    assert forall|k: int| 0 <= k < before.spine(o).len() implies self.enclosing_op_of(#[trigger] before.spine(o)[k]) == before.enclosing_op_of(before.spine(o)[k]) by {
                        let step = |y: OpId| before.swapped_enclosing_op_of(region, old_set, staged_set, y);
                        assert(step(before.spine(o)[k]) == before.enclosing_op_of(before.spine(o)[k]));
                    }
                    Context::lemma_spine_stable(&before, self, o);
                    assert forall|k: int| 0 <= k < self.spine(o).len() implies self.version(#[trigger] self.spine(o)[k]) < u32::MAX
                        && (self.spine(o)[k].0 as int) < usize::MAX by {
                        assert(self.spine(o)[k] == before.spine(o)[k]);
                    }
                }
                self.edit_subtree(o);
                proof {
                    Context::lemma_frame(self, &linked);
                }
            },
            None => {
                proof {
                    assert(before.region_owner(region) is None);
                }
            },
        }
        proof {
            assert forall|x: OpId| #[trigger] self.spec_op(x) == if before.op_under(old_set, x) { None } else { before.spec_op(x) } by {
                assert(self.spec_op(x) == linked.spec_op(x));
                assert(linked.spec_op(x) == detached.spec_op(x));
            }
            assert forall|x: OpId| #[trigger] self.spec_parent_block(x) == before.swapped_parent_block(old_set, x) by {
                assert(self.spec_parent_block(x) == linked.spec_parent_block(x));
            }
            assert forall|b: BlockId| #[trigger] self.spec_parent_region(b) == before.swapped_parent_region(region, old_set, staged_set, b) by {
                assert(self.spec_parent_region(b) == linked.spec_parent_region(b));
            }
            assert forall|r: RegionId| r != region implies #[trigger] self.spec_region(r) == before.spec_region(r) by {
                assert(self.spec_region(r) == linked.spec_region(r));
                assert(linked.spec_region(r) == resized.spec_region(r));
                assert(resized.spec_region(r) == detached.spec_region(r));
                assert(detached.spec_region(r) == before.spec_region(r));
            }
            assert(self.spec_region(region) == linked.spec_region(region));
            assert forall|v: ValueId| #[trigger] self.spec_value(v) == before.spec_value(v) by {
                assert(self.spec_value(v) == linked.spec_value(v));
                assert(detached.spec_value(v) == before.spec_value(v));
            }
            assert forall|b: BlockId| #[trigger] self.spec_block(b) == before.spec_block(b) by {
                assert(self.spec_block(b) == linked.spec_block(b));
                assert(detached.spec_block(b) == before.spec_block(b));
            }
            assert forall|v: ValueId| #[trigger] self.spec_value_block(v) == before.spec_value_block(v) by {
                assert(self.spec_value_block(v) == linked.spec_value_block(v));
                assert(detached.spec_value_block(v) == before.spec_value_block(v));
            }
        }
    }
}

} // verus!

verus! {

/// A region body under construction, off to the side of the live IR: its
/// blocks belong to no region until the staging is committed with
/// [`Context::replace_region_contents`], so building them bumps no version
/// and dirties no subtree. [`Context::discard_staged`] drops it instead.
pub struct StagedRegion {
    blocks: Vec<BlockId>,
    remap: Vec<(ValueId, ValueId)>,
}

impl StagedRegion {
    /// The staged blocks, in order; the first becomes the region's entry.
    pub closed spec fn staged_blocks(&self) -> Seq<BlockId> {
        self.blocks@
    }

    /// The replacements to make on commit, in order.
    pub closed spec fn remaps(&self) -> Seq<(ValueId, ValueId)> {
        self.remap@
    }

    /// Append a block carrying one new argument per entry of
    /// `argument_types`.
    pub fn append_block(&mut self, context: &mut Context, argument_types: &[TypeId]) -> (r: BlockId)
        requires
            old(context).next_value() + argument_types@.len() < u32::MAX,
            (old(context).next_block() as int) < usize::MAX,
        ensures
            r == BlockId(old(context).next_block()),
            final(self).staged_blocks() == old(self).staged_blocks().push(r),
            final(self).remaps() == old(self).remaps(),
            final(context).spec_block(r) matches Some(b) && b.id == r && b.operations@.len() == 0 && b.attributes@.len() == 0
                && b.arguments@.len() == argument_types@.len()
                && forall|i: int| 0 <= i < argument_types@.len() ==> {
                    &&& #[trigger] b.arguments@[i] == ValueId((old(context).next_value() + i) as u32)
                    &&& final(context).spec_value(b.arguments@[i]) == Some(Value { id: b.arguments@[i], ty: argument_types@[i], defining_op: None })
                    &&& final(context).spec_value_block(b.arguments@[i]) == Some(r)
                },
            forall|x: BlockId| x != r ==> #[trigger] final(context).spec_block(x) == old(context).spec_block(x),
            forall|v: ValueId| ((v.0 as int) < old(context).next_value() || v.0 >= old(context).next_value() + argument_types@.len())
                ==> #[trigger] final(context).spec_value(v) == old(context).spec_value(v) && final(context).spec_value_block(v) == old(context).spec_value_block(v),
            final(context).next_value() == old(context).next_value() + argument_types@.len(),
            final(context).next_block() == advanced(old(context).next_block()),
            final(context).next_op() == old(context).next_op(),
            final(context).next_region() == old(context).next_region(),
            final(context).same_ops(old(context)),
            final(context).same_regions(old(context)),
            forall|o: OpId| #[trigger] final(context).spec_parent_block(o) == old(context).spec_parent_block(o),
            forall|b: BlockId| #[trigger] final(context).spec_parent_region(b) == old(context).spec_parent_region(b),
            final(context).same_versions(old(context)),
            final(context).dirty() == old(context).dirty(),
    {
        let ghost first = old(context).next_value();
        let mut arguments: Vec<ValueId> = Vec::new();
        let mut k: usize = 0;
        while k < argument_types.len()
            invariant
                k <= argument_types@.len(),
                first + argument_types@.len() < u32::MAX,
                first == old(context).next_value(),
                context.next_value() == first + k,
                arguments@.len() == k,
                forall|i: int| 0 <= i < k ==> #[trigger] arguments@[i] == ValueId((first + i) as u32)
                    && context.spec_value(arguments@[i]) == Some(Value { id: arguments@[i], ty: argument_types@[i], defining_op: None }),
                forall|v: ValueId| ((v.0 as int) < first || v.0 >= first + k) ==> #[trigger] context.spec_value(v) == old(context).spec_value(v),
                context.next_block() == old(context).next_block(),
                context.next_op() == old(context).next_op(),
                context.next_region() == old(context).next_region(),
                context.same_ops(old(context)),
                context.same_regions(old(context)),
                context.same_blocks(old(context)),
                context.same_links(old(context)),
                context.same_versions(old(context)),
                context.dirty() == old(context).dirty(),
            decreases argument_types.len() - k,
        {
            let ghost before = *context;
            let value = context.create_value(argument_types[k], None);
            arguments.push(value.id);
            proof {
                assert forall|v: ValueId| ((v.0 as int) < first || v.0 >= first + k + 1) implies #[trigger] context.spec_value(v) == old(context).spec_value(v) by {
                    assert(v != value.id);
                    assert(before.spec_value(v) == old(context).spec_value(v));
                }
                assert forall|i: int| 0 <= i < k + 1 implies #[trigger] arguments@[i] == ValueId((first + i) as u32)
                    && context.spec_value(arguments@[i]) == Some(Value { id: arguments@[i], ty: argument_types@[i], defining_op: None }) by {
                    if i < k {
                        assert(arguments@[i] != value.id);
                    }
                }
                assert forall|o: OpId| #[trigger] context.spec_op(o) == old(context).spec_op(o) by {
                    assert(before.spec_op(o) == old(context).spec_op(o));
                }
                assert forall|x: RegionId| #[trigger] context.spec_region(x) == old(context).spec_region(x) by {
                    assert(before.spec_region(x) == old(context).spec_region(x));
                }
                assert forall|x: BlockId| #[trigger] context.spec_block(x) == old(context).spec_block(x) by {
                    assert(before.spec_block(x) == old(context).spec_block(x));
                }
                assert forall|o: OpId| #[trigger] context.version(o) == old(context).version(o) by {
                    assert(before.version(o) == old(context).version(o));
                }
                assert forall|o: OpId| #[trigger] context.spec_parent_block(o) == old(context).spec_parent_block(o) by {
                    assert(before.spec_parent_block(o) == old(context).spec_parent_block(o));
                }
                assert forall|x: BlockId| #[trigger] context.spec_parent_region(x) == old(context).spec_parent_region(x) by {
                    assert(before.spec_parent_region(x) == old(context).spec_parent_region(x));
                }
                assert forall|v: ValueId| #[trigger] context.spec_value_block(v) == old(context).spec_value_block(v) by {
                    assert(before.spec_value_block(v) == old(context).spec_value_block(v));
                }
            }
            k = k + 1;
        }
        let ghost args = arguments@;
        let ghost made = *context;
        let block = context.create_block(arguments);
        self.blocks.push(block);
        proof {
            assert forall|v: ValueId| ((v.0 as int) < first || v.0 >= first + argument_types@.len())
                implies #[trigger] context.spec_value(v) == old(context).spec_value(v) && context.spec_value_block(v) == old(context).spec_value_block(v) by {
                assert(made.spec_value(v) == old(context).spec_value(v));
                if args.contains(v) {
                    let i = choose|i: int| 0 <= i < args.len() && args[i] == v;
                    assert(args[i] == ValueId((first + i) as u32));
                }
                assert(made.spec_value_block(v) == old(context).spec_value_block(v));
            }
            assert forall|i: int| 0 <= i < argument_types@.len() implies context.spec_value_block(#[trigger] args[i]) == Some(block) by {
                assert(args.contains(args[i]));
            }
            assert forall|i: int| 0 <= i < argument_types@.len() implies context.spec_value(#[trigger] args[i])
                == Some(Value { id: args[i], ty: argument_types@[i], defining_op: None }) by {
                assert(made.spec_value(args[i]) == Some(Value { id: args[i], ty: argument_types@[i], defining_op: None }));
            }
            assert forall|o: OpId| #[trigger] context.spec_op(o) == old(context).spec_op(o) by {
                assert(made.spec_op(o) == old(context).spec_op(o));
            }
            assert forall|x: RegionId| #[trigger] context.spec_region(x) == old(context).spec_region(x) by {
                assert(made.spec_region(x) == old(context).spec_region(x));
            }
            assert forall|x: BlockId| x != block implies #[trigger] context.spec_block(x) == old(context).spec_block(x) by {
                assert(made.spec_block(x) == old(context).spec_block(x));
            }
            assert forall|o: OpId| #[trigger] context.version(o) == old(context).version(o) by {
                assert(made.version(o) == old(context).version(o));
            }
            assert forall|o: OpId| #[trigger] context.spec_parent_block(o) == old(context).spec_parent_block(o) by {
                assert(made.spec_parent_block(o) == old(context).spec_parent_block(o));
            }
            assert forall|x: BlockId| #[trigger] context.spec_parent_region(x) == old(context).spec_parent_region(x) by {
                assert(made.spec_parent_region(x) == old(context).spec_parent_region(x));
            }
        }
        block
    }

    /// The `index`-th argument of a staged block, for staged ops to consume.
    pub fn block_argument(&self, context: &Context, block: BlockId, index: usize) -> (r: Value)
        requires
            context.spec_block(block) matches Some(b) && index < b.arguments@.len()
                && context.spec_value(b.arguments@[index as int]) is Some,
        ensures
            Some(r) == context.spec_value(context.spec_block(block)->0.arguments@[index as int]),
    {
        let id = context.get_block(block).arguments[index];
        context.get_value(id)
    }

    /// Append `op` after everything the staged block holds.
    pub fn append_op(&self, context: &mut Context, block: BlockId, op: OpId)
        requires
            old(context).can_edit_block(block),
            old(context).off_spine(block, op),
            (op.0 as int) < usize::MAX,
        ensures
            Context::block_changed(old(context).spec_block(block), final(context).spec_block(block), old(context).block_ops(block).push(op)),
            forall|b: BlockId| b != block ==> #[trigger] final(context).spec_block(b) == old(context).spec_block(b),
            forall|o: OpId| #[trigger] final(context).spec_parent_block(o) == if o == op { Some(block) } else { old(context).spec_parent_block(o) },
            final(context).block_edited(old(context), block),
            final(context).same_ops(old(context)),
            final(context).same_values(old(context)),
            final(context).same_regions(old(context)),
            final(context).same_counters(old(context)),
            forall|b: BlockId| #[trigger] final(context).spec_parent_region(b) == old(context).spec_parent_region(b),
            forall|v: ValueId| #[trigger] final(context).spec_value_block(v) == old(context).spec_value_block(v),
    {
        context.append_op(block, op);
    }

    /// On commit, retarget every use of `old` that outlives the swap to
    /// `new`.
    pub fn replace_value(&mut self, old_value: ValueId, new_value: ValueId)
        ensures
            final(self).remaps() == old(self).remaps().push((old_value, new_value)),
            final(self).staged_blocks() == old(self).staged_blocks(),
    {
        self.remap.push((old_value, new_value));
    }
}

impl Context {
    /// Begin building a region body off to the side of the live IR.
    pub fn stage_region(&self) -> (r: StagedRegion)
        ensures
            r.staged_blocks().len() == 0,
            r.remaps().len() == 0,
    {
        StagedRegion { blocks: Vec::new(), remap: Vec::new() }
    }

    /// Drop a staging without committing it: its subtree leaves the live IR
    /// as a detached one does.
    pub fn discard_staged(&mut self, staged: StagedRegion)
        ensures
            forall|x: OpId| #[trigger] final(self).spec_op(x) == if old(self).op_under(staged.staged_blocks().to_set(), x) { None } else { old(self).spec_op(x) },
            forall|x: OpId| #[trigger] final(self).spec_parent_block(x) == if old(self).op_under(staged.staged_blocks().to_set(), x) { None } else { old(self).spec_parent_block(x) },
            forall|b: BlockId| #[trigger] final(self).spec_parent_region(b) == if old(self).reached(staged.staged_blocks().to_set(), b) { None } else { old(self).spec_parent_region(b) },
            final(self).same_values(old(self)),
            final(self).same_regions(old(self)),
            final(self).same_blocks(old(self)),
            forall|v: ValueId| #[trigger] final(self).spec_value_block(v) == old(self).spec_value_block(v),
            final(self).same_counters(old(self)),
            final(self).same_versions(old(self)),
            final(self).dirty() == old(self).dirty(),
    {
        self.detach_subtree(staged.blocks);
    }
}

} // verus!

verus! {

impl Context {
    /// Swap `staged` in as `region`'s contents, in one edit: the old contents
    /// leave the tree (their ops are removed from the arena and their parent
    /// links cleared), the staged blocks become the region's blocks, and the
    /// climb out of the region's owner is bumped exactly once. Uses of the
    /// values recorded with [`StagedRegion::replace_value`] are then
    /// retargeted to their replacements, in order.
    pub fn replace_region_contents(&mut self, region: RegionId, staged: StagedRegion)
        requires
            old(self).can_swap(region, staged.staged_blocks(), staged.remaps().len()),
        ensures
            exists|mid: Context| #[trigger] mid.swapped(old(self), region, staged.staged_blocks())
                && final(self).remaps_applied(&mid, staged.remaps()),
    {
        let ghost before = *self;
        let ghost staged_seq = staged.blocks@;
        let ghost old_set = before.region_blocks(region).to_set();
        let ghost staged_set = staged_seq.to_set();
        let ghost n = staged.remap@.len();
        let ghost slots = before.op_slots();
        let StagedRegion { blocks, remap } = staged;
        self.swap_region_contents(region, blocks);
        let ghost mid = *self;
        let ghost mut states: Seq<Context> = seq![mid];
        proof {
            assert forall|x: OpId| #[trigger] self.enclosing_op_of(x) == before.swapped_enclosing_op_of(region, old_set, staged_set, x) by {
                match self.spec_parent_block(x) {
                    Some(b) => {
                        match self.spec_parent_region(b) {
                            Some(g) => {
                                assert(self.region_owner(g) == before.region_owner(g));
                            },
                            None => {},
                        }
                    },
                    None => {},
                }
            }
            assert forall|o: OpId| #[trigger] self.version(o) <= before.version(o) + 1 + 0 * slots by {}
        }
        let mut i: usize = 0;
        while i < remap.len()
            invariant
                i <= remap@.len(),
                n == remap@.len(),
                slots == before.op_slots(),
                before.can_swap(region, staged_seq, n),
                old_set == before.region_blocks(region).to_set(),
                staged_set == staged_seq.to_set(),
                states.len() == i + 1,
                states[0] == mid,
                states[i as int] == *self,
                forall|j: int| 0 <= j < i ==> #[trigger] states[j + 1].uses_replaced(&states[j], remap@[j].0, remap@[j].1),
                forall|x: OpId| #[trigger] self.spec_op(x) is Some ==> before.spec_op(x) is Some && !before.op_under(old_set, x),
                forall|x: OpId| #[trigger] self.enclosing_op_of(x) == before.swapped_enclosing_op_of(region, old_set, staged_set, x),
                forall|o: OpId| #[trigger] self.version(o) <= before.version(o) + 1 + i * slots,
                self.op_slots() == slots,
            decreases remap.len() - i,
        {
            let ghost prev = *self;
            let (old_value, new_value) = remap[i];
            proof {
                let step = |y: OpId| before.swapped_enclosing_op_of(region, old_set, staged_set, y);
                assert((i + 1) * slots <= n * slots) by (nonlinear_arith)
                    requires
                        i + 1 <= n,
                ;
                assert forall|x: OpId| #[trigger] self.spec_op(x) is Some implies self.spine_ends(x) && forall|k: int| 0 <= k < self.spine(x).len()
                    ==> self.version(#[trigger] self.spine(x)[k]) + self.op_slots() < u32::MAX && (self.spine(x)[k].0 as int) < usize::MAX by {
                    assert(before.spec_op(x) is Some && !before.op_under(old_set, x));
                    let fuel = choose|fuel: nat| #[trigger] climb_within(step, x, fuel) matches Some(c) && forall|k: int| 0 <= k < c.len()
                        ==> before.version(#[trigger] c[k]) + 1 + n * before.op_slots() < u32::MAX && (c[k].0 as int) < usize::MAX;
                    let c = climb_within(step, x, fuel)->0;
                    self.lemma_climb_is_spine(step, x, fuel);
                    assert(self.spine_within(x, fuel) is Some);
                    let g = choose|f: nat| #[trigger] self.spine_within(x, f) is Some;
                    self.lemma_spine_fuel(x, fuel, g);
                    assert(self.spine(x) == c);
                    assert forall|k: int| 0 <= k < self.spine(x).len() implies self.version(#[trigger] self.spine(x)[k]) + self.op_slots() < u32::MAX
                        && (self.spine(x)[k].0 as int) < usize::MAX by {
                        assert(self.version(c[k]) <= before.version(c[k]) + 1 + i * slots);
                        assert(i * slots + slots == (i + 1) * slots) by (nonlinear_arith);
                    }
                }
            }
            self.replace_value_uses(old_value, new_value);
            proof {
                if old_value != new_value {
                    assert forall|y: OpId| #[trigger] prev.rewritten(old_value).contains(y) implies (y.0 as int) < slots by {
                        prev.lemma_op_slots(y);
                    }
                    lemma_ops_below(prev.rewritten(old_value), slots);
                    assert forall|o: OpId| #[trigger] self.version(o) <= before.version(o) + 1 + (i + 1) * slots by {
                        prev.rewritten(old_value).lemma_len_filter(|x: OpId| prev.spine(x).contains(o));
                        assert(i * slots + slots == (i + 1) * slots) by (nonlinear_arith);
                    }
                    assert forall|x: OpId| #[trigger] self.spec_op(x) is Some implies before.spec_op(x) is Some && !before.op_under(old_set, x) by {
                        if prev.rewrites(old_value, x) {
                            assert(prev.spec_op(x) is Some);
                        } else {
                            assert(self.spec_op(x) == prev.spec_op(x));
                        }
                    }
                    assert forall|x: OpId| #[trigger] self.enclosing_op_of(x) == before.swapped_enclosing_op_of(region, old_set, staged_set, x) by {
                        assert(self.enclosing_op_of(x) == prev.enclosing_op_of(x));
                    }
                } else {
                    assert forall|o: OpId| #[trigger] self.version(o) <= before.version(o) + 1 + (i + 1) * slots by {
                        assert(i * slots + slots == (i + 1) * slots) by (nonlinear_arith);
                    }
                    assert forall|x: OpId| #[trigger] self.enclosing_op_of(x) == before.swapped_enclosing_op_of(region, old_set, staged_set, x) by {
                        assert(self.enclosing_op_of(x) == prev.enclosing_op_of(x));
                    }
                }
                let grown = states.push(*self);
                assert forall|j: int| 0 <= j < i + 1 implies #[trigger] grown[j + 1].uses_replaced(&grown[j], remap@[j].0, remap@[j].1) by {
                    if j < i {
                        assert(grown[j + 1] == states[j + 1] && grown[j] == states[j]);
                    } else {
                        assert(grown[j] == prev);
                    }
                }
                states = grown;
            }
            i = i + 1;
        }
        proof {
            assert(self.remaps_applied(&mid, remap@));
        }
    }
}

} // verus!

verus! {

/// After the uses of `old` are replaced by another value, no op under the
/// use scope reads `old` any more.
pub proof fn law_replaced_value_unused(before: &Context, after: &Context, old: ValueId, new: ValueId, x: OpId)
    requires
        after.uses_replaced(before, old, new),
        old != new,
        before.in_use_scope(old, x),
    ensures
        after.spec_op(x) matches Some(o) ==> !o.operands@.contains(old),
{
    if before.rewrites(old, x) {
        lemma_replaced_drops(before.spec_op(x)->0.operands@, old, new);
    }
}

/// After a commit, nothing of the old contents of the region is left in the
/// arena, and the staged blocks are what the region holds.
pub proof fn law_commit_detaches_old_contents(before: &Context, mid: &Context, region: RegionId, staged: Seq<BlockId>, x: OpId)
    requires
        mid.swapped(before, region, staged),
        before.op_under(before.region_blocks(region).to_set(), x),
    ensures
        mid.spec_op(x) is None,
        mid.spec_parent_block(x) is None,
        mid.region_blocks(region) == staged,
{
}

} // verus!
