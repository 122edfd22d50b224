//! Deep copies of operations and regions: references that point inside the
//! copied subtree are rewritten onto the copies, references to definitions
//! outside it are kept as they are.
use vstd::prelude::*;

use crate::attributes::{values_view, value_view, AttributeRole, AttributeValue, AttributeValueView, NamedAttribute, RegisterAttr};
use crate::context::{Context, OpInstance};
use crate::ids::{BlockId, OpId, RegionId, ValueId};

verus! {

/// Where each copied value and block went: at most one entry per original.
pub struct Mapping {
    values: Vec<(u32, u32)>,
    blocks: Vec<(u32, u32)>,
}

pub open spec fn pairs_map<K, V>(pairs: Seq<(K, V)>) -> Map<K, V>
    decreases pairs.len(),
{
    if pairs.len() == 0 {
        Map::empty()
    } else {
        pairs_map(pairs.drop_last()).insert(pairs.last().0, pairs.last().1)
    }
}

pub open spec fn keys_distinct<K, V>(pairs: Seq<(K, V)>) -> bool {
    forall|a: int, b: int| 0 <= a < b < pairs.len() ==> (#[trigger] pairs[a]).0 != (#[trigger] pairs[b]).0
}

proof fn lemma_pairs_map<K, V>(pairs: Seq<(K, V)>)
    requires
        keys_distinct(pairs),
    ensures
        forall|i: int| 0 <= i < pairs.len() ==> #[trigger] pairs_map(pairs).contains_key(pairs[i].0) && pairs_map(pairs)[pairs[i].0] == pairs[i].1,
        forall|k: K| #[trigger] pairs_map(pairs).contains_key(k) ==> exists|i: int| 0 <= i < pairs.len() && (#[trigger] pairs[i]).0 == k,
    decreases pairs.len(),
{
    if pairs.len() > 0 {
        let pre = pairs.drop_last();
        assert forall|a: int, b: int| 0 <= a < b < pre.len() implies (#[trigger] pre[a]).0 != (#[trigger] pre[b]).0 by {
            assert(pre[a] == pairs[a] && pre[b] == pairs[b]);
        }
        lemma_pairs_map(pre);
        assert forall|i: int| 0 <= i < pairs.len() implies #[trigger] pairs_map(pairs).contains_key(pairs[i].0) && pairs_map(pairs)[pairs[i].0] == pairs[i].1 by {
            if i < pairs.len() - 1 {
                assert(pre[i] == pairs[i]);
                assert(pairs[i].0 != pairs[pairs.len() - 1].0);
                assert(pairs_map(pre).contains_key(pre[i].0));
            }
        }
        assert forall|k: K| #[trigger] pairs_map(pairs).contains_key(k) implies exists|i: int| 0 <= i < pairs.len() && (#[trigger] pairs[i]).0 == k by {
            if k != pairs.last().0 {
                assert(pairs_map(pre).contains_key(k));
                let i = choose|i: int| 0 <= i < pre.len() && (#[trigger] pre[i]).0 == k;
                assert(pairs[i] == pre[i]);
            } else {
                assert(pairs[pairs.len() - 1].0 == k);
            }
        }
    }
}

fn find_pair(pairs: &Vec<(u32, u32)>, key: u32) -> (r: Option<usize>)
    ensures
        r matches Some(i) ==> i < pairs@.len() && pairs@[i as int].0 == key,
        r is None ==> forall|i: int| 0 <= i < pairs@.len() ==> (#[trigger] pairs@[i]).0 != key,
{
    let mut k: usize = 0;
    while k < pairs.len()
        invariant
            k <= pairs@.len(),
            forall|i: int| 0 <= i < k ==> (#[trigger] pairs@[i]).0 != key,
        decreases pairs.len() - k,
    {
        if pairs[k].0 == key {
            return Some(k);
        }
        k = k + 1;
    }
    None
}

fn insert_pair(pairs: &mut Vec<(u32, u32)>, key: u32, value: u32)
    requires
        keys_distinct(old(pairs)@),
    ensures
        keys_distinct(final(pairs)@),
        pairs_map(final(pairs)@) == pairs_map(old(pairs)@).insert(key, value),
{
    let ghost start = pairs@;
    proof {
        lemma_pairs_map(start);
    }
    match find_pair(pairs, key) {
        Some(i) => {
            pairs.set(i, (key, value));
            proof {
                lemma_pairs_map(pairs@);
                assert forall|a: int, b: int| 0 <= a < b < pairs@.len() implies (#[trigger] pairs@[a]).0 != (#[trigger] pairs@[b]).0 by {
                    assert(pairs@[a].0 == start[a].0 && pairs@[b].0 == start[b].0);
                }
                lemma_pairs_map(pairs@);
                assert forall|k: u32| pairs_map(pairs@).contains_key(k) == pairs_map(start).insert(key, value).contains_key(k) by {
                    if pairs_map(start).contains_key(k) {
                        let j = choose|j: int| 0 <= j < start.len() && (#[trigger] start[j]).0 == k;
                        assert(pairs@[j].0 == k);
                    }
                    if pairs_map(pairs@).contains_key(k) {
                        let j = choose|j: int| 0 <= j < pairs@.len() && (#[trigger] pairs@[j]).0 == k;
                        assert(start[j].0 == k);
                    }
                }
                assert forall|k: u32| #[trigger] pairs_map(pairs@).contains_key(k) implies pairs_map(pairs@)[k] == pairs_map(start).insert(key, value)[k] by {
                    let j = choose|j: int| 0 <= j < pairs@.len() && (#[trigger] pairs@[j]).0 == k;
                    if j != i {
                        assert(start[j] == pairs@[j]);
                    }
                }
                assert(pairs_map(pairs@) =~= pairs_map(start).insert(key, value));
            }
        },
        None => {
            pairs.push((key, value));
            proof {
                assert(pairs@.drop_last() =~= start);
                assert forall|a: int, b: int| 0 <= a < b < pairs@.len() implies (#[trigger] pairs@[a]).0 != (#[trigger] pairs@[b]).0 by {
                    if b < start.len() {
                        assert(pairs@[a] == start[a] && pairs@[b] == start[b]);
                    } else {
                        assert(pairs@[a] == start[a]);
                    }
                }
            }
        },
    }
}

impl Mapping {
    /// Each copied value's number to its copy's.
    pub closed spec fn value_map(&self) -> Map<u32, u32> {
        pairs_map(self.values@)
    }

    /// Each copied block's number to its copy's.
    pub closed spec fn block_map(&self) -> Map<u32, u32> {
        pairs_map(self.blocks@)
    }

    pub closed spec fn wf(&self) -> bool {
        keys_distinct(self.values@) && keys_distinct(self.blocks@)
    }

    pub fn new() -> (r: Self)
        ensures
            r.wf(),
            r.value_map() == Map::<u32, u32>::empty(),
            r.block_map() == Map::<u32, u32>::empty(),
    {
        Mapping { values: Vec::new(), blocks: Vec::new() }
    }

    /// Record that `original` was copied to `copy`.
    pub fn insert_value(&mut self, original: ValueId, copy: ValueId)
        requires
            old(self).wf(),
        ensures
            final(self).wf(),
            final(self).value_map() == old(self).value_map().insert(original.0, copy.0),
            final(self).block_map() == old(self).block_map(),
    {
        insert_pair(&mut self.values, original.0, copy.0);
    }

    /// Record that block `original` was copied to `copy`.
    pub fn insert_block(&mut self, original: BlockId, copy: BlockId)
        requires
            old(self).wf(),
        ensures
            final(self).wf(),
            final(self).block_map() == old(self).block_map().insert(original.0, copy.0),
            final(self).value_map() == old(self).value_map(),
    {
        insert_pair(&mut self.blocks, original.0, copy.0);
    }

    pub fn block(&self, block: BlockId) -> (r: BlockId)
        requires
            self.wf(),
        ensures
            r.0 == if self.block_map().contains_key(block.0) { self.block_map()[block.0] } else { block.0 },
    {
        proof {
            lemma_pairs_map(self.blocks@);
        }
        match find_pair(&self.blocks, block.0) {
            Some(i) => BlockId(self.blocks[i].1),
            None => block,
        }
    }
}

/// A reference to `value` after the copy: its copy where it was copied.
pub fn remap_value(value: ValueId, mapping: &Mapping) -> (r: ValueId)
    requires
        mapping.wf(),
    ensures
        r.0 == if mapping.value_map().contains_key(value.0) { mapping.value_map()[value.0] } else { value.0 },
{
    proof {
        lemma_pairs_map(mapping.values@);
    }
    match find_pair(&mapping.values, value.0) {
        Some(i) => ValueId(mapping.values[i].1),
        None => value,
    }
}

proof fn lemma_values_view_len(items: Seq<AttributeValue>)
    ensures
        values_view(items).len() == items.len(),
    decreases items.len(),
{
    if items.len() > 0 {
        lemma_values_view_len(items.subrange(0, items.len() - 1));
    }
}

/// An attribute value after the copy: branch targets moved onto the copied
/// blocks, nested arrays likewise, everything else as it was.
pub open spec fn remapped(v: AttributeValueView, blocks: Map<u32, u32>) -> AttributeValueView
    decreases v, 1int,
{
    match v {
        AttributeValueView::Block(b) => AttributeValueView::Block(BlockId(if blocks.contains_key(b.0) { blocks[b.0] } else { b.0 })),
        AttributeValueView::Array(items) => AttributeValueView::Array(remapped_all(items, blocks)),
        other => other,
    }
}

pub open spec fn remapped_all(items: Seq<AttributeValueView>, blocks: Map<u32, u32>) -> Seq<AttributeValueView>
    decreases items, 0int,
{
    if items.len() == 0 {
        Seq::empty()
    } else {
        remapped_all(items.subrange(0, items.len() - 1), blocks).push(remapped(items[items.len() - 1], blocks))
    }
}

fn copy_register(r: &RegisterAttr) -> (c: RegisterAttr)
    ensures
        c@ == r@,
{
    match r {
        RegisterAttr::Physical { class, index } => RegisterAttr::Physical { class: class.clone(), index: *index },
        RegisterAttr::Virtual { id, class } => RegisterAttr::Virtual {
            id: *id,
            class: match class {
                Some(c) => Some(c.clone()),
                None => None,
            },
        },
        RegisterAttr::FixedDef { id, class, index } => RegisterAttr::FixedDef { id: *id, class: class.clone(), index: *index },
        RegisterAttr::FixedUse { id, class, index } => RegisterAttr::FixedUse { id: *id, class: class.clone(), index: *index },
    }
}

/// An attribute value after the copy.
pub fn remap_attribute(value: &AttributeValue, mapping: &Mapping) -> (r: AttributeValue)
    requires
        mapping.wf(),
    ensures
        r@ == remapped(value@, mapping.block_map()),
    decreases value,
{
    match value {
        AttributeValue::Block(block) => AttributeValue::Block(mapping.block(*block)),
        AttributeValue::Array(items) => {
            let mut out: Vec<AttributeValue> = Vec::new();
            let mut k: usize = 0;
            while k < items.len()
                invariant
                    k <= items@.len(),
                    mapping.wf(),
                    *value == AttributeValue::Array(*items),
                    values_view(out@) == remapped_all(values_view(items@.subrange(0, k as int)), mapping.block_map()),
                decreases items.len() - k,
            {
                let ghost vv = values_view(items@.subrange(0, k as int));
                proof {
                    assert(items@.subrange(0, k + 1).subrange(0, k as int) =~= items@.subrange(0, k as int));
                    assert(items@.subrange(0, k + 1)[k as int] == items@[k as int]);
                    assert(values_view(items@.subrange(0, k + 1)) == vv.push(value_view(&items@[k as int])));
                    lemma_values_view_len(items@.subrange(0, k as int));
                    assert(vv.push(value_view(&items@[k as int])).subrange(0, k as int) =~= vv);
                    assert(decreases_to!(*value => (*value)->Array_0@[k as int]));
                }
                let item = remap_attribute(&items[k], mapping);
                let ghost before = out@;
                out.push(item);
                proof {
                    assert(out@.subrange(0, out@.len() - 1) =~= before);
                }
                k = k + 1;
            }
            proof {
                assert(items@.subrange(0, items@.len() as int) =~= items@);
            }
            AttributeValue::Array(out)
        },
        AttributeValue::Str(s) => AttributeValue::Str(s.clone()),
        AttributeValue::Int(i) => AttributeValue::Int(*i),
        AttributeValue::UInt(u) => AttributeValue::UInt(*u),
        AttributeValue::Bool(b) => AttributeValue::Bool(*b),
        AttributeValue::Register(r) => AttributeValue::Register(copy_register(r)),
    }
}

} // verus!

verus! {

/// Every op, value, region and block is numbered below the counter that
/// hands out the next such id.
pub open spec fn ids_below(c: &Context) -> bool {
    &&& forall|x: OpId| #[trigger] c.spec_op(x) is Some ==> x.0 < c.next_op()
    &&& forall|v: ValueId| #[trigger] c.spec_value(v) is Some ==> v.0 < c.next_value()
    &&& forall|r: RegionId| #[trigger] c.spec_region(r) is Some ==> r.0 < c.next_region()
    &&& forall|b: BlockId| #[trigger] c.spec_block(b) is Some ==> b.0 < c.next_block()
}

/// Each counter can hand out `n` more ids without wrapping.
pub open spec fn room_for(c: &Context, n: nat) -> bool {
    &&& c.next_op() + n < u32::MAX
    &&& c.next_value() + n < u32::MAX
    &&& c.next_region() + n < u32::MAX
    &&& c.next_block() + n < u32::MAX
}

/// The ids handed out so far, all kinds together.
pub open spec fn issued(c: &Context) -> nat {
    (c.next_op() + c.next_value() + c.next_region() + c.next_block()) as nat
}

/// No counter went back.
pub open spec fn counters_grew(a: &Context, b: &Context) -> bool {
    &&& b.next_op() <= a.next_op()
    &&& b.next_value() <= a.next_value()
    &&& b.next_region() <= a.next_region()
    &&& b.next_block() <= a.next_block()
}

/// Whether `op`'s subtree can be copied, nested at most `d` deep: the op,
/// its results, and every region, block, argument and op under it exist.
pub open spec fn op_clonable(c: &Context, op: OpId, d: nat) -> bool
    decreases d, 2nat,
{
    if d == 0 {
        false
    } else {
        &&& c.spec_op(op) is Some
        &&& forall|i: int| 0 <= i < c.spec_op(op)->0.results@.len() ==> c.spec_value(#[trigger] c.spec_op(op)->0.results@[i]) is Some
        &&& forall|j: int| 0 <= j < c.spec_op(op)->0.regions@.len() ==> region_clonable(c, #[trigger] c.spec_op(op)->0.regions@[j], d)
    }
}

pub open spec fn region_clonable(c: &Context, region: RegionId, d: nat) -> bool
    decreases d, 1nat,
{
    &&& c.spec_region(region) is Some
    &&& forall|k: int| 0 <= k < c.region_blocks(region).len() ==> block_clonable(c, #[trigger] c.region_blocks(region)[k], d)
}

pub open spec fn block_clonable(c: &Context, block: BlockId, d: nat) -> bool
    decreases d, 0nat,
{
    if d == 0 {
        false
    } else {
        &&& c.spec_block(block) is Some
        &&& forall|i: int| 0 <= i < c.spec_block(block)->0.arguments@.len() ==> c.spec_value(#[trigger] c.spec_block(block)->0.arguments@[i]) is Some
        &&& forall|i: int| 0 <= i < c.block_ops(block).len() ==> op_clonable(c, #[trigger] c.block_ops(block)[i], (d - 1) as nat)
    }
}

/// An upper bound on the ids a copy of `op`'s subtree takes: one per op,
/// region, block, result and argument.
pub open spec fn op_cost(c: &Context, op: OpId, d: nat) -> nat
    decreases d, 3nat, 0nat,
{
    if d == 0 {
        0
    } else {
        match c.spec_op(op) {
            Some(o) => 1 + o.results@.len() + regions_cost(c, o.regions@, d),
            None => 0,
        }
    }
}

/// What copying one region takes.
pub open spec fn region_cost(c: &Context, region: RegionId, d: nat) -> nat
    decreases d, 2nat, 1nat,
{
    1 + blocks_cost(c, c.region_blocks(region), d)
}

pub open spec fn regions_cost(c: &Context, regions: Seq<RegionId>, d: nat) -> nat
    decreases d, 2nat, regions.len() + 2,
{
    if regions.len() == 0 {
        0
    } else {
        region_cost(c, regions[0], d) + regions_cost(c, regions.subrange(1, regions.len() as int), d)
    }
}

/// What copying a block takes, leaving its ops aside.
pub open spec fn shell_cost(c: &Context, block: BlockId) -> nat {
    1 + match c.spec_block(block) {
        Some(x) => x.arguments@.len(),
        None => 0,
    }
}

pub open spec fn blocks_cost(c: &Context, blocks: Seq<BlockId>, d: nat) -> nat
    decreases d, 1nat, blocks.len(),
{
    if blocks.len() == 0 {
        0
    } else {
        shell_cost(c, blocks[0]) + ops_cost(c, c.block_ops(blocks[0]), d) + blocks_cost(c, blocks.subrange(1, blocks.len() as int), d)
    }
}

pub open spec fn ops_cost(c: &Context, ops: Seq<OpId>, d: nat) -> nat
    decreases d, 0nat, ops.len(),
{
    if ops.len() == 0 || d == 0 {
        0
    } else {
        op_cost(c, ops[0], (d - 1) as nat) + ops_cost(c, ops.subrange(1, ops.len() as int), d)
    }
}

/// What copying the blocks takes, leaving their ops aside.
pub open spec fn shells_cost(c: &Context, blocks: Seq<BlockId>) -> nat
    decreases blocks.len(),
{
    if blocks.len() == 0 {
        0
    } else {
        shell_cost(c, blocks[0]) + shells_cost(c, blocks.subrange(1, blocks.len() as int))
    }
}

/// What copying the ops of the blocks takes.
pub open spec fn inner_cost(c: &Context, blocks: Seq<BlockId>, d: nat) -> nat
    decreases blocks.len(),
{
    if blocks.len() == 0 {
        0
    } else {
        ops_cost(c, c.block_ops(blocks[0]), d) + inner_cost(c, blocks.subrange(1, blocks.len() as int), d)
    }
}

proof fn lemma_blocks_cost_split(c: &Context, blocks: Seq<BlockId>, d: nat)
    ensures
        blocks_cost(c, blocks, d) == shells_cost(c, blocks) + inner_cost(c, blocks, d),
    decreases blocks.len(),
{
    if blocks.len() > 0 {
        lemma_blocks_cost_split(c, blocks.subrange(1, blocks.len() as int), d);
    }
}

/// Every counter grew by at most `n`.
pub open spec fn grew_at_most(a: &Context, b: &Context, n: nat) -> bool {
    &&& a.next_op() <= b.next_op() + n
    &&& a.next_value() <= b.next_value() + n
    &&& a.next_region() <= b.next_region() + n
    &&& a.next_block() <= b.next_block() + n
}

/// The values `op`'s subtree defines, nested at most `d` deep: its results
/// and, in each region, each block's arguments and what its ops define.
pub open spec fn op_values(c: &Context, op: OpId, d: nat) -> Seq<ValueId>
    decreases d, 3nat, 0nat,
{
    if d == 0 {
        Seq::empty()
    } else {
        match c.spec_op(op) {
            Some(o) => o.results@ + regions_values(c, o.regions@, d),
            None => Seq::empty(),
        }
    }
}

pub open spec fn regions_values(c: &Context, regions: Seq<RegionId>, d: nat) -> Seq<ValueId>
    decreases d, 2nat, regions.len(),
{
    if regions.len() == 0 {
        Seq::empty()
    } else {
        blocks_values(c, c.region_blocks(regions[0]), d) + regions_values(c, regions.subrange(1, regions.len() as int), d)
    }
}

pub open spec fn blocks_values(c: &Context, blocks: Seq<BlockId>, d: nat) -> Seq<ValueId>
    decreases d, 1nat, blocks.len(),
{
    if blocks.len() == 0 {
        Seq::empty()
    } else {
        let args = match c.spec_block(blocks[0]) {
            Some(x) => x.arguments@,
            None => Seq::empty(),
        };
        args + ops_values(c, c.block_ops(blocks[0]), d) + blocks_values(c, blocks.subrange(1, blocks.len() as int), d)
    }
}

pub open spec fn ops_values(c: &Context, ops: Seq<OpId>, d: nat) -> Seq<ValueId>
    decreases d, 0nat, ops.len(),
{
    if ops.len() == 0 || d == 0 {
        Seq::empty()
    } else {
        op_values(c, ops[0], (d - 1) as nat) + ops_values(c, ops.subrange(1, ops.len() as int), d)
    }
}

/// The blocks `op`'s subtree holds, nested at most `d` deep.
pub open spec fn op_blocks(c: &Context, op: OpId, d: nat) -> Seq<BlockId>
    decreases d, 3nat, 0nat,
{
    if d == 0 {
        Seq::empty()
    } else {
        match c.spec_op(op) {
            Some(o) => regions_blocks(c, o.regions@, d),
            None => Seq::empty(),
        }
    }
}

pub open spec fn regions_blocks(c: &Context, regions: Seq<RegionId>, d: nat) -> Seq<BlockId>
    decreases d, 2nat, regions.len(),
{
    if regions.len() == 0 {
        Seq::empty()
    } else {
        blocks_blocks(c, c.region_blocks(regions[0]), d) + regions_blocks(c, regions.subrange(1, regions.len() as int), d)
    }
}

pub open spec fn blocks_blocks(c: &Context, blocks: Seq<BlockId>, d: nat) -> Seq<BlockId>
    decreases d, 1nat, blocks.len(),
{
    if blocks.len() == 0 {
        Seq::empty()
    } else {
        seq![blocks[0]] + ops_blocks(c, c.block_ops(blocks[0]), d) + blocks_blocks(c, blocks.subrange(1, blocks.len() as int), d)
    }
}

pub open spec fn ops_blocks(c: &Context, ops: Seq<OpId>, d: nat) -> Seq<BlockId>
    decreases d, 0nat, ops.len(),
{
    if ops.len() == 0 || d == 0 {
        Seq::empty()
    } else {
        op_blocks(c, ops[0], (d - 1) as nat) + ops_blocks(c, ops.subrange(1, ops.len() as int), d)
    }
}

/// Everything in `part` is in `whole`.
pub open spec fn within<T>(part: Seq<T>, whole: Seq<T>) -> bool {
    forall|x: T| #[trigger] part.contains(x) ==> whole.contains(x)
}

proof fn lemma_concat_within<T>(a: Seq<T>, b: Seq<T>, whole: Seq<T>)
    requires
        within(a + b, whole),
    ensures
        within(a, whole),
        within(b, whole),
{
    assert forall|x: T| #[trigger] a.contains(x) implies whole.contains(x) by {
        let i = choose|i: int| 0 <= i < a.len() && a[i] == x;
        assert((a + b)[i] == x);
        assert((a + b).contains(x));
    }
    assert forall|x: T| #[trigger] b.contains(x) implies whole.contains(x) by {
        let i = choose|i: int| 0 <= i < b.len() && b[i] == x;
        assert((a + b)[a.len() + i] == x);
        assert((a + b).contains(x));
    }
}

proof fn lemma_regions_values_within(c: &Context, regions: Seq<RegionId>, d: nat, j: int, whole: Seq<ValueId>)
    requires
        0 <= j < regions.len(),
        within(regions_values(c, regions, d), whole),
    ensures
        within(blocks_values(c, c.region_blocks(regions[j]), d), whole),
    decreases regions.len(),
{
    lemma_concat_within(blocks_values(c, c.region_blocks(regions[0]), d), regions_values(c, regions.subrange(1, regions.len() as int), d), whole);
    if j > 0 {
        lemma_regions_values_within(c, regions.subrange(1, regions.len() as int), d, j - 1, whole);
        assert(regions.subrange(1, regions.len() as int)[j - 1] == regions[j]);
    }
}

proof fn lemma_regions_blocks_within(c: &Context, regions: Seq<RegionId>, d: nat, j: int, whole: Seq<BlockId>)
    requires
        0 <= j < regions.len(),
        within(regions_blocks(c, regions, d), whole),
    ensures
        within(blocks_blocks(c, c.region_blocks(regions[j]), d), whole),
    decreases regions.len(),
{
    lemma_concat_within(blocks_blocks(c, c.region_blocks(regions[0]), d), regions_blocks(c, regions.subrange(1, regions.len() as int), d), whole);
    if j > 0 {
        lemma_regions_blocks_within(c, regions.subrange(1, regions.len() as int), d, j - 1, whole);
        assert(regions.subrange(1, regions.len() as int)[j - 1] == regions[j]);
    }
}

/// What the `k`-th block defines, directly and in its ops.
proof fn lemma_blocks_values_within(c: &Context, blocks: Seq<BlockId>, d: nat, k: int, whole: Seq<ValueId>)
    requires
        0 <= k < blocks.len(),
        within(blocks_values(c, blocks, d), whole),
    ensures
        c.spec_block(blocks[k]) is Some ==> within(c.spec_block(blocks[k])->0.arguments@, whole),
        within(ops_values(c, c.block_ops(blocks[k]), d), whole),
    decreases blocks.len(),
{
    let args = match c.spec_block(blocks[0]) {
        Some(x) => x.arguments@,
        None => Seq::empty(),
    };
    let rest = blocks.subrange(1, blocks.len() as int);
    assert(blocks_values(c, blocks, d) == args + ops_values(c, c.block_ops(blocks[0]), d) + blocks_values(c, rest, d));
    lemma_concat_within(args + ops_values(c, c.block_ops(blocks[0]), d), blocks_values(c, rest, d), whole);
    lemma_concat_within(args, ops_values(c, c.block_ops(blocks[0]), d), whole);
    if k > 0 {
        lemma_blocks_values_within(c, rest, d, k - 1, whole);
        assert(rest[k - 1] == blocks[k]);
    }
}

proof fn lemma_blocks_blocks_within(c: &Context, blocks: Seq<BlockId>, d: nat, k: int, whole: Seq<BlockId>)
    requires
        0 <= k < blocks.len(),
        within(blocks_blocks(c, blocks, d), whole),
    ensures
        whole.contains(blocks[k]),
        within(ops_blocks(c, c.block_ops(blocks[k]), d), whole),
    decreases blocks.len(),
{
    let rest = blocks.subrange(1, blocks.len() as int);
    lemma_concat_within(seq![blocks[0]] + ops_blocks(c, c.block_ops(blocks[0]), d), blocks_blocks(c, rest, d), whole);
    lemma_concat_within(seq![blocks[0]], ops_blocks(c, c.block_ops(blocks[0]), d), whole);
    assert(seq![blocks[0]][0] == blocks[0]);
    assert(seq![blocks[0]].contains(blocks[0]));
    if k > 0 {
        lemma_blocks_blocks_within(c, rest, d, k - 1, whole);
        assert(rest[k - 1] == blocks[k]);
    }
}

proof fn lemma_ops_values_within(c: &Context, ops: Seq<OpId>, d: nat, i: int, whole: Seq<ValueId>)
    requires
        0 <= i < ops.len(),
        d > 0,
        within(ops_values(c, ops, d), whole),
    ensures
        within(op_values(c, ops[i], (d - 1) as nat), whole),
    decreases ops.len(),
{
    let rest = ops.subrange(1, ops.len() as int);
    lemma_concat_within(op_values(c, ops[0], (d - 1) as nat), ops_values(c, rest, d), whole);
    if i > 0 {
        lemma_ops_values_within(c, rest, d, i - 1, whole);
        assert(rest[i - 1] == ops[i]);
    }
}

proof fn lemma_ops_blocks_within(c: &Context, ops: Seq<OpId>, d: nat, i: int, whole: Seq<BlockId>)
    requires
        0 <= i < ops.len(),
        d > 0,
        within(ops_blocks(c, ops, d), whole),
    ensures
        within(op_blocks(c, ops[i], (d - 1) as nat), whole),
    decreases ops.len(),
{
    let rest = ops.subrange(1, ops.len() as int);
    lemma_concat_within(op_blocks(c, ops[0], (d - 1) as nat), ops_blocks(c, rest, d), whole);
    if i > 0 {
        lemma_ops_blocks_within(c, rest, d, i - 1, whole);
        assert(rest[i - 1] == ops[i]);
    }
}

/// `copy` (in `a`) is a value that did not exist in `b`, of the type of
/// `orig` there.
pub open spec fn fresh_copy(a: &Context, b: &Context, orig: ValueId, copy: ValueId) -> bool {
    &&& b.spec_value(copy) is None
    &&& a.spec_value(copy) is Some
    &&& b.spec_value(orig) is Some
    &&& a.spec_value(copy)->0.ty == b.spec_value(orig)->0.ty
}

/// `copy` is `orig`, or, for a value defined in the copied subtree (one of
/// `vin`), a fresh copy of it.
pub open spec fn carried(a: &Context, b: &Context, orig: ValueId, copy: ValueId, vin: Seq<ValueId>) -> bool {
    copy == orig || (vin.contains(orig) && fresh_copy(a, b, orig, copy))
}

/// Every block the map leads to is new in `a`.
pub open spec fn blocks_fresh(a: &Context, b: &Context, blocks: Map<u32, u32>) -> bool {
    forall|k: u32| #[trigger] blocks.contains_key(k) ==> b.spec_block(BlockId(blocks[k])) is None && a.spec_block(BlockId(blocks[k])) is Some
}

/// `copy` has `orig`'s name, and its value with branch targets to blocks of
/// the copied subtree (those of `bin`) moved onto new blocks.
pub open spec fn attribute_carried(a: &Context, b: &Context, orig: NamedAttribute, copy: NamedAttribute, bin: Seq<BlockId>) -> bool {
    &&& copy.name@ == orig.name@
    &&& exists|m: Map<u32, u32>| blocks_fresh(a, b, m) && keys_within(m, bin) && #[trigger] remapped(orig.value@, m) == copy.value@
}

/// Every block the map moves is one of `bin`.
pub open spec fn keys_within(m: Map<u32, u32>, bin: Seq<BlockId>) -> bool {
    forall|k: u32| #[trigger] m.contains_key(k) ==> bin.contains(BlockId(k))
}

/// `copy` (in `a`) is a new op copying `src` (in `b`) to depth `d`: the same
/// dialect and name, each operand kept or moved to a fresh copy, fresh
/// results of the same types, the attributes carried over, and each region
/// copied, with every copied block numbered at least `lo`.
pub open spec fn op_copied(a: &Context, b: &Context, src: OpId, copy: OpId, d: nat, lo: nat, vin: Seq<ValueId>, bin: Seq<BlockId>) -> bool
    decreases d, 3nat,
{
    if d == 0 {
        false
    } else {
        &&& b.spec_op(src) is Some
        &&& a.spec_op(copy) is Some
        &&& b.spec_op(copy) is None
        &&& {
            let s = b.spec_op(src)->0;
            let c = a.spec_op(copy)->0;
            &&& c.id == copy
            &&& c.dialect@ == s.dialect@
            &&& c.name@ == s.name@
            &&& c.operands@.len() == s.operands@.len()
            &&& forall|i: int| 0 <= i < s.operands@.len() ==> carried(a, b, s.operands@[i], #[trigger] c.operands@[i], vin)
            &&& c.results@.len() == s.results@.len()
            &&& forall|i: int| 0 <= i < s.results@.len() ==> fresh_copy(a, b, s.results@[i], #[trigger] c.results@[i])
            &&& c.attributes@.len() == s.attributes@.len()
            &&& forall|i: int| 0 <= i < s.attributes@.len() ==> attribute_carried(a, b, s.attributes@[i], #[trigger] c.attributes@[i], bin)
            &&& c.regions@.len() == s.regions@.len()
            &&& forall|j: int| 0 <= j < s.regions@.len() ==> region_copied(a, b, s.regions@[j], #[trigger] c.regions@[j], d, lo, vin, bin)
        }
    }
}

/// One past the largest block number in `blocks` (zero for none).
pub open spec fn past_blocks(blocks: Seq<BlockId>) -> nat
    decreases blocks.len(),
{
    if blocks.len() == 0 {
        0
    } else {
        let rest = past_blocks(blocks.drop_last());
        if rest > blocks.last().0 + 1 { rest } else { (blocks.last().0 + 1) as nat }
    }
}

proof fn lemma_past_blocks(blocks: Seq<BlockId>)
    ensures
        forall|k: int| 0 <= k < blocks.len() ==> (#[trigger] blocks[k]).0 < past_blocks(blocks),
    decreases blocks.len(),
{
    if blocks.len() > 0 {
        lemma_past_blocks(blocks.drop_last());
        assert forall|k: int| 0 <= k < blocks.len() implies (#[trigger] blocks[k]).0 < past_blocks(blocks) by {
            if k < blocks.len() - 1 {
                assert(blocks.drop_last()[k] == blocks[k]);
            }
        }
    }
}

/// `copy` (in `a`) is a new region copying `src` (in `b`): its blocks,
/// numbered at least `lo`, copy the source's in order, and the blocks nested
/// in their ops are numbered past them.
pub open spec fn region_copied(a: &Context, b: &Context, src: RegionId, copy: RegionId, d: nat, lo: nat, vin: Seq<ValueId>, bin: Seq<BlockId>) -> bool
    decreases d, 2nat,
{
    &&& b.spec_region(src) is Some
    &&& a.spec_region(copy) is Some
    &&& b.spec_region(copy) is None
    &&& a.region_blocks(copy).len() == b.region_blocks(src).len()
    &&& forall|k: int| 0 <= k < b.region_blocks(src).len() ==> lo <= (#[trigger] a.region_blocks(copy)[k]).0
        && block_copied(a, b, b.region_blocks(src)[k], a.region_blocks(copy)[k], d, past_blocks(a.region_blocks(copy)), vin, bin)
}

/// `copy` (in `a`) is a new block copying `src` (in `b`): fresh arguments of
/// the same types, no attributes, and copies of its ops in order, whose
/// blocks are numbered at least `inner`.
pub open spec fn block_copied(a: &Context, b: &Context, src: BlockId, copy: BlockId, d: nat, inner: nat, vin: Seq<ValueId>, bin: Seq<BlockId>) -> bool
    decreases d, 0nat,
{
    if d == 0 {
        false
    } else {
        &&& b.spec_block(src) is Some
        &&& a.spec_block(copy) is Some
        &&& b.spec_block(copy) is None
        &&& {
            let s = b.spec_block(src)->0;
            let c = a.spec_block(copy)->0;
            &&& c.attributes@.len() == 0
            &&& c.arguments@.len() == s.arguments@.len()
            &&& forall|i: int| 0 <= i < s.arguments@.len() ==> fresh_copy(a, b, s.arguments@[i], #[trigger] c.arguments@[i])
            &&& c.operations@.len() == s.operations@.len()
            &&& forall|i: int| 0 <= i < s.operations@.len() ==> op_copied(a, b, s.operations@[i], #[trigger] c.operations@[i], (d - 1) as nat, inner, vin, bin)
        }
    }
}

/// Everything in `a1` is still in `a2`: ops as they were, values with their
/// types, regions with their blocks, and blocks as they were, but for
/// `touched`, which still exists.
pub open spec fn kept(a2: &Context, a1: &Context, touched: Option<BlockId>) -> bool {
    &&& forall|x: OpId| #[trigger] a1.spec_op(x) is Some ==> a2.spec_op(x) == a1.spec_op(x)
    &&& forall|v: ValueId| #[trigger] a1.spec_value(v) is Some ==> a2.spec_value(v) is Some && a2.spec_value(v)->0.ty == a1.spec_value(v)->0.ty
    &&& forall|r: RegionId| #[trigger] a1.spec_region(r) is Some ==> a2.spec_region(r) is Some && a2.region_blocks(r) == a1.region_blocks(r)
    &&& forall|x: BlockId| #[trigger] a1.spec_block(x) is Some ==> a2.spec_block(x) is Some && (Some(x) != touched ==> a2.spec_block(x) == a1.spec_block(x))
}

/// Every value of `a1` is in `a2` with its type, and every block of `a1`
/// is in `a2`.
pub open spec fn persists(a2: &Context, a1: &Context) -> bool {
    &&& forall|v: ValueId| #[trigger] a1.spec_value(v) is Some ==> a2.spec_value(v) is Some && a2.spec_value(v)->0.ty == a1.spec_value(v)->0.ty
    &&& forall|x: BlockId| #[trigger] a1.spec_block(x) is Some ==> a2.spec_block(x) is Some
}

proof fn lemma_fresh_copy_kept(a1: &Context, a2: &Context, b: &Context, orig: ValueId, copy: ValueId, touched: Option<BlockId>)
    requires
        fresh_copy(a1, b, orig, copy),
        persists(a2, a1),
    ensures
        fresh_copy(a2, b, orig, copy),
{
    assert(a1.spec_value(copy) is Some);
}

proof fn lemma_carried_kept(a1: &Context, a2: &Context, b: &Context, orig: ValueId, copy: ValueId, touched: Option<BlockId>, vin: Seq<ValueId>)
    requires
        carried(a1, b, orig, copy, vin),
        kept(a2, a1, touched),
    ensures
        carried(a2, b, orig, copy, vin),
{
    if copy != orig {
        lemma_fresh_copy_kept(a1, a2, b, orig, copy, touched);
    }
}

proof fn lemma_attribute_carried_kept(a1: &Context, a2: &Context, b: &Context, orig: NamedAttribute, copy: NamedAttribute, touched: Option<BlockId>, bin: Seq<BlockId>)
    requires
        attribute_carried(a1, b, orig, copy, bin),
        kept(a2, a1, touched),
    ensures
        attribute_carried(a2, b, orig, copy, bin),
{
    let m = choose|m: Map<u32, u32>| blocks_fresh(a1, b, m) && #[trigger] remapped(orig.value@, m) == copy.value@;
    assert forall|k: u32| #[trigger] m.contains_key(k) implies b.spec_block(BlockId(m[k])) is None && a2.spec_block(BlockId(m[k])) is Some by {
        assert(a1.spec_block(BlockId(m[k])) is Some);
    }
    assert(blocks_fresh(a2, b, m));
}

/// A copy stays a copy while everything it is made of is kept.
proof fn lemma_op_copied_kept(a1: &Context, a2: &Context, b: &Context, src: OpId, copy: OpId, d: nat, lo: nat, touched: Option<BlockId>, vin: Seq<ValueId>, bin: Seq<BlockId>)
    requires
        op_copied(a1, b, src, copy, d, lo, vin, bin),
        kept(a2, a1, touched),
        touched matches Some(t) ==> t.0 < lo,
    ensures
        op_copied(a2, b, src, copy, d, lo, vin, bin),
    decreases d, 3nat,
{
    let s = b.spec_op(src)->0;
    let c = a1.spec_op(copy)->0;
    assert(a2.spec_op(copy) == a1.spec_op(copy));
    assert forall|i: int| 0 <= i < s.operands@.len() implies carried(a2, b, s.operands@[i], #[trigger] c.operands@[i], vin) by {
        lemma_carried_kept(a1, a2, b, s.operands@[i], c.operands@[i], touched, vin);
    }
    assert forall|i: int| 0 <= i < s.results@.len() implies fresh_copy(a2, b, s.results@[i], #[trigger] c.results@[i]) by {
        lemma_fresh_copy_kept(a1, a2, b, s.results@[i], c.results@[i], touched);
    }
    assert forall|i: int| 0 <= i < s.attributes@.len() implies attribute_carried(a2, b, s.attributes@[i], #[trigger] c.attributes@[i], bin) by {
        lemma_attribute_carried_kept(a1, a2, b, s.attributes@[i], c.attributes@[i], touched, bin);
    }
    assert forall|j: int| 0 <= j < s.regions@.len() implies region_copied(a2, b, s.regions@[j], #[trigger] c.regions@[j], d, lo, vin, bin) by {
        lemma_region_copied_kept(a1, a2, b, s.regions@[j], c.regions@[j], d, lo, touched, vin, bin);
    }
}

proof fn lemma_region_copied_kept(a1: &Context, a2: &Context, b: &Context, src: RegionId, copy: RegionId, d: nat, lo: nat, touched: Option<BlockId>, vin: Seq<ValueId>, bin: Seq<BlockId>)
    requires
        region_copied(a1, b, src, copy, d, lo, vin, bin),
        kept(a2, a1, touched),
        touched matches Some(t) ==> t.0 < lo,
    ensures
        region_copied(a2, b, src, copy, d, lo, vin, bin),
    decreases d, 2nat,
{
    let blocks = a1.region_blocks(copy);
    assert(a2.region_blocks(copy) == blocks);
    lemma_past_blocks(blocks);
    assert forall|k: int| 0 <= k < b.region_blocks(src).len() implies lo <= (#[trigger] a2.region_blocks(copy)[k]).0
        && block_copied(a2, b, b.region_blocks(src)[k], a2.region_blocks(copy)[k], d, past_blocks(a2.region_blocks(copy)), vin, bin) by {
        assert(blocks[k].0 < past_blocks(blocks));
        lemma_block_copied_kept(a1, a2, b, b.region_blocks(src)[k], blocks[k], d, past_blocks(blocks), touched, vin, bin);
    }
}

proof fn lemma_block_copied_kept(a1: &Context, a2: &Context, b: &Context, src: BlockId, copy: BlockId, d: nat, inner: nat, touched: Option<BlockId>, vin: Seq<ValueId>, bin: Seq<BlockId>)
    requires
        block_copied(a1, b, src, copy, d, inner, vin, bin),
        kept(a2, a1, touched),
        touched != Some(copy),
        touched matches Some(t) ==> t.0 < inner,
    ensures
        block_copied(a2, b, src, copy, d, inner, vin, bin),
    decreases d, 0nat,
{
    let s = b.spec_block(src)->0;
    let c = a1.spec_block(copy)->0;
    assert(a2.spec_block(copy) == a1.spec_block(copy));
    assert forall|i: int| 0 <= i < s.arguments@.len() implies fresh_copy(a2, b, s.arguments@[i], #[trigger] c.arguments@[i]) by {
        lemma_fresh_copy_kept(a1, a2, b, s.arguments@[i], c.arguments@[i], touched);
    }
    assert forall|i: int| 0 <= i < s.operations@.len() implies op_copied(a2, b, s.operations@[i], #[trigger] c.operations@[i], (d - 1) as nat, inner, vin, bin) by {
        lemma_op_copied_kept(a1, a2, b, s.operations@[i], c.operations@[i], (d - 1) as nat, inner, touched, vin, bin);
    }
}

/// A lower bound on the copied blocks can be lowered.
proof fn lemma_op_copied_lower(a: &Context, b: &Context, src: OpId, copy: OpId, d: nat, lo: nat, lower: nat, vin: Seq<ValueId>, bin: Seq<BlockId>)
    requires
        op_copied(a, b, src, copy, d, lo, vin, bin),
        lower <= lo,
    ensures
        op_copied(a, b, src, copy, d, lower, vin, bin),
{
    let s = b.spec_op(src)->0;
    let c = a.spec_op(copy)->0;
    assert forall|j: int| 0 <= j < s.regions@.len() implies region_copied(a, b, s.regions@[j], #[trigger] c.regions@[j], d, lower, vin, bin) by {
        assert(region_copied(a, b, s.regions@[j], c.regions@[j], d, lo, vin, bin));
    }
}

/// Keeping is transitive.
proof fn lemma_kept_trans(a3: &Context, a2: &Context, a1: &Context)
    requires
        kept(a2, a1, None),
        kept(a3, a2, None),
    ensures
        kept(a3, a1, None),
{
}

/// The mapping leads each copied value to a fresh copy of it and each
/// copied block to a new block.
pub open spec fn mapping_ok(m: &Mapping, a: &Context, b: &Context, vin: Seq<ValueId>, bin: Seq<BlockId>) -> bool {
    &&& m.wf()
    &&& forall|k: u32| #[trigger] m.value_map().contains_key(k) ==> fresh_copy(a, b, ValueId(k), ValueId(m.value_map()[k])) && vin.contains(ValueId(k))
    &&& blocks_fresh(a, b, m.block_map())
    &&& keys_within(m.block_map(), bin)
}

proof fn lemma_mapping_kept(m: &Mapping, a1: &Context, a2: &Context, b: &Context, touched: Option<BlockId>, vin: Seq<ValueId>, bin: Seq<BlockId>)
    requires
        mapping_ok(m, a1, b, vin, bin),
        persists(a2, a1),
    ensures
        mapping_ok(m, a2, b, vin, bin),
{
    assert forall|k: u32| #[trigger] m.value_map().contains_key(k) implies fresh_copy(a2, b, ValueId(k), ValueId(m.value_map()[k])) by {
        lemma_fresh_copy_kept(a1, a2, b, ValueId(k), ValueId(m.value_map()[k]), touched);
    }
    assert forall|k: u32| #[trigger] m.block_map().contains_key(k) implies b.spec_block(BlockId(m.block_map()[k])) is None
        && a2.spec_block(BlockId(m.block_map()[k])) is Some by {
        assert(a1.spec_block(BlockId(m.block_map()[k])) is Some);
    }
}

/// The register roles an op's attributes play, for the ops that have any:
/// what the context consults when an op is added.
pub struct OpRoles {
    pub dialect: String,
    pub name: String,
    pub roles: Vec<(String, AttributeRole)>,
}

/// Roles as mathematical values.
pub open spec fn roles_view(roles: Seq<(String, AttributeRole)>) -> Seq<(Seq<char>, AttributeRole)> {
    roles.map_values(|p: (String, AttributeRole)| (p.0@, p.1))
}

/// The roles of the first entry of `table` for the op `dialect.name`, or
/// none.
pub open spec fn table_roles(table: Seq<OpRoles>, dialect: Seq<char>, name: Seq<char>) -> Seq<(Seq<char>, AttributeRole)>
    decreases table.len(),
{
    if table.len() == 0 {
        Seq::empty()
    } else if table[0].dialect@ == dialect && table[0].name@ == name {
        roles_view(table[0].roles@)
    } else {
        table_roles(table.subrange(1, table.len() as int), dialect, name)
    }
}

/// The roles registered for the op `dialect.name`, if any.
fn roles_for(table: &Vec<OpRoles>, dialect: &String, name: &String) -> (r: Vec<(String, AttributeRole)>)
    ensures
        roles_view(r@) == table_roles(table@, dialect@, name@),
{
    let mut k: usize = 0;
    proof {
        assert(table@.subrange(0, table@.len() as int) =~= table@);
    }
    while k < table.len()
        invariant
            k <= table@.len(),
            table_roles(table@, dialect@, name@) == table_roles(table@.subrange(k as int, table@.len() as int), dialect@, name@),
        decreases table.len() - k,
    {
        let ghost rest = table@.subrange(k as int, table@.len() as int);
        proof {
            assert(rest.subrange(1, rest.len() as int) =~= table@.subrange(k + 1, table@.len() as int));
            assert(rest[0] == table@[k as int]);
        }
        if crate::text::str_eq(table[k].dialect.as_str(), dialect.as_str()) && crate::text::str_eq(table[k].name.as_str(), name.as_str()) {
            let mut out: Vec<(String, AttributeRole)> = Vec::new();
            let mut i: usize = 0;
            while i < table[k].roles.len()
                invariant
                    k < table@.len(),
                    i <= table@[k as int].roles@.len(),
                    out@.len() == i,
                    roles_view(out@) == roles_view(table@[k as int].roles@.subrange(0, i as int)),
                decreases table@[k as int].roles@.len() - i,
            {
                let entry = (table[k].roles[i].0.clone(), table[k].roles[i].1);
                let ghost before = out@;
                out.push(entry);
                proof {
                    let src = table@[k as int].roles@;
                    assert(roles_view(before) =~= roles_view(src.subrange(0, i as int)));
                    assert forall|j: int| 0 <= j < i + 1 implies #[trigger] roles_view(out@)[j] == roles_view(src.subrange(0, i + 1))[j] by {
                        assert(out@[j] == before.push(entry)[j]);
                        if j < i {
                            assert(out@[j] == before[j]);
                            assert(roles_view(before)[j] == roles_view(src.subrange(0, i as int))[j]);
                            assert(src.subrange(0, i + 1)[j] == src.subrange(0, i as int)[j]);
                        } else {
                            assert(out@[j] == entry);
                            assert(src.subrange(0, i + 1)[j] == src[i as int]);
                        }
                    }
                    assert(roles_view(out@) =~= roles_view(src.subrange(0, i + 1)));
                }
                i = i + 1;
            }
            proof {
                assert(table@[k as int].roles@.subrange(0, i as int) =~= table@[k as int].roles@);
            }
            return out;
        }
        k = k + 1;
    }
    proof {
        assert(table@.subrange(k as int, table@.len() as int) =~= Seq::<OpRoles>::empty());
        assert(roles_view(Seq::<(String, AttributeRole)>::empty()) =~= Seq::empty());
    }
    Vec::new()
}

proof fn lemma_past_blocks_le(blocks: Seq<BlockId>, n: nat)
    requires
        forall|k: int| 0 <= k < blocks.len() ==> (#[trigger] blocks[k]).0 < n,
    ensures
        past_blocks(blocks) <= n,
    decreases blocks.len(),
{
    if blocks.len() > 0 {
        lemma_past_blocks_le(blocks.drop_last(), n);
    }
}

/// What the clones promise of the context around the copy: everything that
/// existed is kept (regions and the regions holding blocks as they were),
/// no version moves and nothing is recorded dirty.
pub open spec fn clone_frame(a: &Context, b: &Context) -> bool {
    &&& kept(a, b, None)
    &&& forall|x: RegionId| #[trigger] b.spec_region(x) is Some ==> a.spec_region(x) == b.spec_region(x)
    &&& forall|x: BlockId| #[trigger] b.spec_block(x) is Some ==> a.spec_parent_region(x) == b.spec_parent_region(x)
    &&& a.same_versions(b)
    &&& a.dirty() == b.dirty()
    &&& ids_below(a)
    &&& counters_grew(a, b)
}

} // verus!


verus! {

/// `copy` holds fresh copies of `src`'s arguments, no attributes, and
/// copies of its first `done` ops.
pub open spec fn block_in_progress(a: &Context, b: &Context, src: BlockId, copy: BlockId, done: nat, d: nat, inner: nat, vin: Seq<ValueId>, bin: Seq<BlockId>) -> bool {
    let x = a.spec_block(copy)->0;
    let y = b.spec_block(src)->0;
    &&& a.spec_block(copy) is Some
    &&& b.spec_block(src) is Some
    &&& x.attributes@.len() == 0
    &&& x.operations@.len() == done
    &&& x.arguments@.len() == y.arguments@.len()
    &&& forall|j: int| 0 <= j < y.arguments@.len() ==> fresh_copy(a, b, y.arguments@[j], #[trigger] x.arguments@[j])
    &&& forall|j: int| 0 <= j < done ==> op_copied(a, b, y.operations@[j], #[trigger] x.operations@[j], (d - 1) as nat, inner, vin, bin)
}

/// Copy `region` and everything under it into a new region owned by no op.
/// Blocks are created before any op is copied, so a branch to a block later
/// in the region already has its copy to name.
fn clone_region_into(context: &mut Context, region: RegionId, mapping: &mut Mapping, table: &Vec<OpRoles>, Ghost(before): Ghost<Context>, Ghost(d): Ghost<nat>, Ghost(vin): Ghost<Seq<ValueId>>, Ghost(bin): Ghost<Seq<BlockId>>) -> (r: RegionId)
    requires
        within(blocks_values(&before, before.region_blocks(region), d), vin),
        within(blocks_blocks(&before, before.region_blocks(region), d), bin),
        region_clonable(&before, region, d),
        room_for(old(context), region_cost(&before, region, d)),
        ids_below(&before),
        ids_below(old(context)),
        counters_grew(old(context), &before),
        kept(old(context), &before, None),
        mapping_ok(old(mapping), old(context), &before, vin, bin),
    ensures
        region_copied(final(context), &before, region, r, d, old(context).next_block() as nat, vin, bin),
        old(context).spec_region(r) is None,
        final(context).spec_region(r) is Some && final(context).spec_region(r)->0.parent_op is None,
        clone_frame(final(context), old(context)),
        grew_at_most(final(context), old(context), region_cost(&before, region, d)),
        mapping_ok(final(mapping), final(context), &before, vin, bin),
    decreases d, 0nat,
{
    let ghost start = *context;
    let ghost total = region_cost(&before, region, d);
    let clone = context.create_region();
    let src_blocks = crate::ids::copy_vec(&context.get_region(region).blocks);
    let ghost n = src_blocks@.len();
    let ghost src = src_blocks@;
    proof {
        assert(src == before.region_blocks(region));
        lemma_blocks_cost_split(&before, src, d);
        assert(src.subrange(0, n as int) =~= src);
    }
    let ghost mut budget: nat = (total - 1) as nat;
    let mut copies: Vec<BlockId> = Vec::new();
    let mut k: usize = 0;
    while k < src_blocks.len()
        invariant
            k <= n,
            n == src_blocks@.len(),
            src == src_blocks@,
            src == before.region_blocks(region),
            within(blocks_values(&before, src, d), vin),
            within(blocks_blocks(&before, src, d), bin),
            region_clonable(&before, region, d),
            ids_below(&before),
            counters_grew(&start, &before),
            kept(&start, &before, None),
            total == region_cost(&before, region, d),
            total == 1 + shells_cost(&before, src) + inner_cost(&before, src, d),
            room_for(&start, total),
            room_for(context, budget),
            budget >= shells_cost(&before, src.subrange(k as int, n as int)) + inner_cost(&before, src, d),
            grew_at_most(context, &start, (total - budget) as nat),
            budget <= total,
            copies@.len() == k,
            forall|a: int, b: int| 0 <= a < b < k ==> (#[trigger] copies@[a]).0 < (#[trigger] copies@[b]).0,
            forall|a: int| 0 <= a < k ==> start.next_block() <= (#[trigger] copies@[a]).0 < context.next_block(),
            forall|a: int| 0 <= a < k ==> {
                &&& context.spec_block(#[trigger] copies@[a]) is Some
                &&& before.spec_block(copies@[a]) is None
                &&& context.spec_parent_region(copies@[a]) == Some(clone)
                &&& {
                    let x = context.spec_block(copies@[a])->0;
                    let y = before.spec_block(src[a])->0;
                    &&& x.attributes@.len() == 0
                    &&& x.operations@.len() == 0
                    &&& x.arguments@.len() == y.arguments@.len()
                    &&& forall|i: int| 0 <= i < y.arguments@.len() ==> fresh_copy(context, &before, y.arguments@[i], #[trigger] x.arguments@[i])
                }
            },
            context.spec_region(clone) is Some,
            context.spec_region(clone)->0.parent_op is None,
            context.region_blocks(clone) == copies@,
            start.spec_region(clone) is None,
            before.spec_region(clone) is None,
            clone_frame(context, &start),
            mapping_ok(mapping, context, &before, vin, bin),
        decreases n - k,
    {
        let ghost at_block = *context;
        let sb = src_blocks[k];
        proof {
            assert(src.subrange(k as int, n as int).subrange(1, (n - k) as int) =~= src.subrange(k + 1, n as int));
            assert(src.subrange(k as int, n as int)[0] == sb);
            assert(block_clonable(&before, sb, d));
            lemma_blocks_values_within(&before, src, d, k as int, vin);
            lemma_blocks_blocks_within(&before, src, d, k as int, bin);
        }
        let args_src = crate::ids::copy_vec(&context.get_block(sb).arguments);
        let mut args: Vec<ValueId> = Vec::new();
        let mut i: usize = 0;
        while i < args_src.len()
            invariant
                i <= args_src@.len(),
                args_src@ == before.spec_block(sb)->0.arguments@,
                within(args_src@, vin),
                forall|j: int| 0 <= j < args_src@.len() ==> before.spec_value(#[trigger] args_src@[j]) is Some,
                ids_below(&before),
                counters_grew(&at_block, &before),
                kept(&at_block, &before, None),
                args@.len() == i,
                forall|j: int| 0 <= j < i ==> fresh_copy(context, &before, args_src@[j], #[trigger] args@[j]),
                forall|j: int| 0 <= j < i ==> (#[trigger] args@[j]).0 < context.next_value(),
                context.next_value() == at_block.next_value() + i,
                room_for(&at_block, shell_cost(&before, sb)),
                shell_cost(&before, sb) == 1 + args_src@.len(),
                context.next_op() == at_block.next_op(),
                context.next_region() == at_block.next_region(),
                context.next_block() == at_block.next_block(),
                clone_frame(context, &at_block),
                forall|v: ValueId| #[trigger] context.spec_value_block(v) == at_block.spec_value_block(v),
                forall|x: BlockId| #[trigger] context.spec_parent_region(x) == at_block.spec_parent_region(x),
                forall|x: BlockId| #[trigger] context.spec_block(x) == at_block.spec_block(x),
                forall|x: RegionId| #[trigger] context.spec_region(x) == at_block.spec_region(x),
                mapping_ok(mapping, context, &before, vin, bin),
            decreases args_src.len() - i,
        {
            let ghost pre = *context;
            let ty = context.get_value(args_src[i]).ty;
            let v = context.create_value(ty, None);
            proof {
                assert(kept(context, &pre, None));
                lemma_mapping_kept(mapping, &pre, context, &before, None, vin, bin);
                assert forall|j: int| 0 <= j < i implies fresh_copy(context, &before, args_src@[j], #[trigger] args@[j]) by {
                    lemma_fresh_copy_kept(&pre, context, &before, args_src@[j], args@[j], None);
                }
                assert(before.spec_value(v.id) is None);
            }
            proof {
                assert(pre.spec_value(args_src@[i as int])->0.ty == at_block.spec_value(args_src@[i as int])->0.ty);
                assert(at_block.spec_value(args_src@[i as int])->0.ty == before.spec_value(args_src@[i as int])->0.ty);
                assert(fresh_copy(context, &before, args_src@[i as int], v.id));
                assert(args_src@.contains(args_src@[i as int]));
            }
            let ghost m0 = *mapping;
            mapping.insert_value(args_src[i], v.id);
            args.push(v.id);
            proof {
                assert forall|j: int| 0 <= j < i + 1 implies fresh_copy(context, &before, args_src@[j], #[trigger] args@[j]) by {
                    if j == i {
                        assert(args@[j] == v.id);
                    }
                }
                assert forall|key: u32| #[trigger] mapping.value_map().contains_key(key) implies fresh_copy(context, &before, ValueId(key), ValueId(mapping.value_map()[key])) && vin.contains(ValueId(key)) by {
                    if key != args_src@[i as int].0 {
                        assert(m0.value_map().contains_key(key));
                    }
                }
            }
            i = i + 1;
        }
        let ghost pre_block = *context;
        let cb = context.create_block(args);
        proof {
            assert(before.spec_block(cb) is None);
            assert(persists(context, &pre_block));
            lemma_mapping_kept(mapping, &pre_block, context, &before, None, vin, bin);
        }
        let ghost m1 = *mapping;
        mapping.insert_block(sb, cb);
        proof {
            assert forall|key: u32| #[trigger] mapping.block_map().contains_key(key) implies before.spec_block(BlockId(mapping.block_map()[key])) is None
                && context.spec_block(BlockId(mapping.block_map()[key])) is Some && bin.contains(BlockId(key)) by {
                if key != sb.0 {
                    assert(m1.block_map().contains_key(key));
                }
            }
            assert(context.region_owner(clone) is None);
        }
        let ghost pre_add = *context;
        context.add_block(clone, cb);
        copies.push(cb);
        proof {
            assert(persists(context, &pre_add));
            lemma_mapping_kept(mapping, &pre_add, context, &before, None, vin, bin);
            assert(context.next_value() == at_block.next_value() + shell_cost(&before, sb) - 1);
            assert(context.next_block() == at_block.next_block() + 1);
            budget = (budget - shell_cost(&before, sb)) as nat;
        }
        k = k + 1;
    }
    let ghost past = past_blocks(copies@);
    proof {
        lemma_past_blocks(copies@);
        lemma_past_blocks_le(copies@, context.next_block() as nat);
        assert(src.subrange(n as int, n as int) =~= Seq::<BlockId>::empty());
        assert(src.subrange(0, n as int) =~= src);
    }
    let mut k: usize = 0;
    while k < src_blocks.len()
        invariant
            k <= n,
            n == src_blocks@.len(),
            src == src_blocks@,
            src == before.region_blocks(region),
            within(blocks_values(&before, src, d), vin),
            within(blocks_blocks(&before, src, d), bin),
            region_clonable(&before, region, d),
            ids_below(&before),
            counters_grew(&start, &before),
            kept(&start, &before, None),
            total == region_cost(&before, region, d),
            room_for(&start, total),
            room_for(context, budget),
            budget >= inner_cost(&before, src.subrange(k as int, n as int), d),
            ids_below(&start),
            grew_at_most(context, &start, (total - budget) as nat),
            budget <= total,
            copies@.len() == n,
            past == past_blocks(copies@),
            past <= context.next_block(),
            forall|a: int| 0 <= a < n ==> (#[trigger] copies@[a]).0 < past,
            forall|a: int, b: int| 0 <= a < b < n ==> (#[trigger] copies@[a]).0 < (#[trigger] copies@[b]).0,
            forall|a: int| 0 <= a < n ==> start.next_block() <= (#[trigger] copies@[a]).0,
            forall|a: int| 0 <= a < n ==> context.spec_block(#[trigger] copies@[a]) is Some
                && context.spec_parent_region(copies@[a]) == Some(clone),
            forall|a: int| 0 <= a < k ==> block_copied(context, &before, #[trigger] src[a], copies@[a], d, past, vin, bin),
            forall|a: int| k <= a < n ==> {
                &&& before.spec_block(#[trigger] copies@[a]) is None
                &&& {
                    let x = context.spec_block(copies@[a])->0;
                    let y = before.spec_block(src[a])->0;
                    &&& x.attributes@.len() == 0
                    &&& x.operations@.len() == 0
                    &&& x.arguments@.len() == y.arguments@.len()
                    &&& forall|i: int| 0 <= i < y.arguments@.len() ==> fresh_copy(context, &before, y.arguments@[i], #[trigger] x.arguments@[i])
                }
            },
            context.spec_region(clone) is Some,
            context.spec_region(clone)->0.parent_op is None,
            context.region_blocks(clone) == copies@,
            start.spec_region(clone) is None,
            before.spec_region(clone) is None,
            clone_frame(context, &start),
            mapping_ok(mapping, context, &before, vin, bin),
        decreases n - k,
    {
        let sb = src_blocks[k];
        let target = copies[k];
        proof {
            assert(src.subrange(k as int, n as int).subrange(1, (n - k) as int) =~= src.subrange(k + 1, n as int));
            assert(src.subrange(k as int, n as int)[0] == sb);
            assert(block_clonable(&before, sb, d));
        }
        let ops_src = crate::ids::copy_vec(&context.get_block(sb).operations);
        let ghost m = ops_src@.len();
        proof {
            lemma_blocks_values_within(&before, src, d, k as int, vin);
            lemma_blocks_blocks_within(&before, src, d, k as int, bin);
            assert(ops_src@ == before.block_ops(sb));
            assert(ops_src@.subrange(0, m as int) =~= ops_src@);
        }
        let mut i: usize = 0;
        while i < ops_src.len()
            invariant
                i <= m,
                m == ops_src@.len(),
                k < n,
                sb == src[k as int],
                target == copies@[k as int],
                ops_src@ == before.block_ops(sb),
                within(ops_values(&before, ops_src@, d), vin),
                within(ops_blocks(&before, ops_src@, d), bin),
                block_clonable(&before, sb, d),
                d > 0,
                ids_below(&before),
                ids_below(&start),
                counters_grew(&start, &before),
                kept(&start, &before, None),
                room_for(context, budget),
                budget >= ops_cost(&before, ops_src@.subrange(i as int, m as int), d) + inner_cost(&before, src.subrange(k + 1, n as int), d),
                grew_at_most(context, &start, (total - budget) as nat),
                budget <= total,
                copies@.len() == n,
                past == past_blocks(copies@),
                past <= context.next_block(),
                forall|a: int| 0 <= a < n ==> (#[trigger] copies@[a]).0 < past,
                forall|a: int, b: int| 0 <= a < b < n ==> (#[trigger] copies@[a]).0 < (#[trigger] copies@[b]).0,
                forall|a: int| 0 <= a < n ==> start.next_block() <= (#[trigger] copies@[a]).0,
                forall|a: int| 0 <= a < n ==> context.spec_block(#[trigger] copies@[a]) is Some
                    && context.spec_parent_region(copies@[a]) == Some(clone),
                forall|a: int| 0 <= a < k ==> block_copied(context, &before, #[trigger] src[a], copies@[a], d, past, vin, bin),
                forall|a: int| k < a < n ==> {
                    &&& before.spec_block(#[trigger] copies@[a]) is None
                    &&& {
                        let x = context.spec_block(copies@[a])->0;
                        let y = before.spec_block(src[a])->0;
                        &&& x.attributes@.len() == 0
                        &&& x.operations@.len() == 0
                        &&& x.arguments@.len() == y.arguments@.len()
                        &&& forall|j: int| 0 <= j < y.arguments@.len() ==> fresh_copy(context, &before, y.arguments@[j], #[trigger] x.arguments@[j])
                    }
                },
                before.spec_block(target) is None,
                block_in_progress(context, &before, sb, target, i as nat, d, past, vin, bin),
                context.spec_region(clone) is Some,
                context.spec_region(clone)->0.parent_op is None,
                context.region_blocks(clone) == copies@,
                start.spec_region(clone) is None,
                before.spec_region(clone) is None,
                clone_frame(context, &start),
                mapping_ok(mapping, context, &before, vin, bin),
            decreases m - i,
        {
            let ghost pre_call = *context;
            let op = ops_src[i];
            proof {
                assert(ops_src@.subrange(i as int, m as int).subrange(1, (m - i) as int) =~= ops_src@.subrange(i + 1, m as int));
                assert(ops_src@.subrange(i as int, m as int)[0] == op);
                assert(op_clonable(&before, op, (d - 1) as nat));
                lemma_kept_trans(context, &start, &before);
                lemma_ops_values_within(&before, ops_src@, d, i as int, vin);
                lemma_ops_blocks_within(&before, ops_src@, d, i as int, bin);
            }
            let copy = clone_op_into(context, op, mapping, table, Ghost(before), Ghost((d - 1) as nat), Ghost(vin), Ghost(bin));
            let ghost post_call = *context;
            proof {
                lemma_op_copied_lower(context, &before, op, copy, (d - 1) as nat, pre_call.next_block() as nat, past, vin, bin);
                budget = (budget - op_cost(&before, op, (d - 1) as nat)) as nat;
                assert(context.region_owner(clone) is None);
                assert(context.enclosing_op(target) is None);
                assert(context.spec_op(copy) is Some);
            }
            context.append_op(target, copy);
            proof {
                assert(kept(context, &post_call, Some(target)));
                assert(persists(context, &post_call));
                lemma_mapping_kept(mapping, &post_call, context, &before, None, vin, bin);
                assert(start.spec_block(target) is None);
                assert forall|a: int| 0 <= a < k implies block_copied(context, &before, #[trigger] src[a], copies@[a], d, past, vin, bin) by {
                    lemma_block_copied_kept(&pre_call, &post_call, &before, src[a], copies@[a], d, past, None, vin, bin);
                    assert(copies@[a].0 < copies@[k as int].0);
                    lemma_block_copied_kept(&post_call, context, &before, src[a], copies@[a], d, past, Some(target), vin, bin);
                }
                assert forall|a: int| k < a < n implies {
                    &&& before.spec_block(#[trigger] copies@[a]) is None
                    &&& {
                        let x = context.spec_block(copies@[a])->0;
                        let y = before.spec_block(src[a])->0;
                        &&& x.attributes@.len() == 0
                        &&& x.operations@.len() == 0
                        &&& x.arguments@.len() == y.arguments@.len()
                        &&& forall|j: int| 0 <= j < y.arguments@.len() ==> fresh_copy(context, &before, y.arguments@[j], #[trigger] x.arguments@[j])
                    }
                } by {
                    assert(copies@[k as int].0 < copies@[a].0);
                    assert(context.spec_block(copies@[a]) == pre_call.spec_block(copies@[a]));
                    let x = context.spec_block(copies@[a])->0;
                    let y = before.spec_block(src[a])->0;
                    assert forall|j: int| 0 <= j < y.arguments@.len() implies fresh_copy(context, &before, y.arguments@[j], #[trigger] x.arguments@[j]) by {
                        assert(fresh_copy(&pre_call, &before, y.arguments@[j], x.arguments@[j]));
                        assert(persists(&post_call, &pre_call));
                        lemma_fresh_copy_kept(&pre_call, &post_call, &before, y.arguments@[j], x.arguments@[j], None);
                        lemma_fresh_copy_kept(&post_call, context, &before, y.arguments@[j], x.arguments@[j], None);
                    }
                }
                let xb = context.spec_block(target)->0;
                let pb = pre_call.spec_block(target)->0;
                let y = before.spec_block(sb)->0;
                assert(post_call.spec_block(target) == pre_call.spec_block(target));
                assert(xb.operations@ == pb.operations@.push(copy));
                assert forall|j: int| 0 <= j < y.arguments@.len() implies fresh_copy(context, &before, y.arguments@[j], #[trigger] xb.arguments@[j]) by {
                    assert(fresh_copy(&pre_call, &before, y.arguments@[j], pb.arguments@[j]));
                    lemma_fresh_copy_kept(&pre_call, &post_call, &before, y.arguments@[j], pb.arguments@[j], None);
                    lemma_fresh_copy_kept(&post_call, context, &before, y.arguments@[j], pb.arguments@[j], None);
                }
                assert forall|j: int| 0 <= j < i + 1 implies op_copied(context, &before, y.operations@[j], #[trigger] xb.operations@[j], (d - 1) as nat, past, vin, bin) by {
                    if j < i {
                        assert(xb.operations@[j] == pb.operations@[j]);
                        lemma_op_copied_kept(&pre_call, &post_call, &before, y.operations@[j], pb.operations@[j], (d - 1) as nat, past, None, vin, bin);
                        lemma_op_copied_kept(&post_call, context, &before, y.operations@[j], pb.operations@[j], (d - 1) as nat, past, Some(target), vin, bin);
                    } else {
                        assert(xb.operations@[j] == copy);
                        lemma_op_copied_kept(&post_call, context, &before, op, copy, (d - 1) as nat, past, Some(target), vin, bin);
                    }
                }
                assert(block_in_progress(context, &before, sb, target, (i + 1) as nat, d, past, vin, bin));
                assert(kept(context, &start, None)) by {
                    assert forall|x: BlockId| #[trigger] start.spec_block(x) is Some implies context.spec_block(x) is Some
                        && context.spec_block(x) == start.spec_block(x) by {
                        assert(x != target);
                        assert(post_call.spec_block(x) == pre_call.spec_block(x));
                    }
                    assert forall|x: RegionId| #[trigger] start.spec_region(x) is Some implies context.spec_region(x) is Some
                        && context.region_blocks(x) == start.region_blocks(x) by {
                        assert(post_call.spec_region(x) == pre_call.spec_region(x));
                    }
                    assert forall|x: OpId| #[trigger] start.spec_op(x) is Some implies context.spec_op(x) == start.spec_op(x) by {
                        assert(post_call.spec_op(x) == pre_call.spec_op(x));
                    }
                }
                assert forall|x: RegionId| #[trigger] start.spec_region(x) is Some implies context.spec_region(x) == start.spec_region(x) by {
                    assert(post_call.spec_region(x) == pre_call.spec_region(x));
                }
                assert forall|x: BlockId| #[trigger] start.spec_block(x) is Some implies context.spec_parent_region(x) == start.spec_parent_region(x) by {
                    assert(post_call.spec_parent_region(x) == pre_call.spec_parent_region(x));
                }
                assert(ids_below(context)) by {
                    assert forall|x: BlockId| #[trigger] context.spec_block(x) is Some implies x.0 < context.next_block() by {
                        assert(post_call.spec_block(x) is Some);
                    }
                }
                assert forall|a: int| 0 <= a < n implies context.spec_block(#[trigger] copies@[a]) is Some
                    && context.spec_parent_region(copies@[a]) == Some(clone) by {
                    assert(post_call.spec_parent_region(copies@[a]) == pre_call.spec_parent_region(copies@[a]));
                }
                assert(context.spec_region(clone) == pre_call.spec_region(clone));
            }
            i = i + 1;
        }
        k = k + 1;
    }
    clone
}

/// Copy `op` and everything under it into a new op in no block: its
/// regions first, then its operands (moved onto copies where the mapping has
/// one), fresh results, and its attributes (branch targets moved onto the
/// copied blocks).
fn clone_op_into(context: &mut Context, op: OpId, mapping: &mut Mapping, table: &Vec<OpRoles>, Ghost(before): Ghost<Context>, Ghost(d): Ghost<nat>, Ghost(vin): Ghost<Seq<ValueId>>, Ghost(bin): Ghost<Seq<BlockId>>) -> (r: OpId)
    requires
        within(op_values(&before, op, d), vin),
        within(op_blocks(&before, op, d), bin),
        op_clonable(&before, op, d),
        room_for(old(context), op_cost(&before, op, d)),
        ids_below(&before),
        ids_below(old(context)),
        counters_grew(old(context), &before),
        kept(old(context), &before, None),
        mapping_ok(old(mapping), old(context), &before, vin, bin),
    ensures
        op_copied(final(context), &before, op, r, d, old(context).next_block() as nat, vin, bin),
        old(context).spec_op(r) is None,
        clone_frame(final(context), old(context)),
        grew_at_most(final(context), old(context), op_cost(&before, op, d)),
        mapping_ok(final(mapping), final(context), &before, vin, bin),
    decreases d, 1nat,
{
    let ghost start = *context;
    let ghost total = op_cost(&before, op, d);
    let ghost s = before.spec_op(op)->0;
    let src_regions = crate::ids::copy_vec(&context.get_op(op).regions);
    let ghost nr = src_regions@.len();
    proof {
        assert(src_regions@ == s.regions@);
        assert(src_regions@.subrange(0, nr as int) =~= src_regions@);
    }
    let ghost mut budget: nat = total;
    let mut regions: Vec<RegionId> = Vec::new();
    let mut j: usize = 0;
    while j < src_regions.len()
        invariant
            j <= nr,
            nr == src_regions@.len(),
            src_regions@ == s.regions@,
            s == before.spec_op(op)->0,
            within(op_values(&before, op, d), vin),
            within(op_blocks(&before, op, d), bin),
            op_clonable(&before, op, d),
            ids_below(&before),
            counters_grew(&start, &before),
            kept(&start, &before, None),
            total == op_cost(&before, op, d),
            total == 1 + s.results@.len() + regions_cost(&before, s.regions@, d),
            room_for(&start, total),
            room_for(context, budget),
            budget >= regions_cost(&before, src_regions@.subrange(j as int, nr as int), d) + s.results@.len() + 1,
            grew_at_most(context, &start, (total - budget) as nat),
            budget <= total,
            regions@.len() == j,
            forall|a: int| 0 <= a < j ==> region_copied(context, &before, src_regions@[a], #[trigger] regions@[a], d, start.next_block() as nat, vin, bin)
                && start.spec_region(regions@[a]) is None
                && context.spec_region(regions@[a]) is Some,
            clone_frame(context, &start),
            mapping_ok(mapping, context, &before, vin, bin),
        decreases nr - j,
    {
        let ghost pre = *context;
        proof {
            assert(src_regions@.subrange(j as int, nr as int).subrange(1, (nr - j) as int) =~= src_regions@.subrange(j + 1, nr as int));
            assert(src_regions@.subrange(j as int, nr as int)[0] == src_regions@[j as int]);
            assert(region_clonable(&before, src_regions@[j as int], d));
            lemma_kept_trans(context, &start, &before);
            lemma_concat_within(s.results@, regions_values(&before, s.regions@, d), vin);
            lemma_regions_values_within(&before, s.regions@, d, j as int, vin);
            lemma_regions_blocks_within(&before, s.regions@, d, j as int, bin);
        }
        let r = clone_region_into(context, src_regions[j], mapping, table, Ghost(before), Ghost(d), Ghost(vin), Ghost(bin));
        proof {
            assert forall|a: int| 0 <= a < j implies region_copied(context, &before, src_regions@[a], #[trigger] regions@[a], d, start.next_block() as nat, vin, bin) by {
                lemma_region_copied_kept(&pre, context, &before, src_regions@[a], regions@[a], d, start.next_block() as nat, None, vin, bin);
            }
            assert(region_copied(context, &before, src_regions@[j as int], r, d, start.next_block() as nat, vin, bin)) by {
                assert(region_copied(context, &before, src_regions@[j as int], r, d, pre.next_block() as nat, vin, bin));
            }
            budget = (budget - region_cost(&before, src_regions@[j as int], d)) as nat;
        }
        regions.push(r);
        j = j + 1;
    }
    let ghost after_regions = *context;
    let source = context.get_op(op);
    let dialect = source.dialect.clone();
    let name = source.name.clone();
    let src_results = crate::ids::copy_vec(&source.results);
    let mut operands: Vec<ValueId> = Vec::new();
    let mut i: usize = 0;
    while i < source.operands.len()
        invariant
            i <= source.operands@.len(),
            source.operands@ == s.operands@,
            mapping_ok(mapping, context, &before, vin, bin),
            operands@.len() == i,
            forall|a: int| 0 <= a < i ==> carried(context, &before, s.operands@[a], #[trigger] operands@[a], vin),
        decreases source.operands.len() - i,
    {
        let v = remap_value(source.operands[i], mapping);
        proof {
            if mapping.value_map().contains_key(source.operands@[i as int].0) {
                assert(fresh_copy(context, &before, ValueId(source.operands@[i as int].0), ValueId(mapping.value_map()[source.operands@[i as int].0])));
            }
        }
        operands.push(v);
        i = i + 1;
    }
    let mut attributes: Vec<NamedAttribute> = Vec::new();
    let mut i: usize = 0;
    while i < source.attributes.len()
        invariant
            i <= source.attributes@.len(),
            source.attributes@ == s.attributes@,
            mapping_ok(mapping, context, &before, vin, bin),
            attributes@.len() == i,
            forall|a: int| 0 <= a < i ==> attribute_carried(context, &before, s.attributes@[a], #[trigger] attributes@[a], bin),
        decreases source.attributes.len() - i,
    {
        let value = remap_attribute(&source.attributes[i].value, mapping);
        let attribute = NamedAttribute::new(source.attributes[i].name.clone(), value);
        proof {
            assert(blocks_fresh(context, &before, mapping.block_map()));
            assert(remapped(s.attributes@[i as int].value@, mapping.block_map()) == attribute.value@);
        }
        attributes.push(attribute);
        i = i + 1;
    }
    let mut results: Vec<ValueId> = Vec::new();
    let mut i: usize = 0;
    while i < src_results.len()
        invariant
            i <= src_results@.len(),
            src_results@ == s.results@,
            op_clonable(&before, op, d),
            s == before.spec_op(op)->0,
            within(op_values(&before, op, d), vin),
            within(op_blocks(&before, op, d), bin),
            ids_below(&before),
            counters_grew(&start, &before),
            kept(&start, &before, None),
            room_for(context, budget),
            budget >= s.results@.len() - i + 1,
            grew_at_most(context, &start, (total - budget) as nat),
            budget <= total,
            results@.len() == i,
            forall|a: int| 0 <= a < i ==> fresh_copy(context, &before, s.results@[a], #[trigger] results@[a]),
            forall|a: int| 0 <= a < i ==> (#[trigger] results@[a]).0 < context.next_value(),
            forall|a: int| 0 <= a < s.operands@.len() ==> carried(context, &before, s.operands@[a], #[trigger] operands@[a], vin),
            operands@.len() == s.operands@.len(),
            forall|a: int| 0 <= a < s.attributes@.len() ==> attribute_carried(context, &before, s.attributes@[a], #[trigger] attributes@[a], bin),
            attributes@.len() == s.attributes@.len(),
            regions@.len() == nr,
            forall|a: int| 0 <= a < nr ==> region_copied(context, &before, src_regions@[a], #[trigger] regions@[a], d, start.next_block() as nat, vin, bin)
                && start.spec_region(regions@[a]) is None
                && context.spec_region(regions@[a]) is Some,
            clone_frame(context, &start),
            mapping_ok(mapping, context, &before, vin, bin),
        decreases src_results.len() - i,
    {
        let ghost pre = *context;
        proof {
            lemma_kept_trans(context, &start, &before);
        }
        let ty = context.get_value(src_results[i]).ty;
        let v = context.create_value(ty, None);
        proof {
            assert(persists(context, &pre));
            lemma_mapping_kept(mapping, &pre, context, &before, None, vin, bin);
            assert forall|a: int| 0 <= a < i implies fresh_copy(context, &before, s.results@[a], #[trigger] results@[a]) by {
                lemma_fresh_copy_kept(&pre, context, &before, s.results@[a], results@[a], None);
            }
            assert forall|a: int| 0 <= a < s.operands@.len() implies carried(context, &before, s.operands@[a], #[trigger] operands@[a], vin) by {
                lemma_carried_kept(&pre, context, &before, s.operands@[a], operands@[a], None, vin);
            }
            assert forall|a: int| 0 <= a < s.attributes@.len() implies attribute_carried(context, &before, s.attributes@[a], #[trigger] attributes@[a], bin) by {
                lemma_attribute_carried_kept(&pre, context, &before, s.attributes@[a], attributes@[a], None, bin);
            }
            assert(kept(context, &pre, None));
            assert forall|a: int| 0 <= a < nr implies region_copied(context, &before, src_regions@[a], #[trigger] regions@[a], d, start.next_block() as nat, vin, bin) by {
                lemma_region_copied_kept(&pre, context, &before, src_regions@[a], regions@[a], d, start.next_block() as nat, None, vin, bin);
            }
            assert(before.spec_value(v.id) is None);
            assert(fresh_copy(context, &before, s.results@[i as int], v.id));
            lemma_concat_within(s.results@, regions_values(&before, s.regions@, d), vin);
            assert(s.results@.contains(s.results@[i as int]));
            budget = (budget - 1) as nat;
        }
        let ghost m0 = *mapping;
        mapping.insert_value(src_results[i], v.id);
        results.push(v.id);
        proof {
            assert forall|key: u32| #[trigger] mapping.value_map().contains_key(key) implies fresh_copy(context, &before, ValueId(key), ValueId(mapping.value_map()[key])) && vin.contains(ValueId(key)) by {
                if key != src_results@[i as int].0 {
                    assert(m0.value_map().contains_key(key));
                }
            }
        }
        i = i + 1;
    }
    let roles = roles_for(table, &dialect, &name);
    let instance = OpInstance { id: OpId(0), dialect, name, operands, results, regions, attributes };
    let ghost pre_add = *context;
    let ghost inst = instance;
    let r = context.add_operation(instance, roles);
    proof {
        assert(persists(context, &pre_add));
        lemma_mapping_kept(mapping, &pre_add, context, &before, None, vin, bin);
        assert(kept(context, &pre_add, None));
        assert(before.spec_op(r) is None);
        let c = context.spec_op(r)->0;
        assert forall|a: int| 0 <= a < s.operands@.len() implies carried(context, &before, s.operands@[a], #[trigger] c.operands@[a], vin) by {
            lemma_carried_kept(&pre_add, context, &before, s.operands@[a], inst.operands@[a], None, vin);
        }
        assert forall|a: int| 0 <= a < s.results@.len() implies fresh_copy(context, &before, s.results@[a], #[trigger] c.results@[a]) by {
            lemma_fresh_copy_kept(&pre_add, context, &before, s.results@[a], inst.results@[a], None);
        }
        assert forall|a: int| 0 <= a < s.attributes@.len() implies attribute_carried(context, &before, s.attributes@[a], #[trigger] c.attributes@[a], bin) by {
            lemma_attribute_carried_kept(&pre_add, context, &before, s.attributes@[a], inst.attributes@[a], None, bin);
        }
        assert forall|a: int| 0 <= a < s.regions@.len() implies region_copied(context, &before, s.regions@[a], #[trigger] c.regions@[a], d, start.next_block() as nat, vin, bin) by {
            lemma_region_copied_kept(&pre_add, context, &before, src_regions@[a], inst.regions@[a], d, start.next_block() as nat, None, vin, bin);
        }
    }
    r
}

} // verus!

verus! {

/// A deep copy of `op` in no block: fresh regions, blocks, block arguments
/// and results, with the operands and branch targets that point inside the
/// copied subtree moved onto the copies and the rest kept. Copied ops take
/// the register roles `table` lists for them.
pub fn clone_op(context: &mut Context, op: OpId, table: &Vec<OpRoles>) -> (r: OpId)
    requires
        ids_below(old(context)),
        exists|d: nat| op_clonable(old(context), op, d) && #[trigger] room_for(old(context), op_cost(old(context), op, d)),
    ensures
        exists|d: nat| #[trigger] op_copied(final(context), old(context), op, r, d, old(context).next_block() as nat,
            op_values(old(context), op, d), op_blocks(old(context), op, d)),
        clone_frame(final(context), old(context)),
{
    let ghost before = *context;
    let ghost d = choose|d: nat| op_clonable(&before, op, d) && #[trigger] room_for(&before, op_cost(&before, op, d));
    let ghost vin = op_values(&before, op, d);
    let ghost bin = op_blocks(&before, op, d);
    let mut mapping = Mapping::new();
    proof {
        assert(mapping_ok(&mapping, context, &before, vin, bin));
    }
    let r = clone_op_into(context, op, &mut mapping, table, Ghost(before), Ghost(d), Ghost(vin), Ghost(bin));
    proof {
        assert(op_copied(context, &before, op, r, d, before.next_block() as nat, vin, bin));
    }
    r
}

/// A deep copy of `region` owned by no op, as [`clone_op`] copies an op's
/// regions.
pub fn clone_region(context: &mut Context, region: RegionId, table: &Vec<OpRoles>) -> (r: RegionId)
    requires
        ids_below(old(context)),
        exists|d: nat| region_clonable(old(context), region, d) && #[trigger] room_for(old(context), region_cost(old(context), region, d)),
    ensures
        exists|d: nat| #[trigger] region_copied(final(context), old(context), region, r, d, old(context).next_block() as nat,
            blocks_values(old(context), old(context).region_blocks(region), d), blocks_blocks(old(context), old(context).region_blocks(region), d)),
        final(context).spec_region(r) is Some && final(context).spec_region(r)->0.parent_op is None,
        clone_frame(final(context), old(context)),
{
    let ghost before = *context;
    let ghost d = choose|d: nat| region_clonable(&before, region, d) && #[trigger] room_for(&before, region_cost(&before, region, d));
    let ghost vin = blocks_values(&before, before.region_blocks(region), d);
    let ghost bin = blocks_blocks(&before, before.region_blocks(region), d);
    let mut mapping = Mapping::new();
    proof {
        assert(mapping_ok(&mapping, context, &before, vin, bin));
    }
    let r = clone_region_into(context, region, &mut mapping, table, Ghost(before), Ghost(d), Ghost(vin), Ghost(bin));
    proof {
        assert(region_copied(context, &before, region, r, d, before.next_block() as nat, vin, bin));
    }
    r
}

} // verus!

verus! {

/// A copy reads what its source reads wherever the source reads a value
/// defined outside the copied subtree.
pub proof fn law_outside_references_kept(a: &Context, b: &Context, src: OpId, copy: OpId, d: nat, lo: nat, vin: Seq<ValueId>, bin: Seq<BlockId>, i: int)
    requires
        op_copied(a, b, src, copy, d, lo, vin, bin),
        0 <= i < b.spec_op(src)->0.operands@.len(),
        !vin.contains(b.spec_op(src)->0.operands@[i]),
    ensures
        a.spec_op(copy)->0.operands@[i] == b.spec_op(src)->0.operands@[i],
{
    assert(carried(a, b, b.spec_op(src)->0.operands@[i], a.spec_op(copy)->0.operands@[i], vin));
}

} // verus!
