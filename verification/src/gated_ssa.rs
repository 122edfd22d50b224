//! Gated SSA: a value graph in which every value's producer is a node, and a
//! merge of values is a gate saying how it merges them.
//!
//! A block argument fed from a two-way branch becomes a γ gate (condition,
//! true input, false input); a loop header's argument a μ gate (initial
//! value, value latched on the back edge); a structured loop's result an η
//! gate over its carried value; any other merge stays an n-way φ. A value an
//! operation computes is that operation's node, whose inputs are its
//! operands; a value from outside is an input leaf.
//!
//! Nodes are materialized on first request, depth first, and a node is
//! recorded before its inputs are, so a back edge through a μ gate reaches
//! that μ instead of recursing forever.
use vstd::prelude::*;

use crate::ids::{copy_vec, BlockId, OpId, ValueId};

verus! {

/// A node of the gated SSA value graph. Each models the producer of one
/// value; its inputs are the node's out-edges.
#[derive(Clone, Copy, Debug, PartialEq, Eq, Hash, Structural)]
pub enum GateNode {
    /// A value computed by an operation. Edges go to the producers of the
    /// operation's operands, in operand order.
    Op(OpId),
    /// A value entering the region from outside. A leaf.
    Input(ValueId),
    /// γ gate replacing a two-way merge. Edges are `[condition, true_input,
    /// false_input]`.
    Gamma { value: ValueId, cond: ValueId },
    /// μ gate replacing a loop-header merge. Edges are `[init, latch]`.
    Mu { value: ValueId },
    /// η gate for a value leaving a structured loop: one edge, to the μ of
    /// the carried value.
    Eta { value: ValueId },
    /// An n-way merge that could not be reduced to a γ or μ gate. Edges are
    /// the incoming values in predecessor order.
    Phi { value: ValueId },
}

/// What produces one value: a gate over its inputs, or an operation over
/// its operands. A value with no producer is an input.
#[derive(Debug, Clone, PartialEq, Eq)]
pub enum Producer {
    Gate(GateNode, Vec<ValueId>),
    Op(OpId, Vec<ValueId>),
}

/// A producer as a mathematical value.
pub enum ProducerView {
    Gate(GateNode, Seq<ValueId>),
    Op(OpId, Seq<ValueId>),
}

pub open spec fn producer_view(p: Option<Producer>) -> Option<ProducerView> {
    match p {
        Some(Producer::Gate(g, ins)) => Some(ProducerView::Gate(g, ins@)),
        Some(Producer::Op(op, operands)) => Some(ProducerView::Op(op, operands@)),
        None => None,
    }
}

/// A producer table as mathematical values.
pub open spec fn pviews(producers: Seq<Option<Producer>>) -> Seq<Option<ProducerView>> {
    producers.map_values(|p: Option<Producer>| producer_view(p))
}

/// The producer recorded for value number `w`, if any.
pub open spec fn producer_of(producers: Seq<Option<ProducerView>>, w: int) -> Option<ProducerView> {
    if 0 <= w < producers.len() {
        producers[w]
    } else {
        None
    }
}

/// The node that models the producer of value number `w`.
pub open spec fn gate_for(producers: Seq<Option<ProducerView>>, w: int) -> GateNode {
    match producer_of(producers, w) {
        Some(ProducerView::Gate(g, _)) => g,
        Some(ProducerView::Op(op, _)) => GateNode::Op(op),
        None => GateNode::Input(ValueId(w as u32)),
    }
}

/// The values feeding value number `w`'s node, in edge order.
pub open spec fn inputs_for(producers: Seq<Option<ProducerView>>, w: int) -> Seq<ValueId> {
    match producer_of(producers, w) {
        Some(ProducerView::Gate(_, ins)) => ins,
        Some(ProducerView::Op(_, operands)) => operands,
        None => Seq::empty(),
    }
}

/// Inputs recorded for value number `w`: only gates have them.
pub open spec fn gate_inputs_for(producers: Seq<Option<ProducerView>>, w: int) -> Option<Seq<ValueId>> {
    match producer_of(producers, w) {
        Some(ProducerView::Gate(_, ins)) => Some(ins),
        _ => None,
    }
}

/// The value a node stands for: none for an operation node (an operation
/// may have several results), else the value it carries.
pub open spec fn gate_value(g: GateNode) -> Option<ValueId> {
    match g {
        GateNode::Op(_) => None,
        GateNode::Input(v) => Some(v),
        GateNode::Gamma { value, .. } => Some(value),
        GateNode::Mu { value } => Some(value),
        GateNode::Eta { value } => Some(value),
        GateNode::Phi { value } => Some(value),
    }
}

/// Each gate recorded for value number `w` carries the value `w` itself.
pub open spec fn gates_name_their_values(producers: Seq<Option<ProducerView>>) -> bool {
    forall|w: int| 0 <= w < producers.len() ==> match #[trigger] producers[w] {
        Some(ProducerView::Gate(g, _)) => gate_value(g) is None || gate_value(g) == Some(ValueId(w as u32)),
        _ => true,
    }
}

/// Every value a producer names is below `count`.
pub open spec fn producers_closed(producers: Seq<Option<ProducerView>>, count: nat) -> bool {
    &&& producers.len() == count
    &&& count <= u32::MAX + 1
    &&& forall|w: int, i: int| 0 <= w < count && 0 <= i < inputs_for(producers, w).len() ==> (#[trigger] inputs_for(producers, w)[i]).0 < count
}

/// Gated SSA for a set of values: the nodes, their out-edges, the node of
/// each value (by value number), and the inputs of each gate.
pub struct GSA {
    nodes: Vec<GateNode>,
    children: Vec<Vec<usize>>,
    owner: Vec<ValueId>,
    memo: Vec<Option<usize>>,
    gate_inputs: Vec<Option<Vec<ValueId>>>,
}

impl GSA {
    pub closed spec fn shape(&self) -> bool {
        &&& self.nodes@.len() == self.children@.len()
        &&& self.nodes@.len() == self.owner@.len()
        &&& self.memo@.len() == self.gate_inputs@.len()
    }

    pub closed spec fn spec_nodes(&self) -> Seq<GateNode> {
        self.nodes@
    }

    pub closed spec fn spec_children(&self, n: int) -> Seq<usize> {
        self.children@[n]@
    }

    /// The node of value number `w`, if it is part of the form.
    pub closed spec fn spec_node_of(&self, w: int) -> Option<usize> {
        if 0 <= w < self.memo@.len() {
            self.memo@[w]
        } else {
            None
        }
    }

    pub closed spec fn spec_inputs_of(&self, w: int) -> Option<Seq<ValueId>> {
        if 0 <= w < self.gate_inputs@.len() {
            match self.gate_inputs@[w] {
                Some(v) => Some(v@),
                None => None,
            }
        } else {
            None
        }
    }

    /// The value number node `n` was made for.
    pub closed spec fn spec_owner(&self, n: int) -> int {
        self.owner@[n].0 as int
    }

    pub closed spec fn value_count(&self) -> nat {
        self.memo@.len()
    }

    /// The bookkeeping agrees with itself: each node belongs to one value
    /// and each materialized value to one node.
    pub closed spec fn consistent(&self, producers: Seq<Option<ProducerView>>) -> bool {
        &&& self.shape()
        &&& self.memo@.len() == producers.len()
        &&& self.gate_inputs@.len() == producers.len()
        &&& self.nodes@.len() == self.children@.len()
        &&& self.nodes@.len() == self.owner@.len()
        &&& forall|w: int| 0 <= w < self.memo@.len() && (#[trigger] self.memo@[w]) is Some ==> {
            let n = self.memo@[w]->0 as int;
            &&& 0 <= n < self.nodes@.len()
            &&& self.owner@[n].0 == w
        }
        &&& forall|n: int| 0 <= n < self.nodes@.len() ==> {
            let w = (#[trigger] self.owner@[n]).0 as int;
            &&& 0 <= w < self.memo@.len()
            &&& self.memo@[w] == Some(n as usize)
            &&& self.nodes@[n] == gate_for(producers, w)
            &&& self.spec_inputs_of(w) == gate_inputs_for(producers, w)
        }
        &&& forall|w: int| 0 <= w < self.memo@.len() && (#[trigger] self.gate_inputs@[w]) is Some ==> self.memo@[w] is Some
    }

    /// Node `n`'s edges go to the nodes of its value's inputs, in order.
    pub closed spec fn complete(&self, producers: Seq<Option<ProducerView>>, n: int) -> bool {
        let ins = inputs_for(producers, self.spec_owner(n));
        &&& self.children@[n]@.len() == ins.len()
        &&& forall|i: int| 0 <= i < ins.len() ==> self.spec_node_of(#[trigger] ins[i].0 as int) == Some(self.children@[n]@[i])
    }

    /// The form is exactly what `producers` describe for every value it
    /// holds.
    pub open spec fn models(&self, producers: Seq<Option<ProducerView>>) -> bool {
        &&& self.shape()
        &&& self.consistent(producers)
        &&& forall|n: int| 0 <= n < self.spec_nodes().len() ==> #[trigger] self.complete(producers, n)
    }

    /// The number of nodes.
    pub fn len(&self) -> (r: usize)
        ensures
            r == self.spec_nodes().len(),
    {
        self.nodes.len()
    }

    /// The node producing `value`, if it is part of the form.
    pub fn node_of(&self, value: ValueId) -> (r: Option<usize>)
        ensures
            r == self.spec_node_of(value.0 as int),
    {
        let w = value.0 as usize;
        if w < self.memo.len() {
            self.memo[w]
        } else {
            None
        }
    }

    /// Node stored at gate index `id`.
    pub fn gate(&self, id: usize) -> (r: &GateNode)
        requires
            id < self.spec_nodes().len(),
        ensures
            *r == self.spec_nodes()[id as int],
    {
        &self.nodes[id]
    }

    /// The nodes `id`'s edges go to, in edge order.
    pub fn children(&self, id: usize) -> (r: &[usize])
        requires
            self.shape(),
            id < self.spec_nodes().len(),
        ensures
            r@ == self.spec_children(id as int),
    {
        self.children[id].as_slice()
    }

    /// The value produced by `id`, or `None` for an operation node (an
    /// operation may have several results, so no single value identifies
    /// it).
    pub fn value_of(&self, id: usize) -> (r: Option<ValueId>)
        requires
            id < self.spec_nodes().len(),
        ensures
            r == gate_value(self.spec_nodes()[id as int]),
    {
        match &self.nodes[id] {
            GateNode::Op(_) => None,
            GateNode::Input(v) => Some(*v),
            GateNode::Gamma { value, .. } => Some(*value),
            GateNode::Mu { value } => Some(*value),
            GateNode::Eta { value } => Some(*value),
            GateNode::Phi { value } => Some(*value),
        }
    }

    /// In a form that models `producers` whose gates carry their own
    /// values, the value of any node that has one leads back to that node.
    pub proof fn law_value_of_leads_back(&self, producers: Seq<Option<ProducerView>>, id: int)
        requires
            self.models(producers),
            gates_name_their_values(producers),
            producers.len() <= u32::MAX + 1,
            0 <= id < self.spec_nodes().len(),
        ensures
            gate_value(self.spec_nodes()[id]) matches Some(v) ==> self.spec_node_of(v.0 as int) == Some(id as usize),
    {
        let w = self.owner@[id].0 as int;
        assert(self.memo@[w] == Some(id as usize));
        assert(self.nodes@[id] == gate_for(producers, w));
        assert((w as u32) as int == w);
        match producers[w] {
            Some(ProducerView::Gate(g, _)) => {},
            _ => {},
        }
    }

    /// The operation referenced by `id`, if it is an operation node.
    pub fn op_of(&self, id: usize) -> (r: Option<OpId>)
        requires
            id < self.spec_nodes().len(),
        ensures
            r == match self.spec_nodes()[id as int] {
                GateNode::Op(op) => Some(op),
                _ => None,
            },
    {
        match &self.nodes[id] {
            GateNode::Op(op) => Some(*op),
            _ => None,
        }
    }

    /// IR values feeding `value`'s gate, in edge order.
    pub fn inputs_of(&self, value: ValueId) -> (r: Option<&[ValueId]>)
        ensures
            match self.spec_inputs_of(value.0 as int) {
                Some(ins) => r matches Some(s) && s@ == ins,
                None => r is None,
            },
    {
        let w = value.0 as usize;
        if w < self.gate_inputs.len() {
            match &self.gate_inputs[w] {
                Some(v) => Some(v.as_slice()),
                None => None,
            }
        } else {
            None
        }
    }
}

/// The number of values not yet given a node.
pub open spec fn count_none(memo: Seq<Option<usize>>) -> nat
    decreases memo.len(),
{
    if memo.len() == 0 {
        0
    } else {
        count_none(memo.drop_last()) + if memo.last() is None { 1nat } else { 0nat }
    }
}

/// Giving more values a node never leaves more without one; giving one that
/// had none a node leaves fewer.
proof fn lemma_count_none(a: Seq<Option<usize>>, b: Seq<Option<usize>>, w: int)
    requires
        a.len() == b.len(),
        forall|i: int| 0 <= i < a.len() && (#[trigger] a[i]) is Some ==> b[i] is Some,
    ensures
        count_none(b) <= count_none(a),
        0 <= w < a.len() && a[w] is None && b[w] is Some ==> count_none(b) < count_none(a),
    decreases a.len(),
{
    if a.len() > 0 {
        let (a0, b0) = (a.drop_last(), b.drop_last());
        assert forall|i: int| 0 <= i < a0.len() && (#[trigger] a0[i]) is Some implies b0[i] is Some by {
            assert(a0[i] == a[i] && b0[i] == b[i]);
        }
        lemma_count_none(a0, b0, w);
        if w < a.len() - 1 && 0 <= w {
            assert(a0[w] == a[w] && b0[w] == b[w]);
        }
    }
}

impl GSA {
    /// An empty form over `count` values.
    fn empty(count: usize) -> (r: GSA)
        ensures
            r.memo@ == Seq::new(count as nat, |i: int| None::<usize>),
            r.gate_inputs@.len() == count,
            forall|w: int| 0 <= w < count ==> (#[trigger] r.gate_inputs@[w]) is None,
            r.nodes@.len() == 0,
            r.children@.len() == 0,
            r.owner@.len() == 0,
    {
        let mut memo: Vec<Option<usize>> = Vec::new();
        let mut gate_inputs: Vec<Option<Vec<ValueId>>> = Vec::new();
        let mut k: usize = 0;
        while k < count
            invariant
                k <= count,
                memo@ == Seq::new(k as nat, |i: int| None::<usize>),
                gate_inputs@.len() == k,
                forall|w: int| 0 <= w < k ==> (#[trigger] gate_inputs@[w]) is None,
            decreases count - k,
        {
            memo.push(None);
            gate_inputs.push(None);
            assert(memo@ =~= Seq::new((k + 1) as nat, |i: int| None::<usize>));
            k = k + 1;
        }
        GSA { nodes: Vec::new(), children: Vec::new(), owner: Vec::new(), memo, gate_inputs }
    }

    /// The node producing `value`, materializing it (and, transitively, its
    /// inputs) on first request. The node is recorded before its edges are
    /// added, so a back edge resolves to it.
    fn node_for_value(&mut self, value: ValueId, producers: &Vec<Option<Producer>>) -> (r: usize)
        requires
            producers_closed(pviews(producers@), old(self).memo@.len()),
            (value.0 as int) < old(self).memo@.len(),
            old(self).consistent(pviews(producers@)),
        ensures
            final(self).consistent(pviews(producers@)),
            final(self).memo@.len() == old(self).memo@.len(),
            final(self).nodes@.len() >= old(self).nodes@.len(),
            forall|m: int| 0 <= m < old(self).nodes@.len() ==> #[trigger] final(self).nodes@[m] == old(self).nodes@[m],
            forall|m: int| 0 <= m < old(self).nodes@.len() ==> #[trigger] final(self).children@[m] == old(self).children@[m],
            forall|m: int| 0 <= m < old(self).nodes@.len() ==> #[trigger] final(self).owner@[m] == old(self).owner@[m],
            forall|w: int| 0 <= w < old(self).memo@.len() && (#[trigger] old(self).memo@[w]) is Some ==> final(self).memo@[w] == old(self).memo@[w],
            forall|m: int| old(self).nodes@.len() <= m < final(self).nodes@.len() ==> #[trigger] final(self).complete(pviews(producers@), m),
            final(self).memo@[value.0 as int] == Some(r),
        decreases count_none(old(self).memo@),
    {
        let w = value.0 as usize;
        if let Some(n) = self.memo[w] {
            return n;
        }
        let ghost old_memo = self.memo@;
        let ghost old_nodes = self.nodes@;
        let ghost old_children = self.children@;
        let ghost old_owner = self.owner@;
        let n = self.nodes.len();
        let inputs: Vec<ValueId> = match &producers[w] {
            Some(Producer::Gate(g, ins)) => {
                self.nodes.push(*g);
                self.gate_inputs.set(w, Some(copy_vec(ins)));
                copy_vec(ins)
            },
            Some(Producer::Op(op, operands)) => {
                self.nodes.push(GateNode::Op(*op));
                copy_vec(operands)
            },
            None => {
                self.nodes.push(GateNode::Input(value));
                Vec::new()
            },
        };
        self.children.push(Vec::new());
        self.owner.push(value);
        self.memo.set(w, Some(n));
        proof {
            lemma_count_none(old_memo, self.memo@, w as int);
            assert forall|m: int| 0 <= m < self.nodes@.len() implies {
                let v = (#[trigger] self.owner@[m]).0 as int;
                &&& 0 <= v < self.memo@.len()
                &&& self.memo@[v] == Some(m as usize)
                &&& self.nodes@[m] == gate_for(pviews(producers@), v)
                &&& self.spec_inputs_of(v) == gate_inputs_for(pviews(producers@), v)
            } by {
                if m < n {
                    assert(self.owner@[m] == old_owner[m]);
                    assert(self.nodes@[m] == old_nodes[m]);
                }
            }
        }
        let mut i: usize = 0;
        while i < inputs.len()
            invariant
                producers_closed(pviews(producers@), self.memo@.len()),
                self.consistent(pviews(producers@)),
                inputs@ == inputs_for(pviews(producers@), w as int),
                w < self.memo@.len(),
                w == value.0,
                n < self.nodes@.len(),
                n == old_nodes.len(),
                self.owner@[n as int] == value,
                self.memo@[w as int] == Some(n),
                self.memo@.len() == old_memo.len(),
                count_none(self.memo@) < count_none(old_memo),
                old_memo == old(self).memo@,
                old_nodes == old(self).nodes@,
                old_children == old(self).children@,
                old_owner == old(self).owner@,
                forall|m: int| 0 <= m < n ==> #[trigger] self.nodes@[m] == old_nodes[m],
                forall|m: int| 0 <= m < n ==> #[trigger] self.children@[m] == old_children[m],
                forall|m: int| 0 <= m < n ==> #[trigger] self.owner@[m] == old_owner[m],
                forall|v: int| 0 <= v < old_memo.len() && (#[trigger] old_memo[v]) is Some ==> self.memo@[v] == old_memo[v],
                self.children@[n as int]@.len() == i,
                i <= inputs@.len(),
                forall|j: int| 0 <= j < i ==> self.spec_node_of(#[trigger] inputs@[j].0 as int) == Some(self.children@[n as int]@[j]),
                forall|m: int| n < m < self.nodes@.len() ==> #[trigger] self.complete(pviews(producers@), m),
            decreases inputs.len() - i,
        {
            let input = inputs[i];
            proof {
                assert(inputs_for(pviews(producers@), w as int)[i as int] == input);
            }
            let ghost before: GSA = *self;
            let ghost before_memo = self.memo@;
            let ghost before_nodes = self.nodes@;
            let ghost before_children = self.children@;
            let ghost before_owner = self.owner@;
            let child = self.node_for_value(input, producers);
            proof {
                lemma_count_none(old_memo, self.memo@, -1);
                lemma_count_none(before_memo, self.memo@, -1);
            }
            let ghost mid: GSA = *self;
            let ghost mid_children = self.children@;
            self.children[n].push(child);
            proof {
                assert forall|m: int| 0 <= m < self.nodes@.len() && m != n implies self.children@[m] == mid_children[m] by {}
                assert forall|j: int| 0 <= j < i + 1 implies self.spec_node_of(#[trigger] inputs@[j].0 as int) == Some(self.children@[n as int]@[j]) by {
                    if j < i {
                        assert(before_memo[inputs@[j].0 as int] is Some);
                    }
                }
                assert forall|m: int| n < m < self.nodes@.len() implies #[trigger] self.complete(pviews(producers@), m) by {
                    if m >= before_nodes.len() {
                        assert(mid.complete(pviews(producers@), m));
                        assert(self.children@[m] == mid.children@[m]);
                        assert(self.owner@[m] == mid.owner@[m]);
                        assert(self.memo@ == mid.memo@);
                    } else {
                        let ins = inputs_for(pviews(producers@), self.spec_owner(m));
                        assert(self.children@[m] == before_children[m]);
                        assert(self.owner@[m] == before_owner[m]);
                        assert(before.complete(pviews(producers@), m));
                        assert(before.spec_owner(m) == self.spec_owner(m));
                        assert forall|k: int| 0 <= k < ins.len() implies self.spec_node_of(#[trigger] ins[k].0 as int) == Some(self.children@[m]@[k]) by {
                            assert(before.spec_node_of(ins[k].0 as int) == Some(before.children@[m]@[k]));
                            assert(before_memo[ins[k].0 as int] is Some);
                        }
                    }
                }
                assert forall|m: int| 0 <= m < n implies #[trigger] self.nodes@[m] == old_nodes[m] by {
                    assert(before_nodes[m] == old_nodes[m]);
                }
                assert forall|m: int| 0 <= m < n implies #[trigger] self.children@[m] == old_children[m] by {
                    assert(before_children[m] == old_children[m]);
                    assert(mid_children[m] == before_children[m]);
                }
                assert forall|m: int| 0 <= m < n implies #[trigger] self.owner@[m] == old_owner[m] by {
                    assert(before_owner[m] == old_owner[m]);
                }
            }
            i = i + 1;
        }
        proof {
            assert(self.complete(pviews(producers@), n as int));
            assert forall|m: int| old_nodes.len() <= m < self.nodes@.len() implies #[trigger] self.complete(pviews(producers@), m) by {
                if m == n {
                }
            }

        }
        n
    }
}

/// Build the gated SSA form of `roots` (and, transitively, everything they
/// depend on) from what produces each value, materializing the roots in
/// order.
pub fn build(producers: &Vec<Option<Producer>>, roots: &[ValueId]) -> (r: GSA)
    requires
        producers_closed(pviews(producers@), producers@.len()),
        forall|i: int| 0 <= i < roots@.len() ==> (#[trigger] roots@[i]).0 < producers@.len(),
    ensures
        r.models(pviews(producers@)),
        r.value_count() == producers@.len(),
        forall|i: int| 0 <= i < roots@.len() ==> r.spec_node_of((#[trigger] roots@[i]).0 as int) is Some,
{
    let mut gsa = GSA::empty(producers.len());
    proof {
        assert(gsa.consistent(pviews(producers@)));
    }
    let mut i: usize = 0;
    while i < roots.len()
        invariant
            producers_closed(pviews(producers@), producers@.len()),
            forall|j: int| 0 <= j < roots@.len() ==> (#[trigger] roots@[j]).0 < producers@.len(),
            i <= roots@.len(),
            gsa.memo@.len() == producers@.len(),
            gsa.consistent(pviews(producers@)),
            forall|m: int| 0 <= m < gsa.nodes@.len() ==> #[trigger] gsa.complete(pviews(producers@), m),
            forall|j: int| 0 <= j < i ==> gsa.spec_node_of((#[trigger] roots@[j]).0 as int) is Some,
        decreases roots.len() - i,
    {
        let ghost before: GSA = gsa;
        let root = roots[i];
        proof {
            assert(root.0 < producers@.len());
        }
        gsa.node_for_value(root, producers);
        proof {
            assert forall|m: int| 0 <= m < gsa.nodes@.len() implies #[trigger] gsa.complete(pviews(producers@), m) by {
                if m < before.nodes@.len() {
                    assert(before.complete(pviews(producers@), m));
                    let ins = inputs_for(pviews(producers@), gsa.spec_owner(m));
                    assert(gsa.children@[m] == before.children@[m]);
                    assert(gsa.owner@[m] == before.owner@[m]);
                    assert forall|k: int| 0 <= k < ins.len() implies gsa.spec_node_of(#[trigger] ins[k].0 as int) == Some(gsa.children@[m]@[k]) by {
                        assert(before.spec_node_of(ins[k].0 as int) == Some(before.children@[m]@[k]));
                        assert(before.memo@[ins[k].0 as int] is Some);
                    }
                }
            }
            assert forall|j: int| 0 <= j < i + 1 implies gsa.spec_node_of((#[trigger] roots@[j]).0 as int) is Some by {
                if j < i {
                    assert(before.spec_node_of(roots@[j].0 as int) is Some);
                    assert(before.memo@[roots@[j].0 as int] is Some);
                }
            }
        }
        i = i + 1;
    }
    gsa
}

/// A branch's guarded successor: entered when `cond` is `when_true`.
#[derive(Clone, Copy, Debug, PartialEq, Eq, Structural)]
pub struct Guarded {
    pub succ: BlockId,
    pub cond: ValueId,
    pub when_true: bool,
}

/// One incoming control-flow edge of a block: the predecessor and the values
/// it forwards to the block's arguments, in argument order.
#[derive(Debug, Clone, PartialEq, Eq)]
pub struct Edge {
    pub pred: BlockId,
    pub args: Vec<ValueId>,
}

/// The dominator tree of a region's blocks: each block's immediate
/// dominator, by block number.
pub struct DominatorTree {
    pub idom: Vec<Option<BlockId>>,
}

/// Whether `a` is among the first `fuel + 1` blocks of `cur`'s dominator
/// chain (`cur` itself, its immediate dominator, and so on).
pub open spec fn on_dom_chain(idom: Seq<Option<BlockId>>, a: BlockId, cur: BlockId, fuel: nat) -> bool
    decreases fuel,
{
    if cur == a {
        true
    } else if fuel == 0 || cur.0 >= idom.len() {
        false
    } else {
        match idom[cur.0 as int] {
            Some(p) => on_dom_chain(idom, a, p, (fuel - 1) as nat),
            None => false,
        }
    }
}

/// `a` dominates `b`: it is on `b`'s dominator chain (which visits each
/// block at most once, so its length is bounded by the block count).
pub open spec fn spec_dominates(idom: Seq<Option<BlockId>>, a: BlockId, b: BlockId) -> bool {
    on_dom_chain(idom, a, b, idom.len())
}

impl DominatorTree {
    pub fn dominates(&self, a: BlockId, b: BlockId) -> (r: bool)
        ensures
            r == spec_dominates(self.idom@, a, b),
    {
        let mut cur = b;
        let mut fuel: usize = self.idom.len();
        while cur != a
            invariant
                fuel <= self.idom@.len(),
                on_dom_chain(self.idom@, a, cur, fuel as nat) == spec_dominates(self.idom@, a, b),
            decreases fuel,
        {
            if fuel == 0 || cur.0 as usize >= self.idom.len() {
                return false;
            }
            match self.idom[cur.0 as usize] {
                Some(p) => {
                    cur = p;
                    fuel = fuel - 1;
                },
                None => {
                    return false;
                },
            }
        }
        true
    }

    pub open spec fn spec_idom(&self, b: BlockId) -> Option<BlockId> {
        if b.0 < self.idom@.len() {
            self.idom@[b.0 as int]
        } else {
            None
        }
    }

    pub fn idom(&self, b: BlockId) -> (r: Option<BlockId>)
        ensures
            r == self.spec_idom(b),
    {
        if (b.0 as usize) < self.idom.len() {
            self.idom[b.0 as usize]
        } else {
            None
        }
    }
}

/// The `(predecessor, forwarded value)` pairs feeding argument `index` of a
/// block with incoming edges `edges` (each a predecessor and the values it
/// forwards).
pub open spec fn spec_incoming(edges: Seq<(BlockId, Seq<ValueId>)>, index: usize) -> Seq<(BlockId, ValueId)>
    decreases edges.len(),
{
    if edges.len() == 0 {
        Seq::empty()
    } else {
        let prefix = spec_incoming(edges.drop_last(), index);
        let e = edges.last();
        if (index as int) < e.1.len() {
            prefix.push((e.0, e.1[index as int]))
        } else {
            prefix
        }
    }
}

/// The incoming edges as mathematical values.
pub open spec fn edge_views(edges: Seq<Edge>) -> Seq<(BlockId, Seq<ValueId>)> {
    edges.map_values(|e: Edge| edge_view(e))
}

pub fn incoming(edges: &Vec<Edge>, index: usize) -> (r: Vec<(BlockId, ValueId)>)
    ensures
        r@ == spec_incoming(edge_views(edges@), index),
{
    let mut out: Vec<(BlockId, ValueId)> = Vec::new();
    let mut k: usize = 0;
    while k < edges.len()
        invariant
            k <= edges@.len(),
            out@ == spec_incoming(edge_views(edges@.subrange(0, k as int)), index),
        decreases edges.len() - k,
    {
        proof {
            assert(edge_views(edges@.subrange(0, k + 1)).drop_last() =~= edge_views(edges@.subrange(0, k as int)));
        }
        if index < edges[k].args.len() {
            out.push((edges[k].pred, edges[k].args[index]));
        }
        k = k + 1;
    }
    assert(edges@.subrange(0, edges@.len() as int) =~= edges@);
    out
}

/// The μ inputs `[init, latch]` of a loop header's merge: exactly one edge
/// comes from a block the header dominates (the back edge) and exactly one
/// does not.
pub open spec fn mu_fold(idom: Seq<Option<BlockId>>, block: BlockId, incoming: Seq<(BlockId, ValueId)>) -> Option<(Option<ValueId>, Option<ValueId>)>
    decreases incoming.len(),
{
    if incoming.len() == 0 {
        Some((None, None))
    } else {
        match mu_fold(idom, block, incoming.drop_last()) {
            None => None,
            Some((init, latch)) => {
                let (pred, v) = incoming.last();
                if spec_dominates(idom, block, pred) {
                    if latch is Some { None } else { Some((init, Some(v))) }
                } else {
                    if init is Some { None } else { Some((Some(v), latch)) }
                }
            },
        }
    }
}

pub open spec fn spec_mu_gate(idom: Seq<Option<BlockId>>, block: BlockId, value: ValueId, incoming: Seq<(BlockId, ValueId)>) -> Option<(GateNode, Seq<ValueId>)> {
    match mu_fold(idom, block, incoming) {
        Some((Some(init), Some(latch))) => Some((GateNode::Mu { value }, seq![init, latch])),
        _ => None,
    }
}

pub fn mu_gate(dom: &DominatorTree, block: BlockId, value: ValueId, incoming: &Vec<(BlockId, ValueId)>) -> (r: Option<(GateNode, Vec<ValueId>)>)
    ensures
        match spec_mu_gate(dom.idom@, block, value, incoming@) {
            Some((g, ins)) => r matches Some(x) && x.0 == g && x.1@ == ins,
            None => r is None,
        },
{
    let mut init: Option<ValueId> = None;
    let mut latch: Option<ValueId> = None;
    let mut k: usize = 0;
    while k < incoming.len()
        invariant
            k <= incoming@.len(),
            mu_fold(dom.idom@, block, incoming@.subrange(0, k as int)) == Some((init, latch)),
        decreases incoming.len() - k,
    {
        proof {
            assert(incoming@.subrange(0, k + 1).drop_last() =~= incoming@.subrange(0, k as int));
            lemma_mu_fold_none(dom.idom@, block, incoming@, k + 1);
        }
        let (pred, v) = incoming[k];
        if dom.dominates(block, pred) {
            if latch.is_some() {
                return None;
            }
            latch = Some(v);
        } else {
            if init.is_some() {
                return None;
            }
            init = Some(v);
        }
        k = k + 1;
    }
    assert(incoming@.subrange(0, incoming@.len() as int) =~= incoming@);
    match (init, latch) {
        (Some(i), Some(l)) => {
            let mut ins: Vec<ValueId> = Vec::new();
            ins.push(i);
            ins.push(l);
            Some((GateNode::Mu { value }, ins))
        },
        _ => None,
    }
}

/// Once a prefix fails, the whole fold fails.
proof fn lemma_mu_fold_none(idom: Seq<Option<BlockId>>, block: BlockId, incoming: Seq<(BlockId, ValueId)>, j: int)
    requires
        0 <= j <= incoming.len(),
    ensures
        mu_fold(idom, block, incoming.subrange(0, j)) is None ==> mu_fold(idom, block, incoming) is None,
    decreases incoming.len() - j,
{
    if j < incoming.len() {
        assert(incoming.subrange(0, j + 1).drop_last() =~= incoming.subrange(0, j));
        lemma_mu_fold_none(idom, block, incoming, j + 1);
    } else {
        assert(incoming.subrange(0, j) =~= incoming);
    }
}

/// The successors a branch forwards values to, each with the values it
/// forwards in argument order.
#[derive(Debug, Clone, PartialEq, Eq)]
pub struct SuccessorArgs {
    pub succ: BlockId,
    pub args: Vec<ValueId>,
}

/// A region of a structured conditional: the values it yields, and whether
/// it is taken when the decision is true.
#[derive(Debug, Clone, PartialEq, Eq)]
pub struct GuardedRegion {
    pub yields: Vec<ValueId>,
    pub when_true: bool,
}

/// A structured conditional: its decision value and its guarded regions.
#[derive(Debug, Clone, PartialEq, Eq)]
pub struct ConditionalInfo {
    pub decision: ValueId,
    pub regions: Vec<GuardedRegion>,
}

/// A structured loop: its carried region arguments, their initial values
/// and the values latched on the back edge, port by port, and whether its
/// body can leave other than through the back edge.
#[derive(Debug, Clone, PartialEq, Eq)]
pub struct LoopInfo {
    pub carried: Vec<ValueId>,
    pub inits: Vec<ValueId>,
    pub latched: Vec<ValueId>,
    pub leaves_early: bool,
}

#[derive(Debug, Clone, PartialEq, Eq)]
pub enum Structured {
    Plain,
    Conditional(ConditionalInfo),
    Loop(LoopInfo),
}

/// What gated SSA reads of an operation: its operands and results, the
/// entry block of each of its regions, and the interfaces it carries.
#[derive(Debug, Clone, PartialEq, Eq)]
pub struct CfgOp {
    pub id: OpId,
    pub operands: Vec<ValueId>,
    pub results: Vec<ValueId>,
    /// The first block of each of its regions (`None` for an empty region).
    pub region_entries: Vec<Option<BlockId>>,
    /// As a terminator: the blocks control may go to.
    pub successors: Option<Vec<BlockId>>,
    /// As a branch: the values it forwards to each successor.
    pub branch: Option<Vec<SuccessorArgs>>,
    /// As a guarded branch: its successors with the conditions taking them.
    pub guarded: Option<Vec<Guarded>>,
    pub structured: Structured,
}

#[derive(Debug, Clone, PartialEq, Eq)]
pub struct CfgBlock {
    pub arguments: Vec<ValueId>,
    pub ops: Vec<CfgOp>,
}

/// The blocks of a function, by block number.
pub struct Cfg {
    pub blocks: Vec<CfgBlock>,
}

/// The guarded successors of the terminator of block `b`, if it has one
/// that is a guarded branch.
pub open spec fn terminator_guards(cfg: &Cfg, b: BlockId) -> Option<Seq<Guarded>> {
    if b.0 < cfg.blocks@.len() && cfg.blocks@[b.0 as int].ops@.len() > 0 {
        match cfg.blocks@[b.0 as int].ops@.last().guarded {
            Some(g) => Some(g@),
            None => None,
        }
    } else {
        None
    }
}

/// The first guarded successor that dominates `pred`.
pub open spec fn first_guard(idom: Seq<Option<BlockId>>, guards: Seq<Guarded>, pred: BlockId) -> Option<Guarded>
    decreases guards.len(),
{
    if guards.len() == 0 {
        None
    } else if spec_dominates(idom, guards[0].succ, pred) {
        Some(guards[0])
    } else {
        first_guard(idom, guards.drop_first(), pred)
    }
}

/// Reading the incoming edges against the guards: the condition of the last
/// edge reached through a guard, and the first value reached through a true
/// and through a false successor.
pub open spec fn gamma_fold(idom: Seq<Option<BlockId>>, guards: Seq<Guarded>, incoming: Seq<(BlockId, ValueId)>) -> (Option<ValueId>, Option<ValueId>, Option<ValueId>)
    decreases incoming.len(),
{
    if incoming.len() == 0 {
        (None, None, None)
    } else {
        let (cond, t, f) = gamma_fold(idom, guards, incoming.drop_last());
        let (pred, v) = incoming.last();
        match first_guard(idom, guards, pred) {
            None => (cond, t, f),
            Some(g) => if g.when_true {
                (Some(g.cond), if t is Some { t } else { Some(v) }, f)
            } else {
                (Some(g.cond), t, if f is Some { f } else { Some(v) })
            },
        }
    }
}

pub open spec fn spec_gamma_gate(cfg: &Cfg, dom: &DominatorTree, block: BlockId, value: ValueId, incoming: Seq<(BlockId, ValueId)>) -> Option<(GateNode, Seq<ValueId>)> {
    if incoming.len() != 2 {
        None
    } else {
        match dom.spec_idom(block) {
            None => None,
            Some(d) => match terminator_guards(cfg, d) {
                None => None,
                Some(guards) => match gamma_fold(dom.idom@, guards, incoming) {
                    (Some(c), Some(t), Some(f)) => Some((GateNode::Gamma { value, cond: c }, seq![c, t, f])),
                    _ => None,
                },
            },
        }
    }
}

fn first_guard_exec(dom: &DominatorTree, guards: &Vec<Guarded>, pred: BlockId) -> (r: Option<Guarded>)
    ensures
        r == first_guard(dom.idom@, guards@, pred),
{
    let mut k: usize = 0;
    assert(guards@.subrange(0, guards@.len() as int) =~= guards@);
    while k < guards.len()
        invariant
            k <= guards@.len(),
            first_guard(dom.idom@, guards@, pred) == first_guard(dom.idom@, guards@.subrange(k as int, guards@.len() as int), pred),
        decreases guards.len() - k,
    {
        let ghost rest = guards@.subrange(k as int, guards@.len() as int);
        proof {
            assert(rest[0] == guards@[k as int]);
            assert(rest.drop_first() =~= guards@.subrange(k + 1, guards@.len() as int));
        }
        if dom.dominates(guards[k].succ, pred) {
            return Some(guards[k]);
        }
        k = k + 1;
    }
    None
}

/// γ gate for a two-way merge: the immediately dominating block ends in a
/// guarded branch, and each incoming edge is reached through one of its
/// guarded successors. Inputs are `[condition, true_input, false_input]`.
pub fn gamma_gate(cfg: &Cfg, dom: &DominatorTree, block: BlockId, value: ValueId, incoming: &Vec<(BlockId, ValueId)>) -> (r: Option<(GateNode, Vec<ValueId>)>)
    ensures
        match spec_gamma_gate(cfg, dom, block, value, incoming@) {
            Some((g, ins)) => r matches Some(x) && x.0 == g && x.1@ == ins,
            None => r is None,
        },
{
    if incoming.len() != 2 {
        return None;
    }
    let d = match dom.idom(block) {
        Some(d) => d,
        None => {
            return None;
        },
    };
    if d.0 as usize >= cfg.blocks.len() || cfg.blocks[d.0 as usize].ops.len() == 0 {
        return None;
    }
    let ops = &cfg.blocks[d.0 as usize].ops;
    let guards = match &ops[ops.len() - 1].guarded {
        Some(g) => g,
        None => {
            return None;
        },
    };
    let mut cond: Option<ValueId> = None;
    let mut true_val: Option<ValueId> = None;
    let mut false_val: Option<ValueId> = None;
    let mut k: usize = 0;
    while k < incoming.len()
        invariant
            k <= incoming@.len(),
            gamma_fold(dom.idom@, guards@, incoming@.subrange(0, k as int)) == (cond, true_val, false_val),
        decreases incoming.len() - k,
    {
        proof {
            assert(incoming@.subrange(0, k + 1).drop_last() =~= incoming@.subrange(0, k as int));
        }
        let (pred, v) = incoming[k];
        match first_guard_exec(dom, guards, pred) {
            Some(g) => {
                cond = Some(g.cond);
                if g.when_true {
                    if true_val.is_none() {
                        true_val = Some(v);
                    }
                } else {
                    if false_val.is_none() {
                        false_val = Some(v);
                    }
                }
            },
            None => {},
        }
        k = k + 1;
    }
    assert(incoming@.subrange(0, incoming@.len() as int) =~= incoming@);
    match (cond, true_val, false_val) {
        (Some(c), Some(t), Some(f)) => {
            let mut ins: Vec<ValueId> = Vec::new();
            ins.push(c);
            ins.push(t);
            ins.push(f);
            Some((GateNode::Gamma { value, cond: c }, ins))
        },
        _ => None,
    }
}

/// Whether some incoming edge comes from a block `block` dominates.
pub open spec fn any_back_edge(idom: Seq<Option<BlockId>>, block: BlockId, incoming: Seq<(BlockId, ValueId)>) -> bool {
    exists|i: int| 0 <= i < incoming.len() && spec_dominates(idom, block, (#[trigger] incoming[i]).0)
}

/// What replaces the merge `value` (argument `index` of `block`): a μ
/// at a loop header when it has exactly one entry and one back edge, a γ
/// when the merge is guarded two ways, and otherwise a φ over every input.
pub open spec fn spec_plan_gate(cfg: &Cfg, dom: &DominatorTree, edges: Seq<(BlockId, Seq<ValueId>)>, block: BlockId, index: usize, value: ValueId) -> (GateNode, Seq<ValueId>) {
    let incoming = spec_incoming(edges, index);
    let phi = (GateNode::Phi { value }, incoming.map_values(|p: (BlockId, ValueId)| p.1));
    if any_back_edge(dom.idom@, block, incoming) {
        match spec_mu_gate(dom.idom@, block, value, incoming) {
            Some(g) => g,
            None => phi,
        }
    } else {
        match spec_gamma_gate(cfg, dom, block, value, incoming) {
            Some(g) => g,
            None => phi,
        }
    }
}

pub fn plan_gate(cfg: &Cfg, dom: &DominatorTree, edges: &Vec<Edge>, block: BlockId, index: usize, value: ValueId) -> (r: (GateNode, Vec<ValueId>))
    ensures
        r.0 == spec_plan_gate(cfg, dom, edge_views(edges@), block, index, value).0,
        r.1@ == spec_plan_gate(cfg, dom, edge_views(edges@), block, index, value).1,
{
    let incoming = incoming(edges, index);
    let mut back = false;
    let mut k: usize = 0;
    while k < incoming.len()
        invariant
            k <= incoming@.len(),
            back == exists|i: int| 0 <= i < k && spec_dominates(dom.idom@, block, (#[trigger] incoming@[i]).0),
        decreases incoming.len() - k,
    {
        if dom.dominates(block, incoming[k].0) {
            back = true;
        }
        k = k + 1;
    }
    let gate = if back {
        mu_gate(dom, block, value, &incoming)
    } else {
        gamma_gate(cfg, dom, block, value, &incoming)
    };
    match gate {
        Some(g) => g,
        None => {
            let mut ins: Vec<ValueId> = Vec::new();
            let mut j: usize = 0;
            while j < incoming.len()
                invariant
                    j <= incoming@.len(),
                    ins@ == incoming@.subrange(0, j as int).map_values(|p: (BlockId, ValueId)| p.1),
                decreases incoming.len() - j,
            {
                ins.push(incoming[j].1);
                assert(ins@ =~= incoming@.subrange(0, j + 1).map_values(|p: (BlockId, ValueId)| p.1));
                j = j + 1;
            }
            assert(incoming@.subrange(0, incoming@.len() as int) =~= incoming@);
            (GateNode::Phi { value }, ins)
        },
    }
}

/// The γ inputs `(cond, true_input, false_input)` for result `index` of a
/// two-armed conditional: its decision and the values its true and false
/// regions yield there (the last such region of each kind).
pub open spec fn gamma_yields(regions: Seq<GuardedRegion>, index: usize) -> Option<(Option<ValueId>, Option<ValueId>)>
    decreases regions.len(),
{
    if regions.len() == 0 {
        Some((None, None))
    } else {
        match gamma_yields(regions.drop_last(), index) {
            None => None,
            Some((t, f)) => {
                let r = regions.last();
                if (index as int) < r.yields@.len() {
                    let y = r.yields@[index as int];
                    if r.when_true { Some((Some(y), f)) } else { Some((t, Some(y))) }
                } else {
                    None
                }
            },
        }
    }
}

pub open spec fn spec_gamma_inputs(guard: &ConditionalInfo, index: usize) -> Option<(ValueId, ValueId, ValueId)> {
    match gamma_yields(guard.regions@, index) {
        Some((Some(t), Some(f))) => Some((guard.decision, t, f)),
        _ => None,
    }
}

proof fn lemma_gamma_yields_none(regions: Seq<GuardedRegion>, index: usize, j: int)
    requires
        0 <= j <= regions.len(),
        gamma_yields(regions.subrange(0, j), index) is None,
    ensures
        gamma_yields(regions, index) is None,
    decreases regions.len() - j,
{
    if j < regions.len() {
        assert(regions.subrange(0, j + 1).drop_last() =~= regions.subrange(0, j));
        lemma_gamma_yields_none(regions, index, j + 1);
    } else {
        assert(regions.subrange(0, j) =~= regions);
    }
}

pub fn gamma_inputs(guard: &ConditionalInfo, index: usize) -> (r: Option<(ValueId, ValueId, ValueId)>)
    ensures
        r == spec_gamma_inputs(guard, index),
{
    let mut true_val: Option<ValueId> = None;
    let mut false_val: Option<ValueId> = None;
    let mut k: usize = 0;
    while k < guard.regions.len()
        invariant
            k <= guard.regions@.len(),
            gamma_yields(guard.regions@.subrange(0, k as int), index) == Some((true_val, false_val)),
        decreases guard.regions.len() - k,
    {
        proof {
            assert(guard.regions@.subrange(0, k + 1).drop_last() =~= guard.regions@.subrange(0, k as int));
        }
        let region = &guard.regions[k];
        if index >= region.yields.len() {
            proof {
                lemma_gamma_yields_none(guard.regions@, index, k + 1);
            }
            return None;
        }
        let y = region.yields[index];
        if region.when_true {
            true_val = Some(y);
        } else {
            false_val = Some(y);
        }
        k = k + 1;
    }
    assert(guard.regions@.subrange(0, guard.regions@.len() as int) =~= guard.regions@);
    match (true_val, false_val) {
        (Some(t), Some(f)) => Some((guard.decision, t, f)),
        _ => None,
    }
}

/// The entry blocks of the non-empty regions of `ops`, in order.
pub open spec fn nested_entries(ops: Seq<CfgOp>) -> Seq<BlockId>
    decreases ops.len(),
{
    if ops.len() == 0 {
        Seq::empty()
    } else {
        nested_entries(ops.drop_last()) + present(ops.last().region_entries@)
    }
}

/// The blocks named in `entries`, in order.
pub open spec fn present(entries: Seq<Option<BlockId>>) -> Seq<BlockId>
    decreases entries.len(),
{
    if entries.len() == 0 {
        Seq::empty()
    } else {
        match entries.last() {
            Some(b) => present(entries.drop_last()).push(b),
            None => present(entries.drop_last()),
        }
    }
}

/// The blocks reachable in one step from block `b`: the entries of its
/// operations' regions, then its terminator's successors.
pub open spec fn block_edges(cfg: &Cfg, b: BlockId) -> Seq<BlockId> {
    if b.0 < cfg.blocks@.len() {
        let ops = cfg.blocks@[b.0 as int].ops@;
        let succ = if ops.len() > 0 {
            match ops.last().successors {
                Some(s) => s@,
                None => Seq::empty(),
            }
        } else {
            Seq::empty()
        };
        nested_entries(ops) + succ
    } else {
        Seq::empty()
    }
}

/// The number of blocks not yet seen.
pub open spec fn count_unseen(seen: Seq<bool>) -> nat
    decreases seen.len(),
{
    if seen.len() == 0 {
        0
    } else {
        count_unseen(seen.drop_last()) + if seen.last() { 0nat } else { 1nat }
    }
}

/// Push each target not seen yet, marking it seen.
pub open spec fn push_new(seen: Seq<bool>, stack: Seq<BlockId>, targets: Seq<BlockId>) -> (Seq<bool>, Seq<BlockId>)
    decreases targets.len(),
{
    if targets.len() == 0 {
        (seen, stack)
    } else {
        let (s, st) = push_new(seen, stack, targets.drop_last());
        let t = targets.last();
        if t.0 < s.len() && !s[t.0 as int] {
            (s.update(t.0 as int, true), st.push(t))
        } else {
            (s, st)
        }
    }
}

pub proof fn lemma_count_unseen_update(seen: Seq<bool>, i: int)
    requires
        0 <= i < seen.len(),
        !seen[i],
    ensures
        count_unseen(seen.update(i, true)) + 1 == count_unseen(seen),
    decreases seen.len(),
{
    if i < seen.len() - 1 {
        assert(seen.update(i, true).drop_last() =~= seen.drop_last().update(i, true));
        lemma_count_unseen_update(seen.drop_last(), i);
    } else {
        assert(seen.update(i, true).drop_last() =~= seen.drop_last());
    }
}

pub proof fn lemma_push_new(seen: Seq<bool>, stack: Seq<BlockId>, targets: Seq<BlockId>)
    ensures
        push_new(seen, stack, targets).0.len() == seen.len(),
        2 * count_unseen(push_new(seen, stack, targets).0) + push_new(seen, stack, targets).1.len() <= 2 * count_unseen(seen) + stack.len(),
    decreases targets.len(),
{
    if targets.len() > 0 {
        lemma_push_new(seen, stack, targets.drop_last());
        let (s, st) = push_new(seen, stack, targets.drop_last());
        let t = targets.last();
        if t.0 < s.len() && !s[t.0 as int] {
            lemma_count_unseen_update(s, t.0 as int);
        }
    }
}

/// Depth-first walk from `stack`: pop a block, record it, push the blocks
/// it reaches that were not seen yet.
pub open spec fn dfs(cfg: &Cfg, seen: Seq<bool>, stack: Seq<BlockId>, order: Seq<BlockId>) -> Seq<BlockId>
    decreases 2 * count_unseen(seen) + stack.len(),
{
    if stack.len() == 0 {
        order
    } else {
        let b = stack.last();
        let next = push_new(seen, stack.drop_last(), block_edges(cfg, b));
        proof {
            lemma_push_new(seen, stack.drop_last(), block_edges(cfg, b));
        }
        dfs(cfg, next.0, next.1, order.push(b))
    }
}

/// Every block reachable from `entry`, in the order a depth-first walk
/// records them.
pub open spec fn spec_region_blocks(cfg: &Cfg, entry: Option<BlockId>) -> Seq<BlockId> {
    match entry {
        None => Seq::empty(),
        Some(e) => if e.0 < cfg.blocks@.len() {
            dfs(cfg, Seq::new(cfg.blocks@.len(), |i: int| i == e.0), seq![e], Seq::empty())
        } else {
            Seq::empty()
        },
    }
}

fn push_present(out: &mut Vec<BlockId>, entries: &Vec<Option<BlockId>>)
    ensures
        final(out)@ == old(out)@ + present(entries@),
{
    let ghost start = out@;
    let mut k: usize = 0;
    while k < entries.len()
        invariant
            k <= entries@.len(),
            out@ == start + present(entries@.subrange(0, k as int)),
        decreases entries.len() - k,
    {
        proof {
            assert(entries@.subrange(0, k + 1).drop_last() =~= entries@.subrange(0, k as int));
        }
        match entries[k] {
            Some(b) => {
                out.push(b);
            },
            None => {},
        }
        assert(out@ =~= start + present(entries@.subrange(0, k + 1)));
        k = k + 1;
    }
    assert(entries@.subrange(0, entries@.len() as int) =~= entries@);
}

fn block_edges_exec(cfg: &Cfg, b: BlockId) -> (r: Vec<BlockId>)
    ensures
        r@ == block_edges(cfg, b),
{
    let mut out: Vec<BlockId> = Vec::new();
    if b.0 as usize >= cfg.blocks.len() {
        return out;
    }
    let ops = &cfg.blocks[b.0 as usize].ops;
    let mut k: usize = 0;
    while k < ops.len()
        invariant
            k <= ops@.len(),
            out@ == nested_entries(ops@.subrange(0, k as int)),
        decreases ops.len() - k,
    {
        proof {
            assert(ops@.subrange(0, k + 1).drop_last() =~= ops@.subrange(0, k as int));
        }
        push_present(&mut out, &ops[k].region_entries);
        k = k + 1;
    }
    assert(ops@.subrange(0, ops@.len() as int) =~= ops@);
    if ops.len() > 0 {
        match &ops[ops.len() - 1].successors {
            Some(succ) => {
                let mut j: usize = 0;
                let ghost start = out@;
                while j < succ.len()
                    invariant
                        j <= succ@.len(),
                        out@ == start + succ@.subrange(0, j as int),
                    decreases succ.len() - j,
                {
                    out.push(succ[j]);
                    assert(out@ =~= start + succ@.subrange(0, j + 1));
                    j = j + 1;
                }
                assert(succ@.subrange(0, succ@.len() as int) =~= succ@);
            },
            None => {
                assert(out@ =~= out@ + Seq::<BlockId>::empty());
            },
        }
    } else {
        assert(out@ =~= out@ + Seq::<BlockId>::empty());
    }
    out
}

/// Every block reachable from `entry` (the first block of the analysed
/// region), descending into nested regions, in depth-first order.
pub fn region_blocks(cfg: &Cfg, entry: Option<BlockId>) -> (r: Vec<BlockId>)
    ensures
        r@ == spec_region_blocks(cfg, entry),
{
    let mut order: Vec<BlockId> = Vec::new();
    let e = match entry {
        Some(e) => e,
        None => {
            return order;
        },
    };
    if e.0 as usize >= cfg.blocks.len() {
        return order;
    }
    let mut seen: Vec<bool> = Vec::new();
    let mut k: usize = 0;
    while k < cfg.blocks.len()
        invariant
            k <= cfg.blocks@.len(),
            seen@ == Seq::new(k as nat, |i: int| i == e.0),
        decreases cfg.blocks.len() - k,
    {
        seen.push(k == e.0 as usize);
        assert(seen@ =~= Seq::new((k + 1) as nat, |i: int| i == e.0));
        k = k + 1;
    }
    let mut stack: Vec<BlockId> = Vec::new();
    stack.push(e);
    proof {
        assert(stack@ =~= seq![e]);
    }
    while stack.len() > 0
        invariant
            seen@.len() == cfg.blocks@.len(),
            dfs(cfg, seen@, stack@, order@) == spec_region_blocks(cfg, entry),
        decreases 2 * count_unseen(seen@) + stack@.len(),
    {
        let b = stack.pop().unwrap();
        let ghost popped_stack = stack@;
        let targets = block_edges_exec(cfg, b);
        order.push(b);
        let mut j: usize = 0;
        proof {
            assert(targets@.subrange(0, 0) =~= Seq::<BlockId>::empty());
            lemma_push_new(seen@, popped_stack, targets@);
        }
        let ghost seen0 = seen@;
        while j < targets.len()
            invariant
                j <= targets@.len(),
                seen0.len() == cfg.blocks@.len(),
                push_new(seen0, popped_stack, targets@.subrange(0, j as int)) == (seen@, stack@),
            decreases targets.len() - j,
        {
            proof {
                assert(targets@.subrange(0, j + 1).drop_last() =~= targets@.subrange(0, j as int));
                lemma_push_new(seen0, popped_stack, targets@.subrange(0, j as int));
            }
            let t = targets[j];
            if (t.0 as usize) < seen.len() && !seen[t.0 as usize] {
                seen.set(t.0 as usize, true);
                stack.push(t);
            }
            j = j + 1;
        }
        proof {
            assert(targets@.subrange(0, targets@.len() as int) =~= targets@);
            lemma_push_new(seen0, popped_stack, targets@);
        }
    }
    order
}

/// An incoming edge as a mathematical value.
pub open spec fn edge_view(e: Edge) -> (BlockId, Seq<ValueId>) {
    (e.pred, e.args@)
}

/// The branch of block `b`'s terminator, if it is one.
pub open spec fn block_branch(cfg: &Cfg, b: BlockId) -> Option<Seq<SuccessorArgs>> {
    if b.0 < cfg.blocks@.len() && cfg.blocks@[b.0 as int].ops@.len() > 0 {
        match cfg.blocks@[b.0 as int].ops@.last().branch {
            Some(br) => Some(br@),
            None => None,
        }
    } else {
        None
    }
}

/// The edges a branch from `pred` contributes to block `to`, in order.
pub open spec fn edges_to(branch: Seq<SuccessorArgs>, pred: BlockId, to: int) -> Seq<(BlockId, Seq<ValueId>)>
    decreases branch.len(),
{
    if branch.len() == 0 {
        Seq::empty()
    } else {
        let prefix = edges_to(branch.drop_last(), pred, to);
        if branch.last().succ.0 == to {
            prefix.push((pred, branch.last().args@))
        } else {
            prefix
        }
    }
}

/// The incoming branch edges of block `to` from the blocks in `blocks`, in
/// block order.
pub open spec fn preds_of(cfg: &Cfg, blocks: Seq<BlockId>, to: int) -> Seq<(BlockId, Seq<ValueId>)>
    decreases blocks.len(),
{
    if blocks.len() == 0 {
        Seq::empty()
    } else {
        let b = blocks.last();
        preds_of(cfg, blocks.drop_last(), to) + match block_branch(cfg, b) {
            Some(br) => edges_to(br, b, to),
            None => Seq::empty(),
        }
    }
}

/// Each block's incoming branch edges, by block number.
pub fn predecessor_map(cfg: &Cfg, blocks: &Vec<BlockId>) -> (r: Vec<Vec<Edge>>)
    ensures
        r@.len() == cfg.blocks@.len(),
        forall|t: int| 0 <= t < r@.len() ==> edge_views((#[trigger] r@[t])@) == preds_of(cfg, blocks@, t),
{
    let n = cfg.blocks.len();
    let mut table: Vec<Vec<Edge>> = Vec::new();
    let mut k: usize = 0;
    while k < n
        invariant
            k <= n,
            n == cfg.blocks@.len(),
            table@.len() == k,
            forall|t: int| 0 <= t < k ==> (#[trigger] table@[t])@.len() == 0,
        decreases n - k,
    {
        table.push(Vec::new());
        k = k + 1;
    }
    proof {
        assert forall|t: int| 0 <= t < table@.len() implies edge_views((#[trigger] table@[t])@) == preds_of(cfg, blocks@.subrange(0, 0), t) by {
            assert(edge_views(table@[t]@) =~= Seq::<(BlockId, Seq<ValueId>)>::empty());
        }
    }
    let mut i: usize = 0;
    while i < blocks.len()
        invariant
            i <= blocks@.len(),
            n == cfg.blocks@.len(),
            table@.len() == n,
            forall|t: int| 0 <= t < n ==> edge_views((#[trigger] table@[t])@) == preds_of(cfg, blocks@.subrange(0, i as int), t),
        decreases blocks.len() - i,
    {
        let b = blocks[i];
        proof {
            assert(blocks@.subrange(0, i + 1).drop_last() =~= blocks@.subrange(0, i as int));
        }
        let ghost before = table@;
        if (b.0 as usize) < cfg.blocks.len() && cfg.blocks[b.0 as usize].ops.len() > 0 {
            let ops = &cfg.blocks[b.0 as usize].ops;
            match &ops[ops.len() - 1].branch {
                Some(br) => {
                    let mut j: usize = 0;
                    while j < br.len()
                        invariant
                            j <= br@.len(),
                            table@.len() == n,
                            n == cfg.blocks@.len(),
                            block_branch(cfg, b) == Some(br@),
                            forall|t: int| 0 <= t < n ==> edge_views((#[trigger] table@[t])@)
                                == edge_views(before[t]@) + edges_to(br@.subrange(0, j as int), b, t),
                        decreases br.len() - j,
                    {
                        proof {
                            assert(br@.subrange(0, j + 1).drop_last() =~= br@.subrange(0, j as int));
                        }
                        let succ = br[j].succ;
                        let ghost mid = table@;
                        if (succ.0 as usize) < table.len() {
                            let edge = Edge { pred: b, args: copy_vec(&br[j].args) };
                            table[succ.0 as usize].push(edge);
                        }
                        proof {
                            assert forall|t: int| 0 <= t < n implies edge_views((#[trigger] table@[t])@)
                                == edge_views(before[t]@) + edges_to(br@.subrange(0, j + 1), b, t) by {
                                if t == succ.0 as int {
                                    assert(edge_views(table@[t]@) =~= edge_views(mid[t]@).push((b, br@[j as int].args@)));
                                } else {
                                    assert(table@[t] == mid[t]);
                                }
                            }
                        }
                        j = j + 1;
                    }
                    proof {
                        assert(br@.subrange(0, br@.len() as int) =~= br@);
                    }
                },
                None => {
                    proof {
                        assert forall|t: int| 0 <= t < n implies edge_views((#[trigger] table@[t])@) == preds_of(cfg, blocks@.subrange(0, i + 1), t) by {
                            assert(preds_of(cfg, blocks@.subrange(0, i + 1), t) =~= preds_of(cfg, blocks@.subrange(0, i as int), t) + Seq::empty());
                        }
                    }
                },
            }
        } else {
            proof {
                assert forall|t: int| 0 <= t < n implies edge_views((#[trigger] table@[t])@) == preds_of(cfg, blocks@.subrange(0, i + 1), t) by {
                    assert(preds_of(cfg, blocks@.subrange(0, i + 1), t) =~= preds_of(cfg, blocks@.subrange(0, i as int), t) + Seq::empty());
                }
            }
        }
        i = i + 1;
    }
    proof {
        assert(blocks@.subrange(0, blocks@.len() as int) =~= blocks@);
    }
    table
}

} // verus!
