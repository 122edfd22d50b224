//! Shared instruction-selection types: rule identities, the bindings a rule
//! match captures, selection pressure, and the target and cost models a
//! backend tunes selection with.
use vstd::prelude::*;

use crate::ids::{BlockId, ValueId};

verus! {

/// The position of a rule in the selection pass's rule list.
#[derive(Clone, Copy, Debug, PartialEq, Eq, Hash, Structural)]
pub struct CompiledRuleId(u32);

impl CompiledRuleId {
    pub closed spec fn spec_index(self) -> u32 {
        self.0
    }

    /// The rule's position in the rule list.
    pub fn index(self) -> (r: u32)
        ensures
            r == self.spec_index(),
    {
        self.0
    }
}

/// The identities the selection pass gives `count` rules: each its position.
pub fn assign_rule_ids(count: u32) -> (r: Vec<CompiledRuleId>)
    ensures
        r@.len() == count,
        forall|i: int| 0 <= i < count ==> (#[trigger] r@[i]).spec_index() == i,
{
    let mut ids: Vec<CompiledRuleId> = Vec::new();
    let mut i: u32 = 0;
    while i < count
        invariant
            i <= count,
            ids@.len() == i,
            forall|j: int| 0 <= j < i ==> (#[trigger] ids@[j]).spec_index() == j,
        decreases count - i,
    {
        ids.push(CompiledRuleId(i));
        i = i + 1;
    }
    ids
}

/// The value bound to `symbol`: the first binding for it, in the order the
/// match recorded them.
pub open spec fn first_binding<T>(bindings: Seq<(u32, T)>, symbol: u32) -> Option<T>
    decreases bindings.len(),
{
    if bindings.len() == 0 {
        None
    } else if bindings[0].0 == symbol {
        Some(bindings[0].1)
    } else {
        first_binding(bindings.drop_first(), symbol)
    }
}

proof fn lemma_first_binding<T>(bindings: Seq<(u32, T)>, symbol: u32, k: int)
    requires
        0 <= k <= bindings.len(),
        forall|j: int| 0 <= j < k ==> (#[trigger] bindings[j]).0 != symbol,
    ensures
        first_binding(bindings, symbol) == first_binding(bindings.subrange(k, bindings.len() as int), symbol),
    decreases k,
{
    if k > 0 {
        assert(bindings[0].0 != symbol);
        assert forall|j: int| 0 <= j < k - 1 implies (#[trigger] bindings.drop_first()[j]).0 != symbol by {
            assert(bindings.drop_first()[j] == bindings[j + 1]);
        }
        lemma_first_binding(bindings.drop_first(), symbol, k - 1);
        assert(bindings.drop_first().subrange(k - 1, bindings.len() - 1) =~= bindings.subrange(k, bindings.len() as int));
    } else {
        assert(bindings.subrange(0, bindings.len() as int) =~= bindings);
    }
}

fn lookup<T: Copy>(bindings: &Vec<(u32, T)>, symbol: u32) -> (r: Option<T>)
    ensures
        r == first_binding(bindings@, symbol),
{
    let mut k: usize = 0;
    while k < bindings.len()
        invariant
            k <= bindings@.len(),
            forall|j: int| 0 <= j < k ==> (#[trigger] bindings@[j]).0 != symbol,
        decreases bindings.len() - k,
    {
        if bindings[k].0 == symbol {
            proof {
                lemma_first_binding(bindings@, symbol, k as int);
            }
            return Some(bindings[k].1);
        }
        k = k + 1;
    }
    proof {
        lemma_first_binding(bindings@, symbol, k as int);
    }
    None
}

/// What a rule match captured: constants, values and blocks, each bound to a
/// pattern symbol. Integer constants are held as the bits their low 64 hold.
#[derive(Debug, Clone)]
pub struct RuleMatch {
    int_bindings: Vec<(u32, u64)>,
    value_bindings: Vec<(u32, ValueId)>,
    block_bindings: Vec<(u32, BlockId)>,
}

impl RuleMatch {
    pub closed spec fn ints(&self) -> Seq<(u32, u64)> {
        self.int_bindings@
    }

    pub closed spec fn values(&self) -> Seq<(u32, ValueId)> {
        self.value_bindings@
    }

    pub closed spec fn blocks(&self) -> Seq<(u32, BlockId)> {
        self.block_bindings@
    }

    pub fn new(int_bindings: Vec<(u32, u64)>, value_bindings: Vec<(u32, ValueId)>) -> (r: Self)
        ensures
            r.ints() == int_bindings@,
            r.values() == value_bindings@,
            r.blocks() == Seq::<(u32, BlockId)>::empty(),
    {
        RuleMatch { int_bindings, value_bindings, block_bindings: Vec::new() }
    }

    /// The match with `block_bindings` as its branch-target bindings.
    pub fn with_block_bindings(self, block_bindings: Vec<(u32, BlockId)>) -> (r: Self)
        ensures
            r.ints() == self.ints(),
            r.values() == self.values(),
            r.blocks() == block_bindings@,
    {
        RuleMatch { int_bindings: self.int_bindings, value_bindings: self.value_bindings, block_bindings }
    }

    pub open spec fn spec_value_binding(&self, symbol: u32) -> Option<ValueId> {
        first_binding(self.values(), symbol)
    }

    /// The constant bound to `symbol`, as a signed 64-bit value.
    pub open spec fn spec_int_binding(&self, symbol: u32) -> Option<i64> {
        match first_binding(self.ints(), symbol) {
            Some(v) => Some(v as i64),
            None => None,
        }
    }

    pub open spec fn spec_block_binding(&self, symbol: u32) -> Option<BlockId> {
        first_binding(self.blocks(), symbol)
    }

    pub fn value_binding(&self, symbol: u32) -> (r: Option<ValueId>)
        ensures
            r == self.spec_value_binding(symbol),
    {
        lookup(&self.value_bindings, symbol)
    }

    pub fn int_binding(&self, symbol: u32) -> (r: Option<i64>)
        ensures
            r == self.spec_int_binding(symbol),
    {
        match lookup(&self.int_bindings, symbol) {
            Some(v) => Some(v as i64),
            None => None,
        }
    }

    pub fn block_binding(&self, symbol: u32) -> (r: Option<BlockId>)
        ensures
            r == self.spec_block_binding(symbol),
    {
        lookup(&self.block_bindings, symbol)
    }
}

/// How crowded the registers are around a match.
#[derive(Clone, Copy, Debug, PartialEq, Eq, Structural)]
pub struct SelectionPressure {
    pub estimated_live_operands: u32,
    pub estimated_register_pressure: u32,
}

/// What a target tells instruction selection about itself. Every method has
/// the behaviour of the generic target unless the target overrides it.
pub trait TargetIselModel {
    /// The subtarget the model describes; `generic` unless overridden.
    fn subtarget(&self) -> (r: &'static str)
        default_ensures
            r@ == "generic"@,
    {
        "generic"
    }

    /// Whether selection solves a cover; yes unless overridden.
    fn is_pbqp_enabled(&self) -> (r: bool)
        default_ensures
            r,
    {
        true
    }

    /// Whether the target takes the rule; every rule unless overridden.
    fn supports_rule(&self, rule_id: CompiledRuleId) -> (r: bool)
        default_ensures
            r,
    {
        true
    }

    /// The register pressure an operation with `operand_count` operands adds:
    /// one per operand unless overridden.
    fn estimate_register_pressure(&self, operand_count: u32) -> (r: u32)
        default_ensures
            r == operand_count,
    {
        operand_count
    }
}

/// The generic target: every default.
pub struct DefaultTargetIselModel;

impl TargetIselModel for DefaultTargetIselModel {}

/// The objective the selection cover minimizes: an instruction's cost on the
/// root of each match, a compatibility cost on parent-to-child edges, and a
/// weight on register pressure.
pub trait IselCostModel {
    spec fn spec_pressure_weight(&self) -> u64;

    /// Weight applied to the estimated register pressure of a match.
    fn pressure_weight(&self) -> (r: u64)
        ensures
            r == self.spec_pressure_weight(),
    ;

    /// The cost placed on the root alternative of a match: its rule's base
    /// cost, its dynamic cost, and the weighted register pressure.
    fn node_cost(&self, base_cost: u32, dynamic_cost: u32, pressure: &SelectionPressure) -> (r: u64)
        requires
            base_cost + dynamic_cost + self.spec_pressure_weight() * pressure.estimated_register_pressure <= u64::MAX,
        ensures
            r == base_cost + dynamic_cost + self.spec_pressure_weight() * pressure.estimated_register_pressure,
    {
        let weight = self.pressure_weight();
        proof {
            assert(weight * pressure.estimated_register_pressure <= u64::MAX) by (nonlinear_arith)
                requires
                    base_cost + dynamic_cost + weight * pressure.estimated_register_pressure <= u64::MAX,
            ;
        }
        base_cost as u64 + dynamic_cost as u64 + weight * pressure.estimated_register_pressure as u64
    }

    /// Extra cost for a satisfied parent-to-child compatibility edge; none
    /// unless overridden.
    fn edge_cost(&self, materialized: bool) -> (r: u64)
        default_ensures
            r == 0,
    {
        0
    }
}

/// The historical objective: base plus dynamic cost, register pressure
/// ignored.
pub struct DefaultIselCostModel;

impl IselCostModel for DefaultIselCostModel {
    open spec fn spec_pressure_weight(&self) -> u64 {
        0
    }

    fn pressure_weight(&self) -> (r: u64) {
        0
    }
}

/// Headroom factor that lets pattern specificity break ties between
/// equal-cost matches without overriding a real instruction-cost difference.
pub const SPECIFICITY_SCALE: u64 = 8;

pub open spec fn spec_specificity_adjusted_cost(cost: u64, specificity: usize) -> u64 {
    let scaled = if cost * 8 > u64::MAX { u64::MAX as int } else { cost * 8 };
    let discount = if specificity < 7 { specificity as int } else { 7 };
    if scaled - discount < 0 {
        0
    } else {
        (scaled - discount) as u64
    }
}

/// Fold a match's specificity into its cost: scale the instruction cost,
/// then give a small discount for each type-constrained pattern node, so
/// among equally cheap matches the most specific wins while a cheaper
/// instruction still wins outright.
pub fn specificity_adjusted_cost(cost: u64, specificity: usize) -> (r: u64)
    ensures
        r == spec_specificity_adjusted_cost(cost, specificity),
{
    let discount: u64 = if specificity < 7 { specificity as u64 } else { SPECIFICITY_SCALE - 1 };
    let scaled: u64 = if cost > u64::MAX / SPECIFICITY_SCALE { u64::MAX } else { cost * SPECIFICITY_SCALE };
    if scaled < discount {
        0
    } else {
        scaled - discount
    }
}

/// A strictly cheaper instruction wins whatever the specificities, as long as
/// the scaled costs do not saturate.
pub proof fn lemma_cheaper_wins(c1: u64, c2: u64, s1: usize, s2: usize)
    requires
        c1 < c2,
        c2 * 8 <= u64::MAX,
    ensures
        spec_specificity_adjusted_cost(c1, s1) < spec_specificity_adjusted_cost(c2, s2),
{
}

/// At equal (non-zero, unsaturated) cost, the more specific match is cheaper.
pub proof fn lemma_more_specific_wins(c: u64, s1: usize, s2: usize)
    requires
        1 <= c,
        c * 8 <= u64::MAX,
        s2 < s1,
        s2 < 7,
    ensures
        spec_specificity_adjusted_cost(c, s1) < spec_specificity_adjusted_cost(c, s2),
{
}

} // verus!
