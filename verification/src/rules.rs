//! Table-driven rule construction and emission.
//!
//! A backend describes each selection rule by a [`RuleSpec`] and each emitter
//! by an [`EmitSpec`]; [`build_rules`] and [`emit_with`] interpret them.
use vstd::prelude::*;

use crate::abi::{RegClassId, RegClassInfo};
use crate::attributes::{AttributeRole, AttributeValue, AttributeValueView, NamedAttribute, RegisterAttr, RegisterAttrView};
use crate::ids::{BlockId, OpId, ValueId};
use crate::context::{attributed_op_added, Context};
use crate::isel::RuleMatch;

verus! {

/// Why a rewrite could not be carried out.
#[derive(Debug, Clone, PartialEq, Eq)]
pub enum PassError {
    /// A binding the emitted instruction needs is absent; names the operation
    /// being rewritten, when there is one.
    RewriteFailed(Option<OpId>),
    /// The IR is not in the shape the rules expect; says what is wrong.
    InvalidRuleSet(String),
}

/// One attribute of the emitted instruction: where its value comes from.
#[derive(Clone, Copy, Debug)]
pub enum EmitAttr {
    /// `req.results[result]` as a virtual register of the class.
    Result { attr: &'static str, result: u16, class: RegClassId },
    /// `req.results[result]` defined in one required physical register.
    ResultFixedDef { attr: &'static str, result: u16, class: RegClassId, index: u16 },
    /// The value bound to `symbol` as a virtual register of the class.
    Value { attr: &'static str, symbol: u32, class: RegClassId },
    /// The value bound to `symbol`, read from one physical register.
    FixedUse { attr: &'static str, symbol: u32, class: RegClassId, index: u16 },
    /// A hardwired physical register (the zero register, a clobber).
    Physical { attr: &'static str, class: RegClassId, index: u16 },
    /// The constant bound to `symbol`.
    Int { attr: &'static str, symbol: u32 },
    /// The block bound to `symbol` (a branch target).
    Block { attr: &'static str, symbol: u32 },
    /// A path-addressed register read: its symbol binds either a constant or
    /// a value with no fixed class.
    IntOrValue { attr: &'static str, symbol: u32 },
}

/// How to build the instruction a rule emits.
pub struct EmitSpec {
    /// `(dialect, op)` identity of the emitted operation.
    pub op: (&'static str, &'static str),
    pub attrs: Vec<EmitAttr>,
    /// Every attribute the op declares; emission fills all of them.
    pub declared: Vec<&'static str>,
}

/// What an emission is asked for: the operation being rewritten, if any,
/// and the values its results must define.
pub struct EmitRequest {
    pub op: Option<OpId>,
    pub results: Vec<ValueId>,
}

/// The instruction an emitter builds: its identity and its attributes.
pub struct EmittedOp {
    pub op: (&'static str, &'static str),
    pub attributes: Vec<NamedAttribute>,
}

pub open spec fn emit_attr_name(e: EmitAttr) -> &'static str {
    match e {
        EmitAttr::Result { attr, .. } => attr,
        EmitAttr::ResultFixedDef { attr, .. } => attr,
        EmitAttr::Value { attr, .. } => attr,
        EmitAttr::FixedUse { attr, .. } => attr,
        EmitAttr::Physical { attr, .. } => attr,
        EmitAttr::Int { attr, .. } => attr,
        EmitAttr::Block { attr, .. } => attr,
        EmitAttr::IntOrValue { attr, .. } => attr,
    }
}

/// The register class an entry names, if any.
pub open spec fn emit_attr_class(e: EmitAttr) -> Option<RegClassId> {
    match e {
        EmitAttr::Result { class, .. } => Some(class),
        EmitAttr::ResultFixedDef { class, .. } => Some(class),
        EmitAttr::Value { class, .. } => Some(class),
        EmitAttr::FixedUse { class, .. } => Some(class),
        EmitAttr::Physical { class, .. } => Some(class),
        _ => None,
    }
}

/// Every class an entry names is in the class table.
pub open spec fn classes_known(classes: Seq<RegClassInfo>, attrs: Seq<EmitAttr>) -> bool {
    forall|i: int| 0 <= i < attrs.len() ==> (#[trigger] emit_attr_class(attrs[i]) matches Some(c) ==> c.0 < classes.len())
}

/// Every attribute the op declares is filled by some entry.
pub open spec fn declared_covered(spec: &EmitSpec) -> bool {
    forall|d: int| 0 <= d < spec.declared@.len() ==> exists|i: int|
        0 <= i < spec.attrs@.len() && (#[trigger] emit_attr_name(spec.attrs@[i]))@ == (#[trigger] spec.declared@[d])@
}

pub open spec fn class_name(classes: Seq<RegClassInfo>, c: RegClassId) -> Seq<char> {
    classes[c.0 as int].name@
}

/// The value an entry takes from the request and the match, or `None` when
/// a binding it needs is absent.
pub open spec fn spec_emit_value(classes: Seq<RegClassInfo>, req: &EmitRequest, m: &RuleMatch, e: EmitAttr) -> Option<AttributeValueView> {
    match e {
        EmitAttr::Result { result, class, .. } => if (result as int) < req.results@.len() {
            Some(AttributeValueView::Register(RegisterAttrView::Virtual(req.results@[result as int].0, Some(class_name(classes, class)))))
        } else {
            None
        },
        EmitAttr::ResultFixedDef { result, class, index, .. } => if (result as int) < req.results@.len() {
            Some(AttributeValueView::Register(RegisterAttrView::FixedDef(req.results@[result as int].0, class_name(classes, class), index)))
        } else {
            None
        },
        EmitAttr::Value { symbol, class, .. } => match m.spec_value_binding(symbol) {
            Some(v) => Some(AttributeValueView::Register(RegisterAttrView::Virtual(v.0, Some(class_name(classes, class))))),
            None => None,
        },
        EmitAttr::FixedUse { symbol, class, index, .. } => match m.spec_value_binding(symbol) {
            Some(v) => Some(AttributeValueView::Register(RegisterAttrView::FixedUse(v.0, class_name(classes, class), index))),
            None => None,
        },
        EmitAttr::Physical { class, index, .. } => Some(AttributeValueView::Register(RegisterAttrView::Physical(class_name(classes, class), index))),
        EmitAttr::Int { symbol, .. } => match m.spec_int_binding(symbol) {
            Some(v) => Some(AttributeValueView::Int(v)),
            None => None,
        },
        EmitAttr::Block { symbol, .. } => match m.spec_block_binding(symbol) {
            Some(b) => Some(AttributeValueView::Block(b)),
            None => None,
        },
        EmitAttr::IntOrValue { symbol, .. } => match m.spec_int_binding(symbol) {
            Some(v) => Some(AttributeValueView::Int(v)),
            None => match m.spec_value_binding(symbol) {
                Some(v) => Some(AttributeValueView::Register(RegisterAttrView::Virtual(v.0, None))),
                None => None,
            },
        },
    }
}

fn class_string(classes: &[RegClassInfo], c: RegClassId) -> (r: String)
    requires
        c.0 < classes@.len(),
    ensures
        r@ == class_name(classes@, c),
{
    classes[c.0 as usize].name.to_owned()
}

fn emit_value(classes: &[RegClassInfo], req: &EmitRequest, m: &RuleMatch, e: EmitAttr) -> (r: Option<AttributeValue>)
    requires
        emit_attr_class(e) matches Some(c) ==> c.0 < classes@.len(),
    ensures
        match spec_emit_value(classes@, req, m, e) {
            Some(v) => r matches Some(x) && x@ == v,
            None => r is None,
        },
{
    match e {
        EmitAttr::Result { result, class, .. } => {
            if (result as usize) < req.results.len() {
                let id = req.results[result as usize].number();
                Some(AttributeValue::Register(RegisterAttr::Virtual { id, class: Some(class_string(classes, class)) }))
            } else {
                None
            }
        },
        EmitAttr::ResultFixedDef { result, class, index, .. } => {
            if (result as usize) < req.results.len() {
                let id = req.results[result as usize].number();
                Some(AttributeValue::Register(RegisterAttr::FixedDef { id, class: class_string(classes, class), index }))
            } else {
                None
            }
        },
        EmitAttr::Value { symbol, class, .. } => match m.value_binding(symbol) {
            Some(v) => Some(AttributeValue::Register(RegisterAttr::Virtual { id: v.number(), class: Some(class_string(classes, class)) })),
            None => None,
        },
        EmitAttr::FixedUse { symbol, class, index, .. } => match m.value_binding(symbol) {
            Some(v) => Some(AttributeValue::Register(RegisterAttr::FixedUse { id: v.number(), class: class_string(classes, class), index })),
            None => None,
        },
        EmitAttr::Physical { class, index, .. } => Some(AttributeValue::Register(RegisterAttr::Physical { class: class_string(classes, class), index })),
        EmitAttr::Int { symbol, .. } => match m.int_binding(symbol) {
            Some(v) => Some(AttributeValue::Int(v)),
            None => None,
        },
        EmitAttr::Block { symbol, .. } => match m.block_binding(symbol) {
            Some(b) => Some(AttributeValue::Block(b)),
            None => None,
        },
        EmitAttr::IntOrValue { symbol, .. } => match m.int_binding(symbol) {
            Some(v) => Some(AttributeValue::Int(v)),
            None => match m.value_binding(symbol) {
                Some(v) => Some(AttributeValue::Register(RegisterAttr::Virtual { id: v.number(), class: None })),
                None => None,
            },
        },
    }
}

fn attr_name_of(e: EmitAttr) -> (r: &'static str)
    ensures
        r == emit_attr_name(e),
{
    match e {
        EmitAttr::Result { attr, .. } => attr,
        EmitAttr::ResultFixedDef { attr, .. } => attr,
        EmitAttr::Value { attr, .. } => attr,
        EmitAttr::FixedUse { attr, .. } => attr,
        EmitAttr::Physical { attr, .. } => attr,
        EmitAttr::Int { attr, .. } => attr,
        EmitAttr::Block { attr, .. } => attr,
        EmitAttr::IntOrValue { attr, .. } => attr,
    }
}

/// `attrs` are the attributes `spec` binds for `req` and `m`, in the spec's
/// order.
pub open spec fn emitted_attributes(classes: Seq<RegClassInfo>, req: &EmitRequest, m: &RuleMatch, spec: &EmitSpec, attrs: Seq<NamedAttribute>) -> bool {
    &&& attrs.len() == spec.attrs@.len()
    &&& forall|i: int| 0 <= i < spec.attrs@.len() ==> {
        &&& (#[trigger] attrs[i]).name@ == emit_attr_name(spec.attrs@[i])@
        &&& attrs[i].value@ == spec_emit_value(classes, req, m, spec.attrs@[i])->0
    }
}

/// Emit the instruction `spec` describes into `ctx`, as [`emit_with`]
/// builds it, and return its id; `attribute_roles` are the roles its
/// attributes play (which registers it defines). `RewriteFailed` when a
/// binding is absent, with `ctx` untouched.
pub fn emit_into(
    ctx: &mut Context,
    classes: &[RegClassInfo],
    req: &EmitRequest,
    m: &RuleMatch,
    spec: &EmitSpec,
    attribute_roles: Vec<(String, AttributeRole)>,
) -> (r: Result<OpId, PassError>)
    requires
        classes_known(classes@, spec.attrs@),
        declared_covered(spec),
        (old(ctx).next_op() as int) < usize::MAX,
    ensures
        r is Ok <==> forall|i: int| 0 <= i < spec.attrs@.len() ==> (#[trigger] spec_emit_value(classes@, req, m, spec.attrs@[i])) is Some,
        r matches Err(e) ==> e == PassError::RewriteFailed(req.op) && *final(ctx) == *old(ctx),
        r matches Ok(id) ==> {
            let attrs = final(ctx).spec_op(id)->0.attributes@;
            &&& emitted_attributes(classes@, req, m, spec, attrs)
            &&& attributed_op_added(old(ctx), final(ctx), id, spec.op.0@, spec.op.1@, attrs, attribute_roles@)
        },
{
    match emit_with(classes, req, m, spec) {
        Err(e) => Err(e),
        Ok(op) => {
            let ghost attrs = op.attributes@;
            let id = ctx.add_attributed_op(op.op.0, op.op.1, op.attributes, attribute_roles);
            proof {
                assert(ctx.spec_op(id)->0.attributes@ == attrs);
            }
            Ok(id)
        },
    }
}

/// Interprets an [`EmitSpec`]: bind each attribute from the request and the
/// match, in the spec's order. `RewriteFailed` when a binding is absent.
pub fn emit_with(classes: &[RegClassInfo], req: &EmitRequest, m: &RuleMatch, spec: &EmitSpec) -> (r: Result<EmittedOp, PassError>)
    requires
        classes_known(classes@, spec.attrs@),
        declared_covered(spec),
    ensures
        r is Ok <==> forall|i: int| 0 <= i < spec.attrs@.len() ==> (#[trigger] spec_emit_value(classes@, req, m, spec.attrs@[i])) is Some,
        r matches Err(e) ==> e == PassError::RewriteFailed(req.op),
        r matches Ok(op) ==> {
            &&& op.op == spec.op
            &&& op.attributes@.len() == spec.attrs@.len()
            &&& forall|i: int| 0 <= i < spec.attrs@.len() ==> {
                &&& (#[trigger] op.attributes@[i]).name@ == emit_attr_name(spec.attrs@[i])@
                &&& op.attributes@[i].value@ == spec_emit_value(classes@, req, m, spec.attrs@[i])->0
            }
        },
{
    let mut attributes: Vec<NamedAttribute> = Vec::new();
    let mut k: usize = 0;
    while k < spec.attrs.len()
        invariant
            k <= spec.attrs@.len(),
            classes_known(classes@, spec.attrs@),
            attributes@.len() == k,
            forall|i: int| 0 <= i < k ==> (#[trigger] spec_emit_value(classes@, req, m, spec.attrs@[i])) is Some,
            forall|i: int| 0 <= i < k ==> {
                &&& (#[trigger] attributes@[i]).name@ == emit_attr_name(spec.attrs@[i])@
                &&& attributes@[i].value@ == spec_emit_value(classes@, req, m, spec.attrs@[i])->0
            },
        decreases spec.attrs.len() - k,
    {
        let entry = spec.attrs[k];
        proof {
            assert(emit_attr_class(spec.attrs@[k as int]) matches Some(c) ==> c.0 < classes@.len());
        }
        match emit_value(classes, req, m, entry) {
            Some(value) => {
                let name = attr_name_of(entry).to_owned();
                attributes.push(NamedAttribute::new(name, value));
            },
            None => {
                return Err(PassError::RewriteFailed(req.op));
            },
        }
        k = k + 1;
    }
    Ok(EmittedOp { op: spec.op, attributes })
}

/// The storage domain of a register operand: integer, float, or either.
#[derive(Clone, Copy, Debug, PartialEq, Eq, Structural)]
pub enum CapabilityKind {
    Integer,
    Float,
    Any,
}

/// A register operand's class and whether the instruction consumes the
/// value's full architectural width.
#[derive(Clone, Copy, Debug)]
pub struct RegOperandSpec {
    pub symbol: u32,
    pub class: RegClassId,
    pub whole: bool,
    pub capability: CapabilityKind,
}

/// Storage domain of the register receiving the rule's result.
#[derive(Clone, Copy, Debug)]
pub struct ResultRegSpec {
    pub class: RegClassId,
    pub capability: CapabilityKind,
}

/// A semantic graph serialized into the backend's semantics blob.
#[derive(Clone, Copy, Debug, PartialEq, Eq, Structural)]
pub struct PatternRef {
    pub offset: u32,
    /// Whether any node carries a width annotation.
    pub typed: bool,
    /// Width of a floating-point value materializable from the pattern's
    /// integer bit pattern.
    pub float_width: Option<u32>,
}

/// What a register must be able to hold: its domain and width.
#[derive(Clone, Copy, Debug, PartialEq, Eq, Structural)]
pub struct RegisterCapability {
    pub kind: CapabilityKind,
    pub width: u32,
}

/// The register a rule operand or result needs: its capability, whether the
/// whole width is consumed or only the low bits, and the bit offset of the
/// class's view within its register file.
#[derive(Clone, Copy, Debug, PartialEq, Eq, Structural)]
pub struct RegisterRequirement {
    pub capability: RegisterCapability,
    pub whole: bool,
    pub view_offset: u32,
}

/// The width listed for the class called `name`: the first entry for it.
pub open spec fn first_width(widths: Seq<(&str, u32)>, name: Seq<char>) -> Option<u32>
    decreases widths.len(),
{
    if widths.len() == 0 {
        None
    } else if widths[0].0@ == name {
        Some(widths[0].1)
    } else {
        first_width(widths.drop_first(), name)
    }
}

pub open spec fn spec_requirement(
    widths: Seq<(&str, u32)>,
    classes: Seq<RegClassInfo>,
    class: RegClassId,
    whole: bool,
    capability: CapabilityKind,
) -> Option<RegisterRequirement> {
    match first_width(widths, class_name(classes, class)) {
        Some(w) => Some(RegisterRequirement {
            capability: RegisterCapability { kind: capability, width: w },
            whole,
            view_offset: classes[class.0 as int].view_bit_offset,
        }),
        None => None,
    }
}

proof fn lemma_first_width(widths: Seq<(&str, u32)>, name: Seq<char>, k: int)
    requires
        0 <= k <= widths.len(),
        forall|j: int| 0 <= j < k ==> (#[trigger] widths[j]).0@ != name,
    ensures
        first_width(widths, name) == first_width(widths.subrange(k, widths.len() as int), name),
    decreases k,
{
    if k > 0 {
        assert forall|j: int| 0 <= j < k - 1 implies (#[trigger] widths.drop_first()[j]).0@ != name by {
            assert(widths.drop_first()[j] == widths[j + 1]);
        }
        lemma_first_width(widths.drop_first(), name, k - 1);
        assert(widths.drop_first().subrange(k - 1, widths.len() - 1) =~= widths.subrange(k, widths.len() as int));
    } else {
        assert(widths.subrange(0, widths.len() as int) =~= widths);
    }
}

/// The register requirement for `class` under the enabled register widths:
/// `None` when the class has no width there.
pub fn requirement(
    register_widths: &[(&str, u32)],
    classes: &[RegClassInfo],
    class: RegClassId,
    whole: bool,
    capability: CapabilityKind,
) -> (r: Option<RegisterRequirement>)
    requires
        class.0 < classes@.len(),
    ensures
        r == spec_requirement(register_widths@, classes@, class, whole, capability),
{
    let info = &classes[class.0 as usize];
    let mut k: usize = 0;
    while k < register_widths.len()
        invariant
            k <= register_widths@.len(),
            class.0 < classes@.len(),
            *info == classes@[class.0 as int],
            forall|j: int| 0 <= j < k ==> (#[trigger] register_widths@[j]).0@ != class_name(classes@, class),
        decreases register_widths.len() - k,
    {
        if crate::text::str_eq(register_widths[k].0, info.name) {
            proof {
                lemma_first_width(register_widths@, class_name(classes@, class), k as int);
            }
            return Some(RegisterRequirement {
                capability: RegisterCapability { kind: capability, width: register_widths[k].1 },
                whole,
                view_offset: info.view_bit_offset,
            });
        }
        k = k + 1;
    }
    proof {
        lemma_first_width(register_widths@, class_name(classes@, class), k as int);
    }
    None
}

/// One selection rule, declaratively.
pub struct RuleSpec {
    pub name: &'static str,
    /// Feature ids; the rule is available when any is enabled (or when it
    /// lists none).
    pub features: Vec<u16>,
    pub pattern: PatternRef,
    /// `(mnemonic, encoding_bytes)` terms; the rule's cost is the sum of each
    /// term's latency times the latency scale plus its encoding size.
    pub cost_terms: Vec<(&'static str, u32)>,
    pub registers: Vec<RegOperandSpec>,
    pub result: Option<ResultRegSpec>,
    pub guarded: Option<PatternRef>,
}

/// A rule as selection uses it: its cost and register requirements resolved.
pub struct BuiltRule {
    pub name: &'static str,
    pub pattern: PatternRef,
    pub base_cost: u32,
    pub operand_registers: Vec<(u32, RegisterRequirement)>,
    pub result_register: Option<RegisterRequirement>,
    pub float_constant_width: Option<u32>,
    pub guarded: Option<PatternRef>,
}

/// Whether a rule listing `features` is available under `enabled`.
pub open spec fn rule_enabled(features: Seq<u16>, enabled: Seq<u16>) -> bool {
    features.len() == 0 || exists|i: int| 0 <= i < features.len() && enabled.contains(#[trigger] features[i])
}

/// The cost of `terms` with the given latencies: each term's latency times
/// `scale` plus its bytes, summed in order, in 32-bit wrapping arithmetic.
pub open spec fn cost_sum(terms: Seq<(&str, u32)>, latencies: Seq<u32>, scale: u32) -> u32
    decreases terms.len(),
{
    if terms.len() == 0 || latencies.len() < terms.len() {
        0
    } else {
        let n = terms.len() - 1;
        cost_sum(terms.subrange(0, n), latencies.subrange(0, n), scale).wrapping_add(
            latencies[n].wrapping_mul(scale).wrapping_add(terms[n].1),
        )
    }
}

/// The operand register requirements of `registers` whose class has a
/// width, in order.
pub open spec fn operand_requirements(
    widths: Seq<(&str, u32)>,
    classes: Seq<RegClassInfo>,
    registers: Seq<RegOperandSpec>,
) -> Seq<(u32, RegisterRequirement)>
    decreases registers.len(),
{
    if registers.len() == 0 {
        Seq::empty()
    } else {
        let n = registers.len() - 1;
        let r = registers[n];
        let prefix = operand_requirements(widths, classes, registers.subrange(0, n));
        match spec_requirement(widths, classes, r.class, r.whole, r.capability) {
            Some(req) => prefix.push((r.symbol, req)),
            None => prefix,
        }
    }
}

pub open spec fn result_requirement(
    widths: Seq<(&str, u32)>,
    classes: Seq<RegClassInfo>,
    result: Option<ResultRegSpec>,
) -> Option<RegisterRequirement> {
    match result {
        Some(r) => spec_requirement(widths, classes, r.class, false, r.capability),
        None => None,
    }
}

/// Every class a rule names is in the class table.
pub open spec fn rule_classes_known(classes: Seq<RegClassInfo>, spec: &RuleSpec) -> bool {
    &&& forall|i: int| 0 <= i < spec.registers@.len() ==> (#[trigger] spec.registers@[i]).class.0 < classes.len()
    &&& spec.result matches Some(r) ==> r.class.0 < classes.len()
}

/// `built` is `spec` resolved under `widths`, with `instruction_cost`
/// giving each cost term's latency.
pub open spec fn built_from<F: Fn(&str) -> u32>(
    built: &BuiltRule,
    spec: &RuleSpec,
    widths: Seq<(&str, u32)>,
    classes: Seq<RegClassInfo>,
    instruction_cost: F,
    scale: u32,
) -> bool {
    &&& built.name == spec.name
    &&& built.pattern == spec.pattern
    &&& built.guarded == spec.guarded
    &&& built.float_constant_width == spec.pattern.float_width
    &&& built.operand_registers@ == operand_requirements(widths, classes, spec.registers@)
    &&& built.result_register == result_requirement(widths, classes, spec.result)
    &&& exists|latencies: Seq<u32>| {
        &&& latencies.len() == spec.cost_terms@.len()
        &&& (forall|j: int| 0 <= j < latencies.len() ==> instruction_cost.ensures((spec.cost_terms@[j].0,), #[trigger] latencies[j]))
        &&& built.base_cost == cost_sum(spec.cost_terms@, latencies, scale)
    }
}

fn feature_enabled(features: &Vec<u16>, enabled: &[u16]) -> (r: bool)
    ensures
        r == rule_enabled(features@, enabled@),
{
    if features.len() == 0 {
        return true;
    }
    let mut k: usize = 0;
    while k < features.len()
        invariant
            k <= features@.len(),
            forall|i: int| 0 <= i < k ==> !enabled@.contains(#[trigger] features@[i]),
        decreases features.len() - k,
    {
        let mut e: usize = 0;
        let f = features[k];
        while e < enabled.len()
            invariant
                e <= enabled@.len(),
                k < features@.len(),
                f == features@[k as int],
                forall|i: int| 0 <= i < e ==> enabled@[i] != f,
            decreases enabled.len() - e,
        {
            if enabled[e] == f {
                assert(enabled@[e as int] == features@[k as int]);
                assert(enabled@.contains(features@[k as int]));
                return true;
            }
            e = e + 1;
        }
        k = k + 1;
    }
    false
}

fn rule_cost<F: Fn(&str) -> u32>(terms: &Vec<(&'static str, u32)>, instruction_cost: &F, scale: u32) -> (r: u32)
    requires
        forall|m: &str| instruction_cost.requires((m,)),
    ensures
        exists|latencies: Seq<u32>| {
            &&& latencies.len() == terms@.len()
            &&& (forall|j: int| 0 <= j < latencies.len() ==> instruction_cost.ensures((terms@[j].0,), #[trigger] latencies[j]))
            &&& r == cost_sum(terms@, latencies, scale)
        },
{
    let mut total: u32 = 0;
    let ghost mut latencies: Seq<u32> = Seq::empty();
    let mut k: usize = 0;
    while k < terms.len()
        invariant
            k <= terms@.len(),
            forall|m: &str| instruction_cost.requires((m,)),
            latencies.len() == k,
            forall|j: int| 0 <= j < k ==> instruction_cost.ensures((terms@[j].0,), #[trigger] latencies[j]),
            total == cost_sum(terms@.subrange(0, k as int), latencies, scale),
        decreases terms.len() - k,
    {
        let (mnemonic, bytes) = terms[k];
        let latency = instruction_cost(mnemonic);
        let ghost before = latencies;
        proof {
            latencies = latencies.push(latency);
            assert(terms@.subrange(0, k + 1).subrange(0, k as int) =~= terms@.subrange(0, k as int));
            assert(latencies.subrange(0, k as int) =~= before);
        }
        total = total.wrapping_add(latency.wrapping_mul(scale).wrapping_add(bytes));
        k = k + 1;
    }
    assert(terms@.subrange(0, terms@.len() as int) =~= terms@);
    total
}

fn operand_registers(
    register_widths: &[(&str, u32)],
    classes: &[RegClassInfo],
    registers: &Vec<RegOperandSpec>,
) -> (r: Vec<(u32, RegisterRequirement)>)
    requires
        forall|i: int| 0 <= i < registers@.len() ==> (#[trigger] registers@[i]).class.0 < classes@.len(),
    ensures
        r@ == operand_requirements(register_widths@, classes@, registers@),
{
    let mut out: Vec<(u32, RegisterRequirement)> = Vec::new();
    let mut k: usize = 0;
    while k < registers.len()
        invariant
            k <= registers@.len(),
            forall|i: int| 0 <= i < registers@.len() ==> (#[trigger] registers@[i]).class.0 < classes@.len(),
            out@ == operand_requirements(register_widths@, classes@, registers@.subrange(0, k as int)),
        decreases registers.len() - k,
    {
        let reg = registers[k];
        proof {
            assert(registers@.subrange(0, k + 1).subrange(0, k as int) =~= registers@.subrange(0, k as int));
            assert(registers@.subrange(0, k + 1)[k as int] == reg);
            assert(registers@[k as int].class.0 < classes@.len());
        }
        match requirement(register_widths, classes, reg.class, reg.whole, reg.capability) {
            Some(req) => out.push((reg.symbol, req)),
            None => {},
        }
        k = k + 1;
    }
    assert(registers@.subrange(0, registers@.len() as int) =~= registers@);
    out
}

/// `rules` are the specs among the first `upto` of `specs` whose features
/// are enabled, at the positions `kept`, each resolved.
pub open spec fn kept_rules<F: Fn(&str) -> u32>(
    rules: Seq<BuiltRule>,
    specs: Seq<RuleSpec>,
    enabled: Seq<u16>,
    widths: Seq<(&str, u32)>,
    classes: Seq<RegClassInfo>,
    instruction_cost: F,
    scale: u32,
    kept: Seq<int>,
    upto: int,
) -> bool {
    &&& kept.len() == rules.len()
    &&& forall|a: int, b: int| 0 <= a < b < kept.len() ==> #[trigger] kept[a] < #[trigger] kept[b]
    &&& forall|a: int| 0 <= a < kept.len() ==> 0 <= #[trigger] kept[a] < upto
    &&& forall|a: int| 0 <= a < kept.len() ==> built_from(#[trigger] &rules[a], &specs[kept[a]], widths, classes, instruction_cost, scale)
    &&& forall|i: int| 0 <= i < upto ==> (rule_enabled(specs[i].features@, enabled) <==> #[trigger] kept.contains(i))
}

/// Build the rules available under `enabled_features` from the backend's
/// spec table, in table order: each rule's cost from `instruction_cost`
/// (the latency of a mnemonic) scaled by `latency_scale` plus its encoding
/// bytes, and its register requirements under `register_widths`.
pub fn build_rules<F: Fn(&str) -> u32>(
    enabled_features: &[u16],
    register_widths: &[(&str, u32)],
    classes: &[RegClassInfo],
    instruction_cost: F,
    latency_scale: u32,
    specs: &[RuleSpec],
) -> (r: Vec<BuiltRule>)
    requires
        forall|m: &str| instruction_cost.requires((m,)),
        forall|i: int| 0 <= i < specs@.len() ==> rule_classes_known(classes@, #[trigger] &specs@[i]),
    ensures
        exists|kept: Seq<int>| #[trigger] kept_rules(r@, specs@, enabled_features@, register_widths@, classes@, instruction_cost, latency_scale, kept, specs@.len() as int),
{
    let mut rules: Vec<BuiltRule> = Vec::new();
    let ghost mut kept: Seq<int> = Seq::empty();
    let mut k: usize = 0;
    while k < specs.len()
        invariant
            k <= specs@.len(),
            forall|m: &str| instruction_cost.requires((m,)),
            forall|i: int| 0 <= i < specs@.len() ==> rule_classes_known(classes@, #[trigger] &specs@[i]),
            kept_rules(rules@, specs@, enabled_features@, register_widths@, classes@, instruction_cost, latency_scale, kept, k as int),
        decreases specs.len() - k,
    {
        let spec = &specs[k];
        proof {
            assert(rule_classes_known(classes@, &specs@[k as int]));
        }
        if feature_enabled(&spec.features, enabled_features) {
            let base_cost = rule_cost(&spec.cost_terms, &instruction_cost, latency_scale);
            let operand_regs = operand_registers(register_widths, classes, &spec.registers);
            let result_register = match spec.result {
                Some(res) => requirement(register_widths, classes, res.class, false, res.capability),
                None => None,
            };
            let built = BuiltRule {
                name: spec.name,
                pattern: spec.pattern,
                base_cost,
                operand_registers: operand_regs,
                result_register,
                float_constant_width: spec.pattern.float_width,
                guarded: spec.guarded,
            };
            let ghost old_kept = kept;
            let ghost old_rules = rules@;
            rules.push(built);
            proof {
                kept = kept.push(k as int);
                assert forall|i: int| 0 <= i < k + 1 implies (rule_enabled(specs@[i].features@, enabled_features@) <==> #[trigger] kept.contains(i)) by {
                    if i < k {
                        if old_kept.contains(i) {
                            let w = choose|w: int| 0 <= w < old_kept.len() && old_kept[w] == i;
                            assert(kept[w] == i);
                        }
                        if kept.contains(i) {
                            let w = choose|w: int| 0 <= w < kept.len() && kept[w] == i;
                            assert(w < old_kept.len());
                            assert(old_kept[w] == i);
                        }
                    } else {
                        assert(kept[old_kept.len() as int] == i);
                    }
                }
                assert forall|a: int| 0 <= a < kept.len() implies built_from(#[trigger] &rules@[a], &specs@[kept[a]], register_widths@, classes@, instruction_cost, latency_scale) by {
                    if a < old_kept.len() {
                        assert(rules@[a] == old_rules[a]);
                    }
                }
            }
        } else {
            proof {
                assert forall|i: int| 0 <= i < k + 1 implies (rule_enabled(specs@[i].features@, enabled_features@) <==> #[trigger] kept.contains(i)) by {
                    if i == k && kept.contains(i) {
                        let w = choose|w: int| 0 <= w < kept.len() && kept[w] == i;
                        assert(kept[w] < k);
                    }
                }
            }
        }
        k = k + 1;
    }
    rules
}

} // verus!
