use tir::abi::{RegClassId, RegClassInfo};
use tir::attributes::{find_attr, AttributeRole, AttributeValue, RegisterAttr};
use tir::context::Context;
use tir::ids::{BlockId, OpId, ValueId};
use tir::isel::{
    assign_rule_ids, specificity_adjusted_cost, DefaultIselCostModel, DefaultTargetIselModel,
    IselCostModel, RuleMatch, SelectionPressure, TargetIselModel,
};
use tir::rules::{
    build_rules, emit_into, emit_with, requirement, CapabilityKind, EmitAttr, EmitRequest, EmitSpec,
    PassError, PatternRef, RegOperandSpec, RegisterCapability, RegisterRequirement, ResultRegSpec,
    RuleSpec,
};

const R_CLASS: RegClassInfo = RegClassInfo { name: "R", view_bit_offset: 0 };

fn r() -> RegClassId {
    RegClassId(0)
}

fn spec(attrs: Vec<EmitAttr>, declared: Vec<&'static str>) -> EmitSpec {
    EmitSpec { op: ("builtin", "constant"), attrs, declared }
}

#[test]
fn emit_binds_each_attr_source() {
    let attrs = vec![
        EmitAttr::Result { attr: "rd", result: 0, class: r() },
        EmitAttr::Value { attr: "rs1", symbol: 0, class: r() },
        EmitAttr::FixedUse { attr: "rs2", symbol: 1, class: r(), index: 3 },
        EmitAttr::Physical { attr: "rs3", class: r(), index: 0 },
        EmitAttr::Int { attr: "value", symbol: 2 },
    ];
    let spec = spec(attrs, vec!["rd", "rs1", "rs2", "rs3", "value"]);
    let req = EmitRequest { op: None, results: vec![ValueId::from_number(42)] };
    let m = RuleMatch::new(
        vec![(2, 7)],
        vec![(0, ValueId::from_number(5)), (1, ValueId::from_number(9))],
    );
    let op = emit_with(&[R_CLASS], &req, &m, &spec).unwrap();
    assert_eq!(op.op.1, "constant");
    let expect = |name: &str, value: AttributeValue| {
        assert_eq!(find_attr(&op.attributes, name), Some(&value), "attr {name}");
    };
    expect("rd", AttributeValue::Register(RegisterAttr::Virtual { id: 42, class: Some("R".to_string()) }));
    expect("rs1", AttributeValue::Register(RegisterAttr::Virtual { id: 5, class: Some("R".to_string()) }));
    expect("rs2", AttributeValue::Register(RegisterAttr::FixedUse { id: 9, class: "R".to_string(), index: 3 }));
    expect("rs3", AttributeValue::Register(RegisterAttr::Physical { class: "R".to_string(), index: 0 }));
    expect("value", AttributeValue::Int(7));
}

#[test]
fn emit_fails_on_missing_binding() {
    let spec = spec(vec![EmitAttr::Int { attr: "value", symbol: 7 }], vec!["value"]);
    let req = EmitRequest { op: None, results: vec![] };
    let m = RuleMatch::new(vec![], vec![]);
    assert!(emit_with(&[R_CLASS], &req, &m, &spec).is_err());
}

#[test]
fn emit_int_or_value_prefers_constant() {
    let spec = spec(vec![EmitAttr::IntOrValue { attr: "value", symbol: 3 }], vec!["value"]);
    let req = EmitRequest { op: None, results: vec![] };
    let m = RuleMatch::new(vec![(3, 4)], vec![]);
    let op = emit_with(&[R_CLASS], &req, &m, &spec).unwrap();
    assert_eq!(find_attr(&op.attributes, "value"), Some(&AttributeValue::Int(4)));

    let m = RuleMatch::new(vec![], vec![(3, ValueId::from_number(11))]);
    let op = emit_with(&[R_CLASS], &req, &m, &spec).unwrap();
    assert_eq!(
        find_attr(&op.attributes, "value"),
        Some(&AttributeValue::Register(RegisterAttr::Virtual { id: 11, class: None }))
    );
}

#[test]
fn emit_fixed_def_and_block_and_missing_result() {
    let attrs = vec![
        EmitAttr::ResultFixedDef { attr: "rd", result: 0, class: r(), index: 10 },
        EmitAttr::Block { attr: "target", symbol: 4 },
    ];
    let spec = spec(attrs, vec!["rd", "target"]);
    let req = EmitRequest { op: Some(OpId(3)), results: vec![ValueId::from_number(8)] };
    let m = RuleMatch::new(vec![], vec![]).with_block_bindings(vec![(4, BlockId(6))]);
    let op = emit_with(&[R_CLASS], &req, &m, &spec).unwrap();
    assert_eq!(op.attributes[0].name, "rd");
    assert_eq!(
        op.attributes[0].value,
        AttributeValue::Register(RegisterAttr::FixedDef { id: 8, class: "R".to_string(), index: 10 })
    );
    assert_eq!(op.attributes[1].value, AttributeValue::Block(BlockId(6)));

    let no_results = EmitRequest { op: Some(OpId(3)), results: vec![] };
    match emit_with(&[R_CLASS], &no_results, &m, &spec) {
        Err(e) => assert_eq!(e, PassError::RewriteFailed(Some(OpId(3)))),
        Ok(_) => panic!("a missing result must fail"),
    }
}

#[test]
fn rule_match_reads_first_binding() {
    let m = RuleMatch::new(
        vec![(1, u64::MAX), (1, 3)],
        vec![(2, ValueId(7)), (2, ValueId(8))],
    );
    assert_eq!(m.int_binding(1), Some(-1));
    assert_eq!(m.value_binding(2), Some(ValueId(7)));
    assert_eq!(m.value_binding(3), None);
    assert_eq!(m.block_binding(1), None);
}

const LATENCY_COST_SCALE: u32 = 16;

fn rule_spec(features: Vec<u16>) -> RuleSpec {
    RuleSpec {
        name: "inst",
        features,
        pattern: PatternRef { offset: 0, typed: false, float_width: None },
        cost_terms: vec![("add", 4)],
        registers: vec![],
        result: None,
        guarded: None,
    }
}

#[test]
fn build_rules_gates_on_any_feature() {
    let gated = rule_spec(vec![1, 2]);
    let open = rule_spec(vec![]);
    let cost = |_: &str| 3u32;
    let specs = [gated, open];

    let rules = build_rules(&[2], &[], &[R_CLASS], cost, LATENCY_COST_SCALE, &specs);
    assert_eq!(rules.len(), 2);
    let rules = build_rules(&[9], &[], &[R_CLASS], cost, LATENCY_COST_SCALE, &specs);
    assert_eq!(rules.len(), 1);
    assert_eq!(rules[0].base_cost, 3 * LATENCY_COST_SCALE + 4);
}

#[test]
fn build_rules_resolves_register_widths() {
    let wide = RegClassInfo { name: "W", view_bit_offset: 8 };
    let mut spec = rule_spec(vec![]);
    spec.registers = vec![RegOperandSpec { symbol: 0, class: r(), whole: true, capability: CapabilityKind::Integer }];
    spec.result = Some(ResultRegSpec { class: RegClassId(1), capability: CapabilityKind::Any });
    let rules = build_rules(&[], &[("R", 32)], &[R_CLASS, wide], |_: &str| 0, LATENCY_COST_SCALE, &[spec]);
    assert_eq!(rules.len(), 1);
    // `W` has no width under the enabled features: the result register
    // requirement drops out, the known-class operand keeps its width.
    assert_eq!(rules[0].operand_registers.len(), 1);
    assert!(rules[0].result_register.is_none());
    assert_eq!(rules[0].operand_registers[0].0, 0);
}

#[test]
fn build_rules_sums_cost_terms_per_mnemonic() {
    let mut spec = rule_spec(vec![]);
    spec.cost_terms = vec![("mul", 4), ("add", 2)];
    let cost = |m: &str| if m == "mul" { 3u32 } else { 1u32 };
    let rules = build_rules(&[], &[], &[R_CLASS], cost, 10, &[spec]);
    assert_eq!(rules[0].base_cost, (3 * 10 + 4) + (1 * 10 + 2));
    assert_eq!(rules[0].name, "inst");
}

#[test]
fn requirement_reads_width_and_view_offset() {
    let classes = [R_CLASS, RegClassInfo { name: "V", view_bit_offset: 64 }];
    assert_eq!(
        requirement(&[("V", 128), ("R", 64)], &classes, RegClassId(1), false, CapabilityKind::Float),
        Some(RegisterRequirement {
            capability: RegisterCapability { kind: CapabilityKind::Float, width: 128 },
            whole: false,
            view_offset: 64,
        })
    );
    assert_eq!(requirement(&[("V", 128)], &classes, RegClassId(0), true, CapabilityKind::Integer), None);
}

#[test]
fn specificity_breaks_ties_without_overriding_cost() {
    assert_eq!(specificity_adjusted_cost(10, 0), 80);
    assert_eq!(specificity_adjusted_cost(10, 1), 79);
    assert_eq!(specificity_adjusted_cost(10, 100), 73);
    assert!(specificity_adjusted_cost(9, 100) < specificity_adjusted_cost(10, 0));
    assert_eq!(specificity_adjusted_cost(0, 3), 0);
    assert_eq!(specificity_adjusted_cost(u64::MAX, 2), u64::MAX - 2);
}

#[test]
fn default_models_keep_historical_behaviour() {
    let target = DefaultTargetIselModel;
    assert_eq!(target.subtarget(), "generic");
    assert!(target.is_pbqp_enabled());
    assert!(target.supports_rule(assign_rule_ids(3)[2]));
    assert_eq!(target.estimate_register_pressure(4), 4);
    let model = DefaultIselCostModel;
    let pressure = SelectionPressure { estimated_live_operands: 2, estimated_register_pressure: 9 };
    assert_eq!(model.node_cost(5, 7, &pressure), 12);
    assert_eq!(model.edge_cost(true), 0);
    let ids = assign_rule_ids(3);
    assert_eq!(ids.iter().map(|id| id.index()).collect::<Vec<_>>(), vec![0, 1, 2]);
}

#[test]
fn emit_into_adds_the_instruction_to_the_context() {
    let spec = spec(vec![EmitAttr::Int { attr: "value", symbol: 2 }], vec!["value"]);
    let req = EmitRequest { op: None, results: vec![] };
    let m = RuleMatch::new(vec![(2, 7)], vec![]);
    let mut ctx = Context::new();
    let roles = vec![("value".to_string(), AttributeRole::NoRole)];
    let first = emit_into(&mut ctx, &[R_CLASS], &req, &m, &spec, roles.clone()).unwrap();
    let second = emit_into(&mut ctx, &[R_CLASS], &req, &m, &spec, roles.clone()).unwrap();
    assert_ne!(first, second);
    let op = ctx.get_op(first);
    assert_eq!((op.dialect.as_str(), op.name.as_str()), ("builtin", "constant"));
    assert!(op.operands.is_empty() && op.results.is_empty() && op.regions.is_empty());
    assert_eq!(find_attr(&op.attributes, "value"), Some(&AttributeValue::Int(7)));

    let missing = RuleMatch::new(vec![], vec![]);
    let failing = EmitRequest { op: Some(first), results: vec![] };
    assert_eq!(
        emit_into(&mut ctx, &[R_CLASS], &failing, &missing, &spec, roles),
        Err(PassError::RewriteFailed(Some(first)))
    );
    assert!(ctx.has_operation(second));
}
