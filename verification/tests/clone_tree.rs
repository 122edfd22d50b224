use tir::attributes::{AttributeRole, AttributeValue, NamedAttribute, RegisterAttr};
use tir::clone::{clone_op, clone_region, OpRoles};
use tir::context::{Context, OpInstance};
use tir::ids::{BlockId, OpId, RegionId, TypeId, ValueId};

const I32: TypeId = TypeId(32);
const I1: TypeId = TypeId(1);

fn op(context: &mut Context, name: &str, operands: Vec<ValueId>, results: Vec<ValueId>, regions: Vec<RegionId>, attributes: Vec<NamedAttribute>) -> OpId {
    let instance = OpInstance {
        id: OpId(0),
        dialect: "builtin".to_string(),
        name: name.to_string(),
        operands,
        results,
        regions,
        attributes,
    };
    context.add_operation(instance, vec![])
}

/// `func { ^a(%x): %y = addi %x, %outer; br ^b  ^b: return %y }`, with
/// `%outer` defined outside the function.
fn function(context: &mut Context) -> (OpId, ValueId, ValueId, ValueId, BlockId, BlockId) {
    let outer = context.create_value(I32, None);
    let region = context.create_region();
    let x = context.create_value(I32, None);
    let a = context.create_block(vec![x.id]);
    let b = context.create_block(vec![]);
    context.add_block(region, a);
    context.add_block(region, b);
    let y = context.create_value(I32, None);
    let add = op(context, "addi", vec![x.id, outer.id], vec![y.id], vec![], vec![]);
    context.append_op(a, add);
    let br = op(context, "br", vec![], vec![], vec![], vec![NamedAttribute::new("dest".to_string(), AttributeValue::Block(b))]);
    context.append_op(a, br);
    let ret = op(context, "return", vec![y.id], vec![], vec![], vec![]);
    context.append_op(b, ret);
    let func = op(context, "func", vec![], vec![], vec![region], vec![]);
    (func, outer.id, x.id, y.id, a, b)
}

#[test]
fn cloning_an_op_copies_its_subtree() {
    let mut context = Context::new();
    let (func, outer, x, y, a, b) = function(&mut context);
    let copy = clone_op(&mut context, func, &vec![]);

    assert_ne!(copy, func);
    let copied = context.get_op(copy);
    assert_eq!(copied.name, "func");
    assert_eq!(copied.regions.len(), 1);
    let region = copied.regions[0];
    assert_ne!(region, context.get_op(func).regions[0]);
    assert_eq!(context.get_region(region).parent_op, Some(copy));
    let blocks = context.get_region(region).blocks.clone();
    assert_eq!(blocks.len(), 2);
    assert!(!blocks.contains(&a) && !blocks.contains(&b));
    assert_eq!(context.parent_region(blocks[0]), Some(region));

    let first = context.get_block(blocks[0]);
    assert_eq!(first.arguments.len(), 1);
    let x_copy = first.arguments[0];
    assert_ne!(x_copy, x);
    assert_eq!(context.get_value(x_copy).ty, I32);
    let ops = first.op_ids();
    assert_eq!(ops.len(), 2);

    // Uses inside the copy move onto the copies; uses of outside values stay.
    let add = context.get_op(ops[0]);
    assert_eq!(add.name, "addi");
    assert_eq!(add.operands, vec![x_copy, outer]);
    let y_copy = add.results[0];
    assert_ne!(y_copy, y);
    assert_eq!(context.get_value(y_copy).defining_op, Some(ops[0]));

    // Branch targets move onto the copied blocks.
    let br = context.get_op(ops[1]);
    assert_eq!(br.attributes[0].value, AttributeValue::Block(blocks[1]));

    let ret = context.get_block(blocks[1]).op_ids();
    assert_eq!(context.get_op(ret[0]).operands, vec![y_copy]);
    assert_eq!(context.parent_op(ret[0]), Some(copy));

    // The source is untouched.
    assert_eq!(context.get_block(a).op_ids().len(), 2);
    assert_eq!(context.get_value(y).defining_op.is_some(), true);
    assert_eq!(context.parent_block(copy), None);
}

#[test]
fn cloning_bumps_no_version_and_dirties_nothing() {
    let mut context = Context::new();
    let (func, ..) = function(&mut context);
    context.take_dirty_ops();
    let version = context.op_version(func);
    clone_op(&mut context, func, &vec![]);
    assert_eq!(context.op_version(func), version);
    assert!(context.take_dirty_ops().is_empty());
}

#[test]
fn cloning_a_region_gives_an_unowned_copy() {
    let mut context = Context::new();
    let (func, ..) = function(&mut context);
    let region = context.get_op(func).regions[0];
    let copy = clone_region(&mut context, region, &vec![]);
    assert_ne!(copy, region);
    assert_eq!(context.get_region(copy).parent_op, None);
    assert_eq!(context.get_region(copy).blocks.len(), 2);
}

#[test]
fn cloned_ops_take_their_register_roles() {
    let mut context = Context::new();
    let reg = context.create_value(I32, None);
    let cond = context.create_value(I1, None);
    let li = op(
        &mut context,
        "li",
        vec![cond.id],
        vec![],
        vec![],
        vec![NamedAttribute::new("rd".to_string(), AttributeValue::Register(RegisterAttr::Virtual { id: reg.id.0, class: None }))],
    );
    let table = vec![OpRoles { dialect: "builtin".to_string(), name: "li".to_string(), roles: vec![("rd".to_string(), AttributeRole::Def)] }];
    let copy = clone_op(&mut context, li, &table);
    // The register attribute is carried over as it was, and names the copy
    // as the def-site of its value.
    assert_eq!(context.get_value(reg.id).defining_op, Some(copy));
    assert_eq!(context.get_op(copy).operands, vec![cond.id]);
}
