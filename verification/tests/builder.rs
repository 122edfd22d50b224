use tir::attributes::{AttributeValue, NamedAttribute};
use tir::builder::IRBuilder;
use tir::context::{Context, OpInstance};
use tir::ids::{BlockId, OpId};
use tir::rules::PassError;
use tir::target_boilerplate::{block_attr, string_attr};

fn op(context: &mut Context, name: &str) -> OpId {
    let instance = OpInstance {
        id: OpId(0),
        dialect: "builtin".to_string(),
        name: name.to_string(),
        operands: vec![],
        results: vec![],
        regions: vec![],
        attributes: vec![],
    };
    context.add_operation(instance, vec![])
}

#[test]
fn a_builder_appends_in_order() {
    let mut context = Context::new();
    let block = context.create_block(vec![]);
    let mut builder = IRBuilder::new(block);
    let a = op(&mut context, "a");
    let b = op(&mut context, "b");
    builder.insert(&mut context, a);
    builder.insert(&mut context, b);
    assert_eq!(context.get_block(block).op_ids(), vec![a, b]);
    assert_eq!(context.parent_block(b), Some(block));
}

#[test]
fn a_builder_at_the_start_inserts_before_what_is_there() {
    let mut context = Context::new();
    let block = context.create_block(vec![]);
    let existing = op(&mut context, "existing");
    context.append_op(block, existing);
    let mut builder = IRBuilder::new(BlockId(99));
    builder.set_insertion_point_to_start(block);
    let a = op(&mut context, "a");
    let b = op(&mut context, "b");
    builder.insert(&mut context, a);
    builder.insert(&mut context, b);
    assert_eq!(context.get_block(block).op_ids(), vec![a, b, existing]);
    assert_eq!(builder.position, Some(2));
}

#[test]
fn branch_and_call_attributes_are_read_or_reported() {
    let mut instance = OpInstance {
        id: OpId(0),
        dialect: "builtin".to_string(),
        name: "br".to_string(),
        operands: vec![],
        results: vec![],
        regions: vec![],
        attributes: vec![],
    };
    assert_eq!(
        block_attr(&instance, "dest"),
        Err(PassError::InvalidRuleSet("branch is missing its 'dest' target".to_string()))
    );
    assert_eq!(
        string_attr(&instance, "callee"),
        Err(PassError::InvalidRuleSet("call is missing its 'callee'".to_string()))
    );
    instance.attributes = vec![
        NamedAttribute::new("dest".to_string(), AttributeValue::Block(BlockId(3))),
        NamedAttribute::new("callee".to_string(), AttributeValue::Str("memcpy".to_string())),
    ];
    assert_eq!(block_attr(&instance, "dest"), Ok(BlockId(3)));
    assert_eq!(string_attr(&instance, "callee"), Ok("memcpy".to_string()));
    // An attribute of the wrong kind is missing too.
    assert!(block_attr(&instance, "callee").is_err());
}
