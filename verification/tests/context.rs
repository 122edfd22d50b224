use tir::attributes::{AttributeRole, AttributeValue, NamedAttribute, RegisterAttr};
use tir::context::{Context, OpInstance, StagedRegion};
use tir::ids::{BlockId, OpId, RegionId, TypeId, ValueId};

const I32: TypeId = TypeId(32);

fn instance(name: &str, operands: Vec<ValueId>, results: Vec<ValueId>, regions: Vec<RegionId>) -> OpInstance {
    OpInstance {
        id: OpId(0),
        dialect: "builtin".to_string(),
        name: name.to_string(),
        operands,
        results,
        regions,
        attributes: vec![],
    }
}

fn add_op(context: &mut Context, name: &str, operands: Vec<ValueId>, results: Vec<ValueId>, regions: Vec<RegionId>) -> OpId {
    context.add_operation(instance(name, operands, results, regions), vec![])
}

fn ret(context: &mut Context) -> OpId {
    add_op(context, "return", vec![], vec![], vec![])
}

/// `module { func demo { ^entry: } }`: the func body sits two regions deep,
/// so an edit there must reach the module to show the bump climbs root-ward.
fn module_with_function(context: &mut Context) -> (OpId, OpId, BlockId) {
    let region = context.create_region();
    let block = context.create_block(vec![]);
    context.add_block(region, block);
    let func = add_op(context, "func", vec![], vec![], vec![region]);
    let module_region = context.create_region();
    let module_block = context.create_block(vec![]);
    context.add_block(module_region, module_block);
    let module = add_op(context, "module", vec![], vec![], vec![module_region]);
    context.append_op(module_block, func);
    (module, func, block)
}

/// Runs `edit` and asserts it bumped the versions of both enclosing ops.
fn assert_bumps_spine(context: &mut Context, module: OpId, func: OpId, edit: impl FnOnce(&mut Context)) {
    let module_before = context.op_version(module);
    let func_before = context.op_version(func);
    edit(context);
    assert!(context.op_version(func) > func_before, "the edited op's owner must be dirtied");
    assert!(context.op_version(module) > module_before, "the bump must propagate root-ward");
}

#[test]
fn default_context() {
    let context = Context::new();
    assert!(!context.has_operation(OpId(0)));
    assert_eq!(context.op_version(OpId(0)), 0);
}

#[test]
fn appending_an_op_bumps_the_spine() {
    let mut context = Context::new();
    let (module, func, body) = module_with_function(&mut context);
    let r = ret(&mut context);
    assert_bumps_spine(&mut context, module, func, |c| c.append_op(body, r));
    assert_eq!(context.get_block(body).op_ids(), vec![r]);
}

#[test]
fn inserting_an_op_bumps_the_spine() {
    let mut context = Context::new();
    let (module, func, body) = module_with_function(&mut context);
    let r = ret(&mut context);
    assert_bumps_spine(&mut context, module, func, |c| c.insert_op(body, 0, r));
    assert_eq!(context.parent_block(r), Some(body));
}

#[test]
fn removing_an_op_bumps_the_spine() {
    let mut context = Context::new();
    let (module, func, body) = module_with_function(&mut context);
    let r = ret(&mut context);
    context.append_op(body, r);
    assert_bumps_spine(&mut context, module, func, |c| {
        assert!(c.remove_op_from_block(body, r));
    });
    assert!(context.get_block(body).is_empty());
}

#[test]
fn replacing_an_op_bumps_the_spine() {
    let mut context = Context::new();
    let (module, func, body) = module_with_function(&mut context);
    let old = ret(&mut context);
    context.append_op(body, old);
    let new = ret(&mut context);
    assert_bumps_spine(&mut context, module, func, |c| {
        assert!(c.replace_op_in_block(body, old, new));
    });
    assert_eq!(context.get_block(body).op_ids(), vec![new]);
}

#[test]
fn appending_a_block_argument_bumps_the_spine() {
    let mut context = Context::new();
    let (module, func, body) = module_with_function(&mut context);
    let mut argument = None;
    assert_bumps_spine(&mut context, module, func, |c| {
        argument = Some(c.append_block_argument(body, I32));
    });
    let argument = argument.unwrap();
    assert_eq!(context.get_block(body).arguments, vec![argument.id]);
    assert!(context.is_block_argument(argument.id));
    assert_eq!(argument.ty, I32);
}

#[test]
fn setting_a_block_attribute_bumps_the_spine() {
    let mut context = Context::new();
    let (module, func, body) = module_with_function(&mut context);
    assert_bumps_spine(&mut context, module, func, |c| {
        c.set_block_attr(body, "fpmath".to_string(), AttributeValue::Bool(true));
    });
    assert_eq!(context.get_block(body).attr("fpmath"), Some(&AttributeValue::Bool(true)));
    context.set_block_attr(body, "fpmath".to_string(), AttributeValue::Bool(false));
    assert_eq!(context.get_block(body).attributes.len(), 1);
    assert_eq!(context.get_block(body).attr("fpmath"), Some(&AttributeValue::Bool(false)));
}

#[test]
fn adding_a_block_to_a_region_bumps_the_spine() {
    let mut context = Context::new();
    let (module, func, _) = module_with_function(&mut context);
    let region = context.get_op(func).regions[0];
    let extra = context.create_block(vec![]);
    assert_bumps_spine(&mut context, module, func, |c| c.add_block(region, extra));
    assert_eq!(context.get_region(region).blocks.len(), 2);
    assert_bumps_spine(&mut context, module, func, |c| {
        assert!(c.remove_block(region, extra));
    });
    assert_eq!(context.get_region(region).blocks.len(), 1);
}

#[test]
fn setting_op_attributes_bumps_the_spine() {
    let mut context = Context::new();
    let (module, func, body) = module_with_function(&mut context);
    let r = ret(&mut context);
    context.append_op(body, r);
    assert_bumps_spine(&mut context, module, func, |c| c.set_op_attributes(r, vec![]));
    assert!(context.get_op(r).attributes.is_empty());
}

#[test]
fn setting_an_operand_bumps_the_spine() {
    let mut context = Context::new();
    let (module, func, body) = module_with_function(&mut context);
    let a = context.create_value(I32, None);
    let b = context.create_value(I32, None);
    let sum = context.create_value(I32, None);
    let add = add_op(&mut context, "addi", vec![a.id, a.id], vec![sum.id], vec![]);
    context.append_op(body, add);
    assert_bumps_spine(&mut context, module, func, |c| c.set_op_operand(add, 1, b.id));
    assert_eq!(context.get_op(add).operands, vec![a.id, b.id]);
    assert_bumps_spine(&mut context, module, func, |c| c.set_op_operands(add, vec![b.id, b.id]));
    assert_eq!(context.get_op(add).operands, vec![b.id, b.id]);
}

#[test]
fn setting_an_operand_to_itself_changes_nothing() {
    let mut context = Context::new();
    let (module, func, body) = module_with_function(&mut context);
    let a = context.create_value(I32, None);
    let add = add_op(&mut context, "addi", vec![a.id, a.id], vec![], vec![]);
    context.append_op(body, add);
    let before = (context.op_version(module), context.op_version(func));
    context.set_op_operand(add, 1, a.id);
    context.set_op_operand(add, 5, a.id);
    assert_eq!((context.op_version(module), context.op_version(func)), before);
}

#[test]
fn an_edit_dirties_only_its_own_subtree() {
    let mut context = Context::new();
    let (_, func, body) = module_with_function(&mut context);
    let (_, untouched, _) = module_with_function(&mut context);
    context.take_dirty_ops();

    let r = ret(&mut context);
    context.append_op(body, r);

    let dirty = context.take_dirty_ops();
    assert_eq!(dirty, vec![func], "only the edited subtree is verified");
    assert!(!dirty.contains(&untouched));
    assert!(context.take_dirty_ops().is_empty(), "draining leaves nothing behind");
}

#[test]
fn dirty_ops_come_out_sorted_without_repeats() {
    let mut context = Context::new();
    let (_, first, first_body) = module_with_function(&mut context);
    let (_, second, second_body) = module_with_function(&mut context);
    context.take_dirty_ops();
    let a = ret(&mut context);
    let b = ret(&mut context);
    let c = ret(&mut context);
    context.append_op(second_body, a);
    context.append_op(first_body, b);
    context.append_op(second_body, c);
    assert_eq!(context.take_dirty_ops(), vec![first, second]);
}

#[test]
fn an_untouched_function_keeps_its_version() {
    let mut context = Context::new();
    let (_, edited, body) = module_with_function(&mut context);
    let (_, untouched, _) = module_with_function(&mut context);
    let before = context.op_version(untouched);

    let r = ret(&mut context);
    context.append_op(body, r);

    assert!(context.op_version(edited) > 0);
    assert_eq!(context.op_version(untouched), before);
}

#[test]
fn parent_block_tracks_membership() {
    let mut context = Context::new();
    let a = context.create_value(I32, None);
    let b = context.create_value(I32, None);

    let block = context.create_block(vec![]);
    let add = add_op(&mut context, "addi", vec![a.id, b.id], vec![], vec![]);
    context.append_op(block, add);

    // Inserting into a block records the parent, reachable from just the op.
    assert_eq!(context.parent_block(add), Some(block));

    // Replacing swaps the parent over to the new op; the old op is detached.
    let sub = add_op(&mut context, "subi", vec![a.id, b.id], vec![], vec![]);
    assert!(context.replace_op_in_block(block, add, sub));
    assert_eq!(context.parent_block(add), None);
    assert_eq!(context.parent_block(sub), Some(block));

    // Removing clears it.
    assert!(context.remove_op_from_block(block, sub));
    assert_eq!(context.parent_block(sub), None);
    assert!(!context.remove_op_from_block(block, sub));
}

#[test]
fn parent_region_tracks_membership() {
    let mut context = Context::new();
    let region = context.create_region();
    let block = context.create_block(vec![]);

    context.add_block(region, block);
    assert_eq!(context.parent_region(block), Some(region));

    assert!(context.remove_block(region, block));
    assert_eq!(context.parent_region(block), None);
    assert!(!context.remove_block(region, block));
}

#[test]
fn parent_op_climbs_through_block_and_region() {
    let mut context = Context::new();
    let (module, func, body) = module_with_function(&mut context);
    let r = ret(&mut context);
    context.append_op(body, r);
    assert_eq!(context.parent_op(r), Some(func));
    assert_eq!(context.parent_op(func), Some(module));
    assert_eq!(context.parent_op(module), None);
}

#[test]
fn adding_an_operation_records_its_definitions() {
    let mut context = Context::new();
    let result = context.create_value(I32, None);
    let register = context.create_value(I32, None);
    let untouched = context.create_value(I32, None);
    let region = context.create_region();
    let mut op = instance("li", vec![], vec![result.id], vec![region]);
    op.attributes = vec![
        NamedAttribute::new("rd".to_string(), AttributeValue::Register(RegisterAttr::Virtual { id: register.id.0, class: None })),
        NamedAttribute::new("rs".to_string(), AttributeValue::Register(RegisterAttr::Virtual { id: untouched.id.0, class: None })),
    ];
    let roles = vec![("rd".to_string(), AttributeRole::Def), ("rs".to_string(), AttributeRole::Use)];
    let id = context.add_operation(op, roles);
    assert_eq!(context.get_op(id).id, id);
    assert_eq!(context.get_value(result.id).defining_op, Some(id));
    assert_eq!(context.get_value(register.id).defining_op, Some(id));
    assert_eq!(context.get_value(untouched.id).defining_op, None);
    assert_eq!(context.get_region(region).parent_op, Some(id));
}

#[test]
fn removing_an_operation_empties_its_slot() {
    let mut context = Context::new();
    let r = ret(&mut context);
    assert!(context.has_operation(r));
    context.remove_operation(r);
    assert!(!context.has_operation(r));
}

#[test]
fn block_order_queries() {
    let mut context = Context::new();
    let block = context.create_block(vec![]);
    let a = ret(&mut context);
    let b = ret(&mut context);
    let c = ret(&mut context);
    context.append_op(block, a);
    context.append_op(block, b);
    let contents = context.get_block(block);
    assert_eq!(contents.len(), 2);
    assert!(contents.is_before(a, b));
    assert!(!contents.is_before(b, a));
    assert!(!contents.is_before(a, c));
}

const I1: TypeId = TypeId(1);

struct Fixture {
    module: OpId,
    func: OpId,
    if_op: OpId,
    then_region: RegionId,
    then_block: BlockId,
    /// `%old`, defined inside the `then` region the tests replace.
    old: ValueId,
    /// `%c`, defined outside it and still live after a commit.
    constant: ValueId,
    module_body: BlockId,
}

fn constant_op(context: &mut Context) -> (OpId, ValueId) {
    let result = context.create_value(I32, None);
    let op = add_op(context, "constant", vec![], vec![result.id], vec![]);
    (op, result.id)
}

fn yield_op(context: &mut Context) -> OpId {
    add_op(context, "yield", vec![], vec![], vec![])
}

fn fixture(context: &mut Context) -> Fixture {
    let then_region = context.create_region();
    let then_block = context.create_block(vec![]);
    context.add_block(then_region, then_block);
    let (old_op, old) = constant_op(context);
    context.append_op(then_block, old_op);
    let y = yield_op(context);
    context.append_op(then_block, y);

    let else_region = context.create_region();
    let else_block = context.create_block(vec![]);
    context.add_block(else_region, else_block);
    let y = yield_op(context);
    context.append_op(else_block, y);

    let body = context.create_region();
    let cond = context.create_value(I1, None);
    let entry = context.create_block(vec![cond.id]);
    context.add_block(body, entry);
    let (constant_id, constant) = constant_op(context);
    context.append_op(entry, constant_id);
    let if_op = add_op(context, "if", vec![cond.id], vec![], vec![then_region, else_region]);
    context.append_op(entry, if_op);
    let r = ret(context);
    context.append_op(entry, r);

    let func = add_op(context, "func", vec![], vec![], vec![body]);
    let module_region = context.create_region();
    let module_body = context.create_block(vec![]);
    context.add_block(module_region, module_body);
    let module = add_op(context, "module", vec![], vec![], vec![module_region]);
    context.append_op(module_body, func);

    Fixture { module, func, if_op, then_region, then_block, old, constant, module_body }
}

/// A staged `^block: yield` body, ready to swap into the `then` region.
fn staged_yield(context: &mut Context) -> StagedRegion {
    let mut staged = context.stage_region();
    let block = staged.append_block(context, &[]);
    let y = yield_op(context);
    staged.append_op(context, block, y);
    staged
}

fn users_of(context: &Context, ops: &[OpId], value: ValueId) -> Vec<OpId> {
    let mut users = vec![];
    for &op in ops {
        if context.has_operation(op) {
            for operand in &context.get_op(op).operands {
                if *operand == value {
                    users.push(op);
                }
            }
        }
    }
    users
}

#[test]
fn a_discarded_staging_leaves_the_tree_untouched() {
    let mut context = Context::new();
    let f = fixture(&mut context);
    let module_version = context.op_version(f.module);
    let if_version = context.op_version(f.if_op);
    let then_blocks = context.get_region(f.then_region).blocks.clone();
    context.take_dirty_ops();

    let mut staged = context.stage_region();
    let block = staged.append_block(&mut context, &[]);
    let add = add_op(&mut context, "addi", vec![f.constant, f.constant], vec![], vec![]);
    staged.append_op(&mut context, block, add);
    context.discard_staged(staged);

    assert_eq!(context.get_region(f.then_region).blocks, then_blocks, "the IR is unchanged");
    assert_eq!(context.op_version(f.module), module_version);
    assert_eq!(context.op_version(f.if_op), if_version);
    assert!(context.take_dirty_ops().is_empty());
    assert!(!context.has_operation(add), "staged ops are dropped");
    assert!(users_of(&context, &[add], f.constant).is_empty(), "a discarded staging leaves no uses of live values behind");
}

#[test]
fn a_commit_bumps_the_spine_once() {
    let mut context = Context::new();
    let f = fixture(&mut context);
    let module_version = context.op_version(f.module);
    let func_version = context.op_version(f.func);
    let if_version = context.op_version(f.if_op);
    context.take_dirty_ops();

    let staged = staged_yield(&mut context);
    context.replace_region_contents(f.then_region, staged);

    assert_eq!(context.op_version(f.if_op), if_version + 1);
    assert_eq!(context.op_version(f.func), func_version + 1);
    assert_eq!(context.op_version(f.module), module_version + 1);
    assert_eq!(context.take_dirty_ops(), vec![f.if_op], "the region's owner is the one dirtied subtree");
}

#[test]
fn a_commit_detaches_the_old_subtree() {
    let mut context = Context::new();
    let f = fixture(&mut context);
    let old_op = context.get_value(f.old).defining_op.unwrap();

    let staged = staged_yield(&mut context);
    context.replace_region_contents(f.then_region, staged);

    assert!(!context.has_operation(old_op));
    assert_eq!(context.parent_block(old_op), None);
    assert_eq!(context.parent_op(old_op), None);
    assert_eq!(context.parent_region(f.then_block), None);
    assert_eq!(context.get_region(f.then_region).blocks.len(), 1);
    assert_ne!(context.get_region(f.then_region).blocks[0], f.then_block);
}

#[test]
fn staged_ops_keep_their_live_operands() {
    let mut context = Context::new();
    let f = fixture(&mut context);

    let mut staged = context.stage_region();
    let block = staged.append_block(&mut context, &[]);
    let add = add_op(&mut context, "addi", vec![f.constant, f.constant], vec![], vec![]);
    staged.append_op(&mut context, block, add);
    let y = yield_op(&mut context);
    staged.append_op(&mut context, block, y);
    context.replace_region_contents(f.then_region, staged);

    assert_eq!(context.get_op(add).operands, vec![f.constant; 2]);
    assert_eq!(context.parent_block(add), Some(block));
    assert_eq!(context.parent_region(block), Some(f.then_region));
    assert_eq!(context.parent_op(add), Some(f.if_op));
    assert_eq!(users_of(&context, &[add, y], f.constant), vec![add; 2]);
}

#[test]
fn staged_blocks_carry_their_arguments() {
    let mut context = Context::new();
    let f = fixture(&mut context);

    let mut staged = context.stage_region();
    let block = staged.append_block(&mut context, &[I32]);
    let argument = staged.block_argument(&context, block, 0).id;
    let add = add_op(&mut context, "addi", vec![argument, f.constant], vec![], vec![]);
    staged.append_op(&mut context, block, add);
    let y = yield_op(&mut context);
    staged.append_op(&mut context, block, y);
    context.replace_region_contents(f.then_region, staged);

    let committed = context.get_block(block);
    assert_eq!(committed.arguments.len(), 1);
    assert_eq!(committed.arguments[0], argument);
    assert_eq!(context.get_op(add).operands[0], argument);
    assert!(context.is_block_argument(argument));
}

#[test]
fn a_commit_remaps_uses_of_replaced_values() {
    let mut context = Context::new();
    let f = fixture(&mut context);
    // A use of the old region's value that outlives the swap.
    let user = add_op(&mut context, "addi", vec![f.old, f.old], vec![], vec![]);
    context.append_op(f.module_body, user);

    let mut staged = context.stage_region();
    let block = staged.append_block(&mut context, &[]);
    let (fresh, fresh_result) = constant_op(&mut context);
    staged.append_op(&mut context, block, fresh);
    let y = yield_op(&mut context);
    staged.append_op(&mut context, block, y);
    staged.replace_value(f.old, fresh_result);
    context.replace_region_contents(f.then_region, staged);

    assert_eq!(context.get_op(user).operands, vec![fresh_result; 2], "surviving uses read the staged replacement");
    assert!(users_of(&context, &[user, fresh, y, f.func, f.module], f.old).is_empty());
}

#[test]
fn a_commit_keeps_analyses_of_untouched_functions() {
    let mut context = Context::new();
    let f = fixture(&mut context);
    let sibling_body = context.create_region();
    let sibling_entry = context.create_block(vec![]);
    context.add_block(sibling_body, sibling_entry);
    let r = ret(&mut context);
    context.append_op(sibling_entry, r);
    let sibling = add_op(&mut context, "func", vec![], vec![], vec![sibling_body]);
    context.append_op(f.module_body, sibling);

    // An analysis cached against a version is stale once it moves.
    let sibling_version = context.op_version(sibling);
    let func_version = context.op_version(f.func);

    let staged = staged_yield(&mut context);
    context.replace_region_contents(f.then_region, staged);

    assert_eq!(context.op_version(sibling), sibling_version, "a sibling function's analyses survive a commit elsewhere");
    assert_ne!(context.op_version(f.func), func_version);
}

#[test]
fn replacing_value_uses_bumps_the_users_spine() {
    let mut context = Context::new();
    let (module, func, body) = module_with_function(&mut context);
    let a = context.create_value(I32, None);
    let b = context.create_value(I32, None);
    let add = add_op(&mut context, "addi", vec![a.id, a.id], vec![], vec![]);
    context.append_op(body, add);
    assert_bumps_spine(&mut context, module, func, |c| c.replace_value_uses(a.id, b.id));
    assert_eq!(context.get_op(add).operands, vec![b.id, b.id]);
}

#[test]
fn replacing_value_uses_reaches_a_nested_region() {
    let mut context = Context::new();
    let (_, _, body) = module_with_function(&mut context);
    let a = context.create_value(I32, None);
    let b = context.create_value(I32, None);
    let cond = context.create_value(I1, None);

    let then_region = context.create_region();
    let then_block = context.create_block(vec![]);
    context.add_block(then_region, then_block);
    let nested = add_op(&mut context, "addi", vec![a.id, a.id], vec![], vec![]);
    context.append_op(then_block, nested);
    let y = yield_op(&mut context);
    context.append_op(then_block, y);
    let else_region = context.create_region();
    let else_block = context.create_block(vec![]);
    context.add_block(else_region, else_block);
    let y = yield_op(&mut context);
    context.append_op(else_block, y);
    let if_op = add_op(&mut context, "if", vec![cond.id], vec![], vec![then_region, else_region]);
    context.append_op(body, if_op);

    context.replace_value_uses(a.id, b.id);

    assert_eq!(context.get_op(nested).operands, vec![b.id; 2]);
}

#[test]
fn replacing_uses_of_a_block_argument_rewrites_its_readers() {
    let mut context = Context::new();
    let region = context.create_region();
    let argument = context.create_value(I32, None);
    let block = context.create_block(vec![argument.id]);
    context.add_block(region, block);
    let func = add_op(&mut context, "func", vec![], vec![], vec![region]);
    let module_region = context.create_region();
    let module_block = context.create_block(vec![]);
    context.add_block(module_region, module_block);
    let _module = add_op(&mut context, "module", vec![], vec![], vec![module_region]);
    context.append_op(module_block, func);
    let reader = add_op(&mut context, "addi", vec![argument.id, argument.id], vec![], vec![]);
    context.append_op(block, reader);
    let replacement = context.create_value(I32, None);

    context.replace_value_uses(argument.id, replacement.id);

    assert_eq!(context.get_op(reader).operands, vec![replacement.id; 2]);
}

#[test]
fn replacing_a_value_by_itself_changes_nothing() {
    let mut context = Context::new();
    let (module, _, body) = module_with_function(&mut context);
    let a = context.create_value(I32, None);
    let add = add_op(&mut context, "addi", vec![a.id], vec![], vec![]);
    context.append_op(body, add);
    let before = context.op_version(module);
    context.replace_value_uses(a.id, a.id);
    assert_eq!(context.op_version(module), before);
}

#[test]
fn replacing_uses_stays_within_the_use_scope() {
    let mut context = Context::new();
    let (_, _, first_body) = module_with_function(&mut context);
    let (_, _, second_body) = module_with_function(&mut context);
    // `a` is defined inside the first function: a use outside it is out of
    // the search.
    let a = context.create_value(I32, None);
    let def = add_op(&mut context, "constant", vec![], vec![a.id], vec![]);
    context.append_op(first_body, def);
    let inside = add_op(&mut context, "addi", vec![a.id], vec![], vec![]);
    context.append_op(first_body, inside);
    let outside = add_op(&mut context, "addi", vec![a.id], vec![], vec![]);
    context.append_op(second_body, outside);
    let b = context.create_value(I32, None);

    context.replace_value_uses(a.id, b.id);

    assert_eq!(context.get_op(inside).operands, vec![b.id]);
    assert_eq!(context.get_op(outside).operands, vec![a.id]);
}
