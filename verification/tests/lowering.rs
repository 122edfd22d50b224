use tir::attributes::{AttributeValue, NamedAttribute};
use tir::ids::{BlockId, OpId, ValueId};
use tir::lower::{plan_return, plan_tuple_argument, symbol_name, Extract, ReturnOperand, TupleUse};
use tir::rules::PassError;
use tir::sem_expr::{resolve_expr_symbols, APInt, Expr, ExprOp};
use tir::sim::SimTrap;

fn apint(value: u64) -> APInt {
    APInt { width: 64, words: vec![value] }
}

#[test]
fn resolve_replaces_symbols_in_order() {
    let expr = Expr::Node(
        ExprOp::Add,
        vec![Expr::Symbol(1), Expr::Node(ExprOp::Mul, vec![Expr::Symbol(2), Expr::Float { bits: 7, width: 32 }])],
    );
    let resolved = resolve_expr_symbols(&expr, |s: u32| Ok(Some(apint(s as u64 * 10)))).unwrap();
    assert_eq!(
        resolved,
        Expr::Node(
            ExprOp::Add,
            vec![Expr::Int(apint(10)), Expr::Node(ExprOp::Mul, vec![Expr::Int(apint(20)), Expr::Float { bits: 7, width: 32 }])],
        )
    );
    let leaf = Expr::Bool(true);
    assert_eq!(resolve_expr_symbols(&leaf, |_: u32| Err(SimTrap::ProgramNotLoaded)), Ok(Expr::Bool(true)));
}

#[test]
fn resolve_reports_unbound_and_resolver_traps() {
    let expr = Expr::Node(ExprOp::Sub, vec![Expr::Symbol(3), Expr::Symbol(42)]);
    let unbound = resolve_expr_symbols(&expr, |s: u32| if s == 3 { Ok(Some(apint(1))) } else { Ok(None) });
    assert_eq!(
        unbound,
        Err(SimTrap::InvalidInstruction { op: "unknown", reason: "unbound symbol 42".to_string() })
    );
    let trapped = resolve_expr_symbols(&expr, |_: u32| Err(SimTrap::PcNotMapped { pc: 4 }));
    assert_eq!(trapped, Err(SimTrap::PcNotMapped { pc: 4 }));
    let width = Expr::Node(ExprOp::BitsToInt { width: 8, signed: true }, vec![Expr::Symbol(0)]);
    assert_eq!(
        resolve_expr_symbols(&width, |_: u32| Ok(None)),
        Err(SimTrap::InvalidInstruction { op: "unknown", reason: "unbound symbol 0".to_string() })
    );
}

#[test]
fn symbol_names_default_to_unknown() {
    let attrs = vec![
        NamedAttribute::new("sym_name".to_string(), AttributeValue::Int(3)),
        NamedAttribute::new("sym_name".to_string(), AttributeValue::Str("main".to_string())),
    ];
    assert_eq!(symbol_name(&attrs), "main");
    assert_eq!(symbol_name(&[]), "unknown");
}

fn read(index: usize, result: u32, op: u32, block: Option<u32>) -> TupleUse {
    TupleUse {
        operand_index: Some(0),
        extract: Some(Extract { index, result: ValueId(result) }),
        op: OpId(op),
        block: block.map(BlockId),
    }
}

#[test]
fn tuple_reads_collapse_onto_the_first() {
    let other = TupleUse { operand_index: Some(1), extract: None, op: OpId(9), block: Some(BlockId(0)) };
    let uses = [read(1, 20, 1, Some(0)), other, read(1, 21, 2, Some(0)), read(0, 22, 3, Some(1))];
    let (replaced, plan) = plan_tuple_argument(3, &uses);
    assert_eq!(replaced, vec![(ValueId(21), ValueId(20))]);
    let plan = plan.unwrap();
    assert_eq!(plan.elements, vec![Some(ValueId(22)), Some(ValueId(20)), None]);
    assert_eq!(plan.extracts, vec![(OpId(1), BlockId(0)), (OpId(2), BlockId(0)), (OpId(3), BlockId(1))]);

    let (replaced, err) = plan_tuple_argument(1, &[read(0, 5, 1, Some(0)), read(0, 6, 2, Some(0)), read(3, 7, 3, Some(0))]);
    assert_eq!(replaced, vec![(ValueId(6), ValueId(5))]);
    assert_eq!(err, Err(PassError::InvalidRuleSet("tuple_get index is out of bounds".to_string())));
    let (_, err) = plan_tuple_argument(1, &[read(0, 5, 1, None)]);
    assert_eq!(err, Err(PassError::InvalidRuleSet("tuple_get has no parent block".to_string())));
}

#[test]
fn returns_hand_back_scalars_or_tuple_elements() {
    assert_eq!(plan_return(&None).unwrap().values, vec![]);
    assert_eq!(plan_return(&Some(ReturnOperand::Scalar(ValueId(4)))).unwrap().values, vec![ValueId(4)]);
    let tuple = ReturnOperand::Tuple { value: ValueId(9), defining_op: Some(OpId(2)), make_tuple_operands: Some(vec![ValueId(5), ValueId(6)]) };
    let plan = plan_return(&Some(tuple)).unwrap();
    assert_eq!(plan.values, vec![ValueId(5), ValueId(6)]);
    assert_eq!(plan.tuple_source, Some((ValueId(9), OpId(2))));
    let orphan = ReturnOperand::Tuple { value: ValueId(9), defining_op: None, make_tuple_operands: None };
    assert_eq!(
        plan_return(&Some(orphan)),
        Err(PassError::InvalidRuleSet("returned tuple has no defining operation".to_string()))
    );
    let opaque = ReturnOperand::Tuple { value: ValueId(9), defining_op: Some(OpId(1)), make_tuple_operands: None };
    assert_eq!(
        plan_return(&Some(opaque)),
        Err(PassError::InvalidRuleSet("returned tuple must be assembled from scalar values".to_string()))
    );
}
