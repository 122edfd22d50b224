use tir::fp_environment::{check_default_fp_environment, FpFunction, FpOp, FpRegion, FpSemantics, RoundingKind};
use tir::rules::PassError;

fn fp(name: &str, semantics: Option<FpSemantics>, resource_semantics: bool) -> FpOp {
    FpOp { dialect: "fp".to_string(), name: name.to_string(), semantics, resource_semantics, regions: vec![] }
}

fn arith(rounding: RoundingKind, exceptions_ignored: bool) -> Option<FpSemantics> {
    Some(FpSemantics { rounding: Some(rounding), exceptions_ignored })
}

fn function(ops: Vec<FpOp>) -> FpFunction {
    FpFunction { is_func: true, regions: vec![FpRegion { ops }] }
}

fn refused(message: &str) -> Result<(), PassError> {
    Err(PassError::InvalidRuleSet(message.to_string()))
}

#[test]
fn only_functions_are_checked() {
    let f = FpFunction { is_func: false, regions: vec![FpRegion { ops: vec![fp("set_round", None, false)] }] };
    assert_eq!(check_default_fp_environment(&f, "riscv"), Ok(()));
}

#[test]
fn fixed_rounding_beside_an_environment_change_is_refused() {
    let f = function(vec![fp("add", arith(RoundingKind::Fixed, true), false), fp("set_round", None, false)]);
    assert_eq!(
        check_default_fp_environment(&f, "riscv"),
        refused("riscv: fp.add uses fixed rounding but fp.set_round changes the floating-point environment")
    );
}

#[test]
fn what_the_default_environment_cannot_do_is_refused() {
    let f = function(vec![fp("div", arith(RoundingKind::Other, false), false)]);
    assert_eq!(check_default_fp_environment(&f, "arm64"), refused("arm64: fp.div does not support observable floating-point exceptions"));
    let f = function(vec![fp("mul", arith(RoundingKind::Dynamic, true), false)]);
    assert_eq!(check_default_fp_environment(&f, "arm64"), refused("arm64: fp.mul does not support dynamic rounding"));
    let f = function(vec![fp("read_env", None, true)]);
    assert_eq!(check_default_fp_environment(&f, "arm64"), refused("arm64: fp.read_env does not support floating-point environment access"));
}

#[test]
fn fixed_rounding_alone_is_fine() {
    let f = function(vec![
        fp("add", arith(RoundingKind::Fixed, true), false),
        fp("cmp", Some(FpSemantics { rounding: None, exceptions_ignored: true }), false),
        FpOp { dialect: "arith".to_string(), name: "set_round".to_string(), semantics: None, resource_semantics: true, regions: vec![] },
    ]);
    assert_eq!(check_default_fp_environment(&f, "riscv"), Ok(()));
}

#[test]
fn nested_regions_are_walked_last_pushed_first() {
    // The conditional's regions are stacked in order, so the second is
    // walked first and its operation is the one named.
    let conditional = FpOp {
        dialect: "scf".to_string(),
        name: "if".to_string(),
        semantics: None,
        resource_semantics: false,
        regions: vec![
            FpRegion { ops: vec![fp("x", arith(RoundingKind::Dynamic, true), false)] },
            FpRegion { ops: vec![fp("y", arith(RoundingKind::Other, false), false)] },
        ],
    };
    let f = function(vec![conditional, fp("z", arith(RoundingKind::Dynamic, true), false)]);
    assert_eq!(check_default_fp_environment(&f, "t"), refused("t: fp.z does not support dynamic rounding"));
    let conditional = FpOp {
        dialect: "scf".to_string(),
        name: "if".to_string(),
        semantics: None,
        resource_semantics: false,
        regions: vec![
            FpRegion { ops: vec![fp("x", arith(RoundingKind::Dynamic, true), false)] },
            FpRegion { ops: vec![fp("y", arith(RoundingKind::Other, false), false)] },
        ],
    };
    let f = function(vec![conditional]);
    assert_eq!(check_default_fp_environment(&f, "t"), refused("t: fp.y does not support observable floating-point exceptions"));
}
