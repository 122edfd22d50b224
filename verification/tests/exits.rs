use tir::exits::{resolve_exit_target, Enclosing, ExitScopeKind, ExitTarget, ScopeInfo, VerificationError};
use tir::ids::OpId;

fn scope(op: u32, kind: ExitScopeKind, label: Option<&str>) -> Enclosing {
    Enclosing { op: OpId(op), scope: Some(ScopeInfo { kind, label: label.map(|l| l.to_string()) }), callable: false }
}

fn plain(op: u32) -> Enclosing {
    Enclosing { op: OpId(op), scope: None, callable: false }
}

fn function(op: u32) -> Enclosing {
    Enclosing { op: OpId(op), scope: None, callable: true }
}

#[test]
fn a_break_leaves_the_innermost_loop() {
    let enclosing = vec![plain(9), scope(1, ExitScopeKind::Switch, None), scope(2, ExitScopeKind::Loop, None), scope(3, ExitScopeKind::Loop, None), function(4)];
    assert_eq!(resolve_exit_target("scf.break", &Some(ExitTarget::InnermostLoop), &enclosing), Ok(OpId(2)));
    assert_eq!(resolve_exit_target("scf.break", &Some(ExitTarget::InnermostSwitch), &enclosing), Ok(OpId(1)));
}

#[test]
fn a_labelled_exit_finds_its_scope() {
    let enclosing = vec![scope(1, ExitScopeKind::Loop, Some("inner")), scope(2, ExitScopeKind::Loop, Some("outer")), function(3)];
    assert_eq!(resolve_exit_target("scf.break", &Some(ExitTarget::Label("outer".to_string())), &enclosing), Ok(OpId(2)));
}

#[test]
fn the_walk_stops_at_the_function() {
    let enclosing = vec![plain(1), function(2), scope(3, ExitScopeKind::Loop, None)];
    assert_eq!(
        resolve_exit_target("scf.continue", &Some(ExitTarget::InnermostLoop), &enclosing),
        Err(VerificationError("scf.continue leaves no enclosing loop".to_string()))
    );
    assert_eq!(
        resolve_exit_target("scf.break", &Some(ExitTarget::Label("l".to_string())), &enclosing),
        Err(VerificationError("scf.break leaves no enclosing scope labeled l".to_string()))
    );
    assert_eq!(
        resolve_exit_target("scf.break", &Some(ExitTarget::InnermostSwitch), &vec![]),
        Err(VerificationError("scf.break leaves no enclosing switch".to_string()))
    );
}

#[test]
fn an_op_that_is_no_exit_is_refused() {
    assert_eq!(
        resolve_exit_target("arith.addi", &None, &vec![function(1)]),
        Err(VerificationError("arith.addi is not a non-local exit".to_string()))
    );
}
