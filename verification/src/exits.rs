//! Where a non-local exit goes: the structured op a `break` or `continue`
//! leaves, found by walking out through the ops enclosing it.
use vstd::prelude::*;

use crate::ids::OpId;
use crate::text::str_eq;

verus! {

/// The kind of scope a structured op opens for exits.
#[derive(Clone, Copy, Debug, PartialEq, Eq, Structural)]
pub enum ExitScopeKind {
    Loop,
    Switch,
}

/// What a non-local exit leaves: the innermost loop, the innermost switch,
/// or the innermost scope carrying a label.
#[derive(Debug, Clone, PartialEq, Eq)]
pub enum ExitTarget {
    InnermostLoop,
    InnermostSwitch,
    Label(String),
}

/// An op an exit may leave: its kind and its label, if it has one.
#[derive(Debug, Clone, PartialEq, Eq)]
pub struct ScopeInfo {
    pub kind: ExitScopeKind,
    pub label: Option<String>,
}

/// An op enclosing the exit: whether it opens an exit scope, and whether it
/// is a callable (past which no exit goes).
#[derive(Debug, Clone, PartialEq, Eq)]
pub struct Enclosing {
    pub op: OpId,
    pub scope: Option<ScopeInfo>,
    pub callable: bool,
}

/// A verification failure, with what it says.
#[derive(Debug, Clone, PartialEq, Eq)]
pub struct VerificationError(pub String);

/// Whether a scope is what the exit's target names.
pub open spec fn targets(target: ExitTarget, scope: ScopeInfo) -> bool {
    match target {
        ExitTarget::InnermostLoop => scope.kind == ExitScopeKind::Loop,
        ExitTarget::InnermostSwitch => scope.kind == ExitScopeKind::Switch,
        ExitTarget::Label(l) => scope.label matches Some(s) && s@ == l@,
    }
}

/// The first of the enclosing ops (innermost first) that is the target,
/// unless a callable comes first (a callable that is the target counts).
pub open spec fn resolve_from(target: ExitTarget, enclosing: Seq<Enclosing>) -> Option<OpId>
    decreases enclosing.len(),
{
    if enclosing.len() == 0 {
        None
    } else {
        let a = enclosing[0];
        if a.scope matches Some(s) && targets(target, s) {
            Some(a.op)
        } else if a.callable {
            None
        } else {
            resolve_from(target, enclosing.drop_first())
        }
    }
}

/// What the target is called in an error.
pub open spec fn wanted(target: ExitTarget) -> Seq<char> {
    match target {
        ExitTarget::InnermostLoop => "loop"@,
        ExitTarget::InnermostSwitch => "switch"@,
        ExitTarget::Label(l) => "scope labeled "@ + l@,
    }
}

fn targets_exec(target: &ExitTarget, scope: &ScopeInfo) -> (r: bool)
    ensures
        r == targets(*target, *scope),
{
    match target {
        ExitTarget::InnermostLoop => scope.kind == ExitScopeKind::Loop,
        ExitTarget::InnermostSwitch => scope.kind == ExitScopeKind::Switch,
        ExitTarget::Label(l) => match &scope.label {
            Some(s) => str_eq(s.as_str(), l.as_str()),
            None => false,
        },
    }
}

/// The op the exit spelled `spelled` leaves, given its target (`None` if it
/// is not a non-local exit) and the ops enclosing it, innermost first: the
/// nearest enclosing loop or switch of the kind its target names, or the
/// nearest enclosing scope carrying its label. The walk stops at the
/// enclosing callable, so an exit with nothing to leave is an error rather
/// than a jump out of the function.
pub fn resolve_exit_target(spelled: &str, target: &Option<ExitTarget>, enclosing: &Vec<Enclosing>) -> (r: Result<OpId, VerificationError>)
    ensures
        match target {
            None => r matches Err(e) && e.0@ == spelled@ + " is not a non-local exit"@,
            Some(t) => match resolve_from(*t, enclosing@) {
                Some(op) => r == Ok::<OpId, VerificationError>(op),
                None => r matches Err(e) && e.0@ == spelled@ + " leaves no enclosing "@ + wanted(*t),
            },
        },
{
    match target {
        Some(t) => resolve_among(spelled, t, enclosing),
        None => {
            let mut message = String::new();
            message.append(spelled);
            message.append(" is not a non-local exit");
            proof {
                assert(message@ =~= spelled@ + " is not a non-local exit"@);
            }
            Err(VerificationError(message))
        },
    }
}

fn resolve_among(spelled: &str, t: &ExitTarget, enclosing: &Vec<Enclosing>) -> (r: Result<OpId, VerificationError>)
    ensures
        match resolve_from(*t, enclosing@) {
            Some(op) => r == Ok::<OpId, VerificationError>(op),
            None => r matches Err(e) && e.0@ == spelled@ + " leaves no enclosing "@ + wanted(*t),
        },
{
    let mut k: usize = 0;
    assert(enclosing@.subrange(0, enclosing@.len() as int) =~= enclosing@);
    while k < enclosing.len()
        invariant
            k <= enclosing@.len(),
            resolve_from(*t, enclosing@) == resolve_from(*t, enclosing@.subrange(k as int, enclosing@.len() as int)),
        ensures
            resolve_from(*t, enclosing@) is None,
        decreases enclosing.len() - k,
    {
        proof {
            let rest = enclosing@.subrange(k as int, enclosing@.len() as int);
            assert(rest.drop_first() =~= enclosing@.subrange(k + 1, enclosing@.len() as int));
            assert(rest[0] == enclosing@[k as int]);
        }
        let ancestor = &enclosing[k];
        let found = match &ancestor.scope {
            Some(scope) => targets_exec(t, scope),
            None => false,
        };
        if found {
            return Ok(ancestor.op);
        }
        if ancestor.callable {
            break;
        }
        k = k + 1;
    }
    let mut message = String::new();
    message.append(spelled);
    message.append(" leaves no enclosing ");
    match t {
        ExitTarget::InnermostLoop => message.append("loop"),
        ExitTarget::InnermostSwitch => message.append("switch"),
        ExitTarget::Label(label) => {
            message.append("scope labeled ");
            message.append(label.as_str());
        },
    }
    proof {
        assert(message@ =~= spelled@ + " leaves no enclosing "@ + wanted(*t));
    }
    Err(VerificationError(message))
}

} // verus!
