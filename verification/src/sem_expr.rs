//! Behaviour expressions of machine instructions, and binding their
//! symbols to concrete values before evaluation.
//!
//! An expression is a tree: symbols, constants, and operator nodes whose
//! children are their operand expressions in order. Floating-point constants
//! are carried as their bit patterns.
use vstd::prelude::*;

use crate::ids::copy_vec;
use crate::sim::SimTrap;
use crate::text::push_char;

verus! {

/// An arbitrary-width integer: its width in bits and its value's 64-bit
/// words, least significant first.
#[derive(Debug, PartialEq, Eq)]
pub struct APInt {
    pub width: u32,
    pub words: Vec<u64>,
}

/// The operator of an expression node; payloads that are not expressions
/// stay with the operator.
#[derive(Clone, Copy, Debug, PartialEq, Eq, Structural)]
pub enum ExprOp {
    If,
    Add,
    Sub,
    Mul,
    Div,
    UDiv,
    Eq,
    Ne,
    Lt,
    Le,
    Gt,
    Ge,
    ULt,
    ULe,
    UGt,
    UGe,
    ShiftLeft,
    ShiftRightLogic,
    ShiftRightArithmetic,
    Or,
    And,
    Xor,
    Clamp,
    Log2Ceil,
    Extract,
    ZExt,
    SExt,
    Load,
    Store,
    Sqrt,
    Fma,
    IntToBits,
    FloatToBits,
    BitsToInt { width: u32, signed: bool },
    BitsToFloat { exp_width: u32, mant_width: u32, explicit_leading_bit: bool },
}

#[derive(Debug, PartialEq, Eq)]
pub enum Expr {
    Symbol(u32),
    Int(APInt),
    /// A floating-point constant of `width` bits, by its bit pattern.
    Float { bits: u64, width: u32 },
    Bits(APInt),
    Bool(bool),
    /// An operator applied to its operand expressions, in order.
    Node(ExprOp, Vec<Expr>),
}

pub type APIntView = (u32, Seq<u64>);

/// An expression as a mathematical value.
pub enum ExprView {
    Symbol(u32),
    Int(APIntView),
    Float(u64, u32),
    Bits(APIntView),
    Bool(bool),
    Node(ExprOp, Seq<ExprView>),
}

pub open spec fn apint_view(a: &APInt) -> APIntView {
    (a.width, a.words@)
}

pub open spec fn expr_view(e: &Expr) -> ExprView
    decreases e, 1int,
{
    match e {
        Expr::Symbol(s) => ExprView::Symbol(*s),
        Expr::Int(a) => ExprView::Int(apint_view(a)),
        Expr::Float { bits, width } => ExprView::Float(*bits, *width),
        Expr::Bits(b) => ExprView::Bits(apint_view(b)),
        Expr::Bool(b) => ExprView::Bool(*b),
        Expr::Node(op, children) => ExprView::Node(*op, exprs_view(children@)),
    }
}

pub open spec fn exprs_view(es: Seq<Expr>) -> Seq<ExprView>
    decreases es, 0int,
{
    if es.len() == 0 {
        Seq::empty()
    } else {
        exprs_view(es.subrange(0, es.len() - 1)).push(expr_view(&es[es.len() - 1]))
    }
}

impl View for Expr {
    type V = ExprView;

    open spec fn view(&self) -> ExprView {
        expr_view(self)
    }
}

/// A simulation trap as a mathematical value.
pub enum SimTrapView {
    MissingRegister(Seq<char>, u16),
    MissingAttribute(Seq<char>, Seq<char>),
    InvalidAttribute(Seq<char>, Seq<char>),
    InvalidInstruction(Seq<char>, Seq<char>),
    BadAddress(u64, usize),
    ProgramNotLoaded,
    PcNotMapped(u64),
    MaxCyclesExceeded(u64, u64),
}

pub open spec fn trap_view(t: SimTrap) -> SimTrapView {
    match t {
        SimTrap::MissingRegister { class, index } => SimTrapView::MissingRegister(class@, index),
        SimTrap::MissingAttribute { op, attribute } => SimTrapView::MissingAttribute(op@, attribute@),
        SimTrap::InvalidAttribute { op, attribute } => SimTrapView::InvalidAttribute(op@, attribute@),
        SimTrap::InvalidInstruction { op, reason } => SimTrapView::InvalidInstruction(op@, reason@),
        SimTrap::BadAddress { address, size } => SimTrapView::BadAddress(address, size),
        SimTrap::ProgramNotLoaded => SimTrapView::ProgramNotLoaded,
        SimTrap::PcNotMapped { pc } => SimTrapView::PcNotMapped(pc),
        SimTrap::MaxCyclesExceeded { max_cycles, until_pc } => SimTrapView::MaxCyclesExceeded(max_cycles, until_pc),
    }
}

/// What a resolver call answered: a value, no value, or a trap.
pub type Answer = Result<Option<APIntView>, SimTrapView>;

pub open spec fn answer_view(r: Result<Option<APInt>, SimTrap>) -> Answer {
    match r {
        Ok(Some(a)) => Ok(Some(apint_view(&a))),
        Ok(None) => Ok(None),
        Err(t) => Err(trap_view(t)),
    }
}

/// The decimal spelling of `n`.
pub open spec fn decimal(n: nat) -> Seq<char>
    decreases n,
{
    if n < 10 {
        seq![((48 + n) as u32) as char]
    } else {
        decimal(n / 10).push(((48 + n % 10) as u32) as char)
    }
}

pub open spec fn unbound_symbol(sym: u32) -> SimTrapView {
    SimTrapView::InvalidInstruction("unknown"@, "unbound symbol "@ + decimal(sym as nat))
}

/// Substituting the answers `log` gives, in order, for the symbols of `e`
/// in traversal order: the result, and how many answers it took (it stops
/// at the first failure); `None` when `log` runs out first.
pub open spec fn subst(e: ExprView, log: Seq<Answer>) -> Option<(Result<ExprView, SimTrapView>, nat)>
    decreases e, 1int,
{
    match e {
        ExprView::Symbol(s) => if log.len() == 0 {
            None
        } else {
            match log[0] {
                Ok(Some(v)) => Some((Ok(ExprView::Int(v)), 1)),
                Ok(None) => Some((Err(unbound_symbol(s)), 1)),
                Err(t) => Some((Err(t), 1)),
            }
        },
        ExprView::Node(op, children) => match subst_all(children, log) {
            Some((Ok(cs), n)) => Some((Ok(ExprView::Node(op, cs)), n)),
            Some((Err(t), n)) => Some((Err(t), n)),
            None => None,
        },
        other => Some((Ok(other), 0)),
    }
}

/// Substituting into each of `es` in turn.
pub open spec fn subst_all(es: Seq<ExprView>, log: Seq<Answer>) -> Option<(Result<Seq<ExprView>, SimTrapView>, nat)>
    decreases es, 0int,
{
    if es.len() == 0 {
        Some((Ok(Seq::empty()), 0))
    } else {
        let n = es.len() - 1;
        match subst_all(es.subrange(0, n), log) {
            None => None,
            Some((Err(t), k)) => Some((Err(t), k)),
            Some((Ok(done), k)) => if k > log.len() {
                None
            } else {
                match subst(es[n], log.subrange(k as int, log.len() as int)) {
                    Some((Ok(c), k2)) => Some((Ok(done.push(c)), k + k2)),
                    Some((Err(t), k2)) => Some((Err(t), k + k2)),
                    None => None,
                }
            },
        }
    }
}

/// The symbols of `e`, in traversal order.
pub open spec fn symbols(e: ExprView) -> Seq<u32>
    decreases e, 1int,
{
    match e {
        ExprView::Symbol(s) => seq![s],
        ExprView::Node(_, children) => symbols_all(children),
        _ => Seq::empty(),
    }
}

pub open spec fn symbols_all(es: Seq<ExprView>) -> Seq<u32>
    decreases es, 0int,
{
    if es.len() == 0 {
        Seq::empty()
    } else {
        symbols_all(es.subrange(0, es.len() - 1)) + symbols(es[es.len() - 1])
    }
}

/// `a` is an answer `resolver` may give for `sym`.
pub open spec fn answer_ok<F: Fn(u32) -> Result<Option<APInt>, SimTrap>>(resolver: F, sym: u32, a: Answer) -> bool {
    exists|res: Result<Option<APInt>, SimTrap>| #[trigger] resolver.ensures((sym,), res) && answer_view(res) == a
}

/// `log` are answers `resolver` may give to the symbols `syms`, one for one.
pub open spec fn answers_agree<F: Fn(u32) -> Result<Option<APInt>, SimTrap>>(resolver: F, syms: Seq<u32>, log: Seq<Answer>) -> bool {
    &&& log.len() <= syms.len()
    &&& forall|k: int| 0 <= k < log.len() ==> #[trigger] answer_ok(resolver, syms[k], log[k])
}

/// Append `n` in decimal.
pub(crate) fn push_decimal(out: &mut String, n: u64)
    ensures
        final(out)@ == old(out)@ + decimal(n as nat),
    decreases n,
{
    if n >= 10 {
        push_decimal(out, n / 10);
    }
    let digit = (48u8 + (n % 10) as u8) as char;
    proof {
        assert(digit == ((48 + (n % 10) as nat) as u32) as char);
    }
    push_char(out, digit);
    proof {
        if n >= 10 {
            assert(decimal(n as nat) == decimal((n / 10) as nat).push(digit));
        } else {
            assert(decimal(n as nat) == seq![digit]);
        }
    }
}

fn copy_apint(a: &APInt) -> (r: APInt)
    ensures
        apint_view(&r) == apint_view(a),
{
    APInt { width: a.width, words: copy_vec(&a.words) }
}

/// Substitution reads no more answers than it has, reads one per symbol
/// when it succeeds, and is unchanged by answers past the ones it reads.
proof fn lemma_subst(e: ExprView, log: Seq<Answer>, ext: Seq<Answer>)
    ensures
        subst(e, log) matches Some((r, n)) ==> {
            &&& n <= log.len()
            &&& n <= symbols(e).len()
            &&& (r is Ok ==> n == symbols(e).len())
            &&& subst(e, log + ext) == subst(e, log)
        },
    decreases e, 1int,
{
    match e {
        ExprView::Symbol(s) => {
            if log.len() > 0 {
                assert((log + ext)[0] == log[0]);
            }
        },
        ExprView::Node(op, children) => {
            lemma_subst_all(children, log, ext);
        },
        _ => {},
    }
}

proof fn lemma_subst_all(es: Seq<ExprView>, log: Seq<Answer>, ext: Seq<Answer>)
    ensures
        subst_all(es, log) matches Some((r, n)) ==> {
            &&& n <= log.len()
            &&& n <= symbols_all(es).len()
            &&& (r is Ok ==> n == symbols_all(es).len())
            &&& subst_all(es, log + ext) == subst_all(es, log)
        },
    decreases es, 0int,
{
    if es.len() > 0 {
        let n = es.len() - 1;
        let pre = es.subrange(0, n);
        lemma_subst_all(pre, log, ext);
        match subst_all(pre, log) {
            Some((Ok(done), k)) => {
                if k <= log.len() {
                    let rest = log.subrange(k as int, log.len() as int);
                    lemma_subst(es[n], rest, ext);
                    assert((log + ext).subrange(k as int, (log + ext).len() as int) =~= rest + ext);
                }
            },
            _ => {},
        }
    }
}

proof fn lemma_exprs_view_len(es: Seq<Expr>)
    ensures
        exprs_view(es).len() == es.len(),
    decreases es.len(),
{
    if es.len() > 0 {
        lemma_exprs_view_len(es.subrange(0, es.len() - 1));
    }
}

proof fn lemma_exprs_view_index(es: Seq<Expr>, i: int)
    requires
        0 <= i < es.len(),
    ensures
        exprs_view(es)[i] == expr_view(&es[i]),
    decreases es.len(),
{
    let pre = es.subrange(0, es.len() - 1);
    lemma_exprs_view_len(pre);
    if i < es.len() - 1 {
        lemma_exprs_view_index(pre, i);
    }
}

/// Answers that agree with a list of symbols agree with any list it begins.
proof fn lemma_answers_extend<F: Fn(u32) -> Result<Option<APInt>, SimTrap>>(resolver: F, short: Seq<u32>, long: Seq<u32>, log: Seq<Answer>)
    requires
        answers_agree(resolver, short, log),
        short.len() <= long.len(),
        long.subrange(0, short.len() as int) == short,
    ensures
        answers_agree(resolver, long, log),
{
    assert forall|k: int| 0 <= k < log.len() implies #[trigger] answer_ok(resolver, long[k], log[k]) by {
        assert(long[k] == long.subrange(0, short.len() as int)[k]);
        assert(long[k] == short[k]);
        assert(answer_ok(resolver, short[k], log[k]));
    }
}

/// The symbols of a prefix of `es` come first among those of `es`.
proof fn lemma_symbols_prefix(es: Seq<ExprView>, j: int)
    requires
        0 <= j <= es.len(),
    ensures
        symbols_all(es.subrange(0, j)).len() <= symbols_all(es).len(),
        symbols_all(es).subrange(0, symbols_all(es.subrange(0, j)).len() as int) == symbols_all(es.subrange(0, j)),
    decreases es.len() - j,
{
    if j < es.len() {
        lemma_symbols_prefix(es, j + 1);
        let next = es.subrange(0, j + 1);
        assert(next.subrange(0, j) =~= es.subrange(0, j));
        let a = symbols_all(es.subrange(0, j));
        let b = symbols_all(next);
        assert(b == a + symbols(next[j]));
        assert(b.subrange(0, a.len() as int) =~= a);
        assert(symbols_all(es).subrange(0, a.len() as int) =~= symbols_all(es).subrange(0, b.len() as int).subrange(0, a.len() as int));
    } else {
        assert(es.subrange(0, j) =~= es);
        assert(symbols_all(es).subrange(0, symbols_all(es).len() as int) =~= symbols_all(es));
    }
}

/// Once a prefix of `es` has failed, the whole list fails the same way.
proof fn lemma_subst_all_prefix_err(es: Seq<ExprView>, j: int, log: Seq<Answer>)
    requires
        0 <= j <= es.len(),
        subst_all(es.subrange(0, j), log) matches Some((r, _)) && r is Err,
    ensures
        subst_all(es, log) == subst_all(es.subrange(0, j), log),
    decreases es.len() - j,
{
    if j < es.len() {
        let next = es.subrange(0, j + 1);
        assert(next.subrange(0, j) =~= es.subrange(0, j));
        lemma_subst_all_prefix_err(es, j + 1, log);
    } else {
        assert(es.subrange(0, j) =~= es);
    }
}

/// Resolve `expr`'s symbols, returning the answers given along the way.
fn resolve_go<F: Fn(u32) -> Result<Option<APInt>, SimTrap>>(expr: &Expr, resolver: &F) -> (r: (Result<Expr, SimTrap>, Ghost<Seq<Answer>>))
    requires
        forall|s: u32| resolver.requires((s,)),
    ensures
        answers_agree(*resolver, symbols(expr@), r.1@),
        subst(expr@, r.1@) == Some((
            match r.0 {
                Ok(x) => Ok::<ExprView, SimTrapView>(x@),
                Err(t) => Err::<ExprView, SimTrapView>(trap_view(t)),
            },
            r.1@.len(),
        )),
    decreases expr,
{
    match expr {
        Expr::Symbol(sym) => {
            let answer = resolver(*sym);
            let ghost log = seq![answer_view(answer)];
            proof {
                assert(symbols(expr@) == seq![*sym]);
                assert(resolver.ensures((symbols(expr@)[0],), answer));
                assert(answer_ok(*resolver, symbols(expr@)[0], log[0]));
            }
            match answer {
                Ok(Some(value)) => (Ok(Expr::Int(value)), Ghost(log)),
                Ok(None) => {
                    let mut reason = String::new();
                    reason.append("unbound symbol ");
                    push_decimal(&mut reason, *sym as u64);
                    proof {
                        reveal_strlit("unknown");
                    }
                    (Err(SimTrap::InvalidInstruction { op: "unknown", reason }), Ghost(log))
                },
                Err(trap) => (Err(trap), Ghost(log)),
            }
        },
        Expr::Int(a) => (Ok(Expr::Int(copy_apint(a))), Ghost(Seq::empty())),
        Expr::Float { bits, width } => (Ok(Expr::Float { bits: *bits, width: *width }), Ghost(Seq::empty())),
        Expr::Bits(b) => (Ok(Expr::Bits(copy_apint(b))), Ghost(Seq::empty())),
        Expr::Bool(b) => (Ok(Expr::Bool(*b)), Ghost(Seq::empty())),
        Expr::Node(op, children) => {
            let ghost cv = exprs_view(children@);
            let mut done: Vec<Expr> = Vec::new();
            let ghost mut log: Seq<Answer> = Seq::empty();
            let mut k: usize = 0;
            proof {
                lemma_exprs_view_len(children@);
            }
            while k < children.len()
                invariant
                    k <= children@.len(),
                    forall|s: u32| resolver.requires((s,)),
                    *expr == Expr::Node(*op, *children),
                    cv == exprs_view(children@),
                    cv.len() == children@.len(),
                    done@.len() == k,
                    answers_agree(*resolver, symbols_all(cv.subrange(0, k as int)), log),
                    subst_all(cv.subrange(0, k as int), log) == Some((Ok::<Seq<ExprView>, SimTrapView>(exprs_view(done@)), log.len())),
                decreases children.len() - k,
            {
                proof {
                    assert(decreases_to!(*expr => (*expr)->Node_1@[k as int]));
                }
                let (res, Ghost(part)) = resolve_go(&children[k], resolver);
                let ghost pre = cv.subrange(0, k as int);
                let ghost next = cv.subrange(0, k + 1);
                proof {
                    assert(next.subrange(0, k as int) =~= pre);
                    assert(cv[k as int] == expr_view(&children@[k as int])) by {
                        lemma_exprs_view_index(children@, k as int);
                    }
                    assert(next[k as int] == cv[k as int]);
                    lemma_subst_all(pre, log, part);
                    assert((log + part).subrange(log.len() as int, (log + part).len() as int) =~= part);
                    lemma_subst_all(pre, log, Seq::empty());
                    assert(symbols_all(next) == symbols_all(pre) + symbols(next[k as int]));
                    let syms = symbols_all(next);
                    assert forall|j: int| 0 <= j < (log + part).len() implies #[trigger] answer_ok(*resolver, syms[j], (log + part)[j]) by {
                        if j < log.len() {
                            assert(syms[j] == symbols_all(pre)[j]);
                            assert((log + part)[j] == log[j]);
                            assert(answer_ok(*resolver, symbols_all(pre)[j], log[j]));
                        } else {
                            let i = j - log.len();
                            assert(syms[j] == symbols(next[k as int])[i]);
                            assert((log + part)[j] == part[i]);
                            assert(answer_ok(*resolver, symbols(next[k as int])[i], part[i]));
                        }
                    }
                    assert(answers_agree(*resolver, symbols_all(next), log + part));
                }
                match res {
                    Ok(child) => {
                        let ghost before = done@;
                        done.push(child);
                        proof {
                            log = log + part;
                            assert(done@.subrange(0, done@.len() - 1) =~= before);
                        }
                    },
                    Err(trap) => {
                        proof {
                            log = log + part;
                            lemma_subst_all(next, log, Seq::empty());
                            lemma_subst_all_prefix_err(cv, k as int + 1, log);
                            lemma_symbols_prefix(cv, k as int + 1);
                            lemma_answers_extend(*resolver, symbols_all(next), symbols_all(cv), log);
                        }
                        return (Err(trap), Ghost(log));
                    },
                }
                k = k + 1;
            }
            proof {
                assert(cv.subrange(0, k as int) =~= cv);
            }
            (Ok(Expr::Node(*op, done)), Ghost(log))
        },
    }
}


/// Replace every symbol of `expr` by the constant `resolver` gives for it,
/// in traversal order; the first trap the resolver reports, or an
/// `InvalidInstruction` for a symbol it has no value for, ends the walk.
pub fn resolve_expr_symbols<F: Fn(u32) -> Result<Option<APInt>, SimTrap>>(expr: &Expr, resolver: F) -> (r: Result<Expr, SimTrap>)
    requires
        forall|s: u32| resolver.requires((s,)),
    ensures
        exists|log: Seq<Answer>| {
            &&& #[trigger] answers_agree(resolver, symbols(expr@), log)
            &&& subst(expr@, log) == Some((
                match r {
                    Ok(x) => Ok::<ExprView, SimTrapView>(x@),
                    Err(t) => Err::<ExprView, SimTrapView>(trap_view(t)),
                },
                log.len(),
            ))
        },
{
    let (r, Ghost(log)) = resolve_go(expr, &resolver);
    r
}

} // verus!
