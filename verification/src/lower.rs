//! The decisions behind lowering a function and its returns to an assembly
//! symbol: the symbol's name, how a tuple argument's element reads collapse
//! onto one value per element, and what a return hands back.
use vstd::prelude::*;

use crate::attributes::{AttributeValue, NamedAttribute};
use crate::ids::{BlockId, OpId, ValueId};
use crate::rules::PassError;
use crate::text::str_eq;

verus! {

/// The name of the first `sym_name` attribute holding a string, if any.
pub open spec fn spec_symbol_name(attrs: Seq<NamedAttribute>) -> Option<Seq<char>>
    decreases attrs.len(),
{
    if attrs.len() == 0 {
        None
    } else {
        match attrs[0].value {
            AttributeValue::Str(name) => if attrs[0].name@ == "sym_name"@ {
                Some(name@)
            } else {
                spec_symbol_name(attrs.drop_first())
            },
            _ => spec_symbol_name(attrs.drop_first()),
        }
    }
}

/// The symbol a function lowers to: its `sym_name`, or `unknown`.
pub fn symbol_name(attrs: &[NamedAttribute]) -> (r: String)
    ensures
        r@ == match spec_symbol_name(attrs@) {
            Some(n) => n,
            None => "unknown"@,
        },
{
    let mut k: usize = 0;
    assert(attrs@.subrange(0, attrs@.len() as int) =~= attrs@);
    while k < attrs.len()
        invariant
            k <= attrs@.len(),
            spec_symbol_name(attrs@) == spec_symbol_name(attrs@.subrange(k as int, attrs@.len() as int)),
        decreases attrs.len() - k,
    {
        let ghost rest = attrs@.subrange(k as int, attrs@.len() as int);
        proof {
            assert(rest[0] == attrs@[k as int]);
            assert(rest.drop_first() =~= attrs@.subrange(k + 1, attrs@.len() as int));
        }
        match &attrs[k].value {
            AttributeValue::Str(name) => {
                if str_eq(attrs[k].name.as_str(), "sym_name") {
                    return name.clone();
                }
            },
            _ => {},
        }
        k = k + 1;
    }
    let mut unknown = String::new();
    unknown.append("unknown");
    unknown
}

/// An element read: the element it reads and the value it defines.
#[derive(Clone, Copy, Debug, PartialEq, Eq, Structural)]
pub struct Extract {
    pub index: usize,
    pub result: ValueId,
}

/// One use of a tuple argument: the operand position it takes in its user,
/// the element the user extracts and the value it defines (when the user is
/// an element read), the user, and the block holding it.
#[derive(Clone, Copy, Debug, PartialEq, Eq, Structural)]
pub struct TupleUse {
    pub operand_index: Option<usize>,
    pub extract: Option<Extract>,
    pub op: OpId,
    pub block: Option<BlockId>,
}

/// What a tuple argument lowers to: one value per element (the first read of
/// it, or `None` where nothing reads it), and the element reads to erase.
#[derive(Debug, Clone, PartialEq, Eq)]
pub struct TuplePlan {
    pub elements: Vec<Option<ValueId>>,
    pub extracts: Vec<(OpId, BlockId)>,
}

/// How far the element reads among `uses` get: the canonical value per
/// element, the later reads redirected onto it, the reads to erase, and the
/// error that stopped the walk, if any.
pub open spec fn tuple_walk(n: nat, uses: Seq<TupleUse>) -> (Seq<Option<ValueId>>, Seq<(ValueId, ValueId)>, Seq<(OpId, BlockId)>, Option<Seq<char>>)
    decreases uses.len(),
{
    if uses.len() == 0 {
        (Seq::new(n, |i: int| None::<ValueId>), Seq::empty(), Seq::empty(), None)
    } else {
        let (elements, replaced, erased, err) = tuple_walk(n, uses.drop_last());
        let u = uses.last();
        if err is Some || u.operand_index != Some(0usize) || u.extract is None {
            (elements, replaced, erased, err)
        } else {
            let index = u.extract->0.index;
            let result = u.extract->0.result;
            if index >= n {
                (elements, replaced, erased, Some("tuple_get index is out of bounds"@))
            } else {
                let (elements2, replaced2) = match elements[index as int] {
                    Some(canonical) => (elements, replaced.push((result, canonical))),
                    None => (elements.update(index as int, Some(result)), replaced),
                };
                match u.block {
                    None => (elements2, replaced2, erased, Some("tuple_get has no parent block"@)),
                    Some(b) => (elements2, replaced2, erased.push((u.op, b)), None),
                }
            }
        }
    }
}

proof fn lemma_tuple_walk(n: nat, uses: Seq<TupleUse>, j: int)
    requires
        0 <= j <= uses.len(),
    ensures
        tuple_walk(n, uses).0.len() == n,
        tuple_walk(n, uses.subrange(0, j)).3 is Some ==> tuple_walk(n, uses) == tuple_walk(n, uses.subrange(0, j)),
    decreases uses.len(),
{
    if uses.len() > 0 {
        let pre = uses.drop_last();
        if j < uses.len() {
            assert(pre.subrange(0, j) =~= uses.subrange(0, j));
            lemma_tuple_walk(n, pre, j);
        } else {
            lemma_tuple_walk(n, pre, 0);
            assert(uses.subrange(0, j) =~= uses);
        }
    } else {
        assert(uses.subrange(0, j) =~= uses);
    }
}

/// Plan a tuple argument with `element_count` elements from its `uses`, in
/// use order: a read of an element already read is redirected onto the
/// first read of it. The redirections are carried out as the walk goes, so
/// those made before an error stand: they are returned either way.
pub fn plan_tuple_argument(element_count: usize, uses: &[TupleUse]) -> (r: (Vec<(ValueId, ValueId)>, Result<TuplePlan, PassError>))
    ensures
        r.0@ == tuple_walk(element_count as nat, uses@).1,
        match tuple_walk(element_count as nat, uses@).3 {
            Some(msg) => r.1 matches Err(PassError::InvalidRuleSet(m)) && m@ == msg,
            None => r.1 matches Ok(plan) && plan.elements@ == tuple_walk(element_count as nat, uses@).0
                && plan.extracts@ == tuple_walk(element_count as nat, uses@).2,
        },
{
    let mut elements: Vec<Option<ValueId>> = Vec::new();
    let mut e: usize = 0;
    while e < element_count
        invariant
            e <= element_count,
            elements@ == Seq::new(e as nat, |i: int| None::<ValueId>),
        decreases element_count - e,
    {
        elements.push(None);
        assert(elements@ =~= Seq::new((e + 1) as nat, |i: int| None::<ValueId>));
        e = e + 1;
    }
    let mut replaced: Vec<(ValueId, ValueId)> = Vec::new();
    let mut erased: Vec<(OpId, BlockId)> = Vec::new();
    let mut k: usize = 0;
    assert(uses@.subrange(0, 0) =~= Seq::<TupleUse>::empty());
    while k < uses.len()
        invariant
            k <= uses@.len(),
            tuple_walk(element_count as nat, uses@.subrange(0, k as int)) == (elements@, replaced@, erased@, None::<Seq<char>>),
        decreases uses.len() - k,
    {
        let u = uses[k];
        proof {
            assert(uses@.subrange(0, k + 1).drop_last() =~= uses@.subrange(0, k as int));
            lemma_tuple_walk(element_count as nat, uses@.subrange(0, k as int), 0);
            lemma_tuple_walk(element_count as nat, uses@, k + 1);
        }
        if u.operand_index == Some(0usize) {
            match u.extract {
                Some(x) => {
                    let index = x.index;
                    let result = x.result;
                    if index >= elements.len() {
                        let mut msg = String::new();
                        msg.append("tuple_get index is out of bounds");
                        return (replaced, Err(PassError::InvalidRuleSet(msg)));
                    }
                    match elements[index] {
                        Some(canonical) => {
                            replaced.push((result, canonical));
                        },
                        None => {
                            elements.set(index, Some(result));
                        },
                    }
                    match u.block {
                        Some(b) => {
                            erased.push((u.op, b));
                        },
                        None => {
                            let mut msg = String::new();
                            msg.append("tuple_get has no parent block");
                            return (replaced, Err(PassError::InvalidRuleSet(msg)));
                        },
                    }
                },
                None => {},
            }
        }
        k = k + 1;
    }
    assert(uses@.subrange(0, uses@.len() as int) =~= uses@);
    (replaced, Ok(TuplePlan { elements, extracts: erased }))
}

/// The operand a return hands back: a scalar, or a tuple with its defining
/// operation and, when that is a tuple construction, its operands.
#[derive(Debug, Clone, PartialEq, Eq)]
pub enum ReturnOperand {
    Scalar(ValueId),
    Tuple { value: ValueId, defining_op: Option<OpId>, make_tuple_operands: Option<Vec<ValueId>> },
}

/// The values a lowered return hands back, and the tuple construction it
/// read them from (erased once nothing else uses it).
#[derive(Debug, Clone, PartialEq, Eq)]
pub struct ReturnPlan {
    pub values: Vec<ValueId>,
    pub tuple_source: Option<(ValueId, OpId)>,
}

pub fn plan_return(operand: &Option<ReturnOperand>) -> (r: Result<ReturnPlan, PassError>)
    ensures
        match operand {
            None => r matches Ok(p) && p.values@.len() == 0 && p.tuple_source is None,
            Some(ReturnOperand::Scalar(v)) => r matches Ok(p) && p.values@ == seq![*v] && p.tuple_source is None,
            Some(ReturnOperand::Tuple { value, defining_op, make_tuple_operands }) => match (defining_op, make_tuple_operands) {
                (None, _) => r matches Err(PassError::InvalidRuleSet(m)) && m@ == "returned tuple has no defining operation"@,
                (Some(_), None) => r matches Err(PassError::InvalidRuleSet(m)) && m@ == "returned tuple must be assembled from scalar values"@,
                (Some(op), Some(ops)) => r matches Ok(p) && p.values@ == ops@ && p.tuple_source == Some((*value, *op)),
            },
        },
{
    match operand {
        None => Ok(ReturnPlan { values: Vec::new(), tuple_source: None }),
        Some(ReturnOperand::Scalar(v)) => {
            let mut values: Vec<ValueId> = Vec::new();
            values.push(*v);
            Ok(ReturnPlan { values, tuple_source: None })
        },
        Some(ReturnOperand::Tuple { value, defining_op, make_tuple_operands }) => match defining_op {
            None => {
                let mut msg = String::new();
                msg.append("returned tuple has no defining operation");
                Err(PassError::InvalidRuleSet(msg))
            },
            Some(op) => match make_tuple_operands {
                None => {
                    let mut msg = String::new();
                    msg.append("returned tuple must be assembled from scalar values");
                    Err(PassError::InvalidRuleSet(msg))
                },
                Some(ops) => Ok(ReturnPlan { values: crate::ids::copy_vec(ops), tuple_source: Some((*value, *op)) }),
            },
        },
    }
}

} // verus!
