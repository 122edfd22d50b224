//! What simulating a machine instruction can trip over, and how an
//! instruction's register and integer operands are read off its attributes.
use vstd::prelude::*;

use crate::attributes::{attr_index, find_attr, AttributeValue, NamedAttribute, RegisterAttr};
use crate::text::str_eq;

verus! {

/// Why simulation stopped.
#[derive(Debug, Clone, PartialEq, Eq)]
pub enum SimTrap {
    MissingRegister { class: String, index: u16 },
    MissingAttribute { op: &'static str, attribute: &'static str },
    InvalidAttribute { op: &'static str, attribute: &'static str },
    InvalidInstruction { op: &'static str, reason: String },
    BadAddress { address: u64, size: usize },
    ProgramNotLoaded,
    PcNotMapped { pc: u64 },
    MaxCyclesExceeded { max_cycles: u64, until_pc: u64 },
}

/// How one slot of an instruction's entry symbol table is bound before its
/// behaviour evaluates.
#[derive(Debug, Clone, Copy)]
pub enum SymSource {
    /// Register named by the attribute, read as a scalar.
    RegisterAttr(&'static str),
    /// Register named by the attribute, read as raw byte lanes.
    WideRegisterAttr(&'static str),
    /// Integer attribute, as a signed value of the given width.
    IntAttr(&'static str, u32),
    /// ISA parameter, falling back to the given value when the machine does
    /// not configure it.
    IsaParam(&'static str, i64),
    /// Fixed architectural register by class name and index.
    FixedRegister(&'static str, u16),
    /// Encoding index of the register named by the attribute.
    RegAttrIndex(&'static str),
}

/// The physical register the first attribute called `name` holds, if it
/// holds one.
pub open spec fn spec_register_phys(attrs: Seq<NamedAttribute>, name: Seq<char>) -> Option<(Seq<char>, u16)> {
    match attr_index(attrs, name) {
        Some(i) => match attrs[i].value {
            AttributeValue::Register(RegisterAttr::Physical { class, index }) => Some((class@, index)),
            _ => None,
        },
        None => None,
    }
}

/// The physical register an instruction's attribute `name` names, or
/// `MissingAttribute` when it names none.
pub fn register_phys(attrs: &[NamedAttribute], mnemonic: &'static str, name: &'static str) -> (r: Result<(String, u16), SimTrap>)
    ensures
        match spec_register_phys(attrs@, name@) {
            Some((class, index)) => r matches Ok(x) && x.0@ == class && x.1 == index,
            None => r == Err::<(String, u16), SimTrap>(SimTrap::MissingAttribute { op: mnemonic, attribute: name }),
        },
{
    match find_attr(attrs, name) {
        Some(AttributeValue::Register(RegisterAttr::Physical { class, index })) => Ok((class.clone(), *index)),
        _ => Err(SimTrap::MissingAttribute { op: mnemonic, attribute: name }),
    }
}

/// The physical register held by the first attribute called `name` that
/// holds one.
pub open spec fn spec_register_attr(attrs: Seq<NamedAttribute>, name: Seq<char>) -> Option<(Seq<char>, u16)>
    decreases attrs.len(),
{
    if attrs.len() == 0 {
        None
    } else {
        match (attrs[0].name@ == name, attrs[0].value) {
            (true, AttributeValue::Register(RegisterAttr::Physical { class, index })) => Some((class@, index)),
            _ => spec_register_attr(attrs.drop_first(), name),
        }
    }
}

/// The register of the first attribute called `name` that holds a physical
/// register.
pub fn register_attr(attrs: &[NamedAttribute], name: &str) -> (r: Option<(String, u16)>)
    ensures
        match spec_register_attr(attrs@, name@) {
            Some((class, index)) => r matches Some(x) && x.0@ == class && x.1 == index,
            None => r is None,
        },
{
    let mut k: usize = 0;
    assert(attrs@.subrange(0, attrs@.len() as int) =~= attrs@);
    while k < attrs.len()
        invariant
            k <= attrs@.len(),
            spec_register_attr(attrs@, name@) == spec_register_attr(attrs@.subrange(k as int, attrs@.len() as int), name@),
        decreases attrs.len() - k,
    {
        let ghost rest = attrs@.subrange(k as int, attrs@.len() as int);
        proof {
            assert(rest[0] == attrs@[k as int]);
            assert(rest.drop_first() =~= attrs@.subrange(k + 1, attrs@.len() as int));
        }
        if str_eq(attrs[k].name.as_str(), name) {
            match &attrs[k].value {
                AttributeValue::Register(RegisterAttr::Physical { class, index }) => {
                    return Some((class.clone(), *index));
                },
                _ => {},
            }
        }
        k = k + 1;
    }
    None
}

/// The integer held by the first attribute called `name` that holds one
/// representable as `i64`.
pub open spec fn spec_int_attr(attrs: Seq<NamedAttribute>, name: Seq<char>) -> Option<i64>
    decreases attrs.len(),
{
    if attrs.len() == 0 {
        None
    } else {
        match (attrs[0].name@ == name, attrs[0].value) {
            (true, AttributeValue::Int(i)) => Some(i),
            (true, AttributeValue::UInt(u)) => if u <= i64::MAX {
                Some(u as i64)
            } else {
                spec_int_attr(attrs.drop_first(), name)
            },
            _ => spec_int_attr(attrs.drop_first(), name),
        }
    }
}

pub fn int_attr(attrs: &[NamedAttribute], name: &str) -> (r: Option<i64>)
    ensures
        r == spec_int_attr(attrs@, name@),
{
    let mut k: usize = 0;
    assert(attrs@.subrange(0, attrs@.len() as int) =~= attrs@);
    while k < attrs.len()
        invariant
            k <= attrs@.len(),
            spec_int_attr(attrs@, name@) == spec_int_attr(attrs@.subrange(k as int, attrs@.len() as int), name@),
        decreases attrs.len() - k,
    {
        let ghost rest = attrs@.subrange(k as int, attrs@.len() as int);
        proof {
            assert(rest[0] == attrs@[k as int]);
            assert(rest.drop_first() =~= attrs@.subrange(k + 1, attrs@.len() as int));
        }
        if str_eq(attrs[k].name.as_str(), name) {
            match &attrs[k].value {
                AttributeValue::Int(i) => {
                    return Some(*i);
                },
                AttributeValue::UInt(u) => {
                    if *u <= i64::MAX as u64 {
                        return Some(*u as i64);
                    }
                },
                _ => {},
            }
        }
        k = k + 1;
    }
    None
}

} // verus!
