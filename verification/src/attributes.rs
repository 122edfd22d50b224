use vstd::prelude::*;

use crate::ids::BlockId;
use crate::text::str_eq;

verus! {

/// A register operand as an attribute: physical once allocated, virtual (an
/// SSA value number) before, or a virtual value pinned to one physical
/// register on its definition or its use.
#[derive(Debug, Clone, PartialEq)]
pub enum RegisterAttr {
    Physical { class: String, index: u16 },
    Virtual { id: u32, class: Option<String> },
    FixedDef { id: u32, class: String, index: u16 },
    FixedUse { id: u32, class: String, index: u16 },
}

/// The value of one named attribute. Floating-point payloads are carried by
/// the IR printer outside this library.
#[derive(Debug, PartialEq)]
pub enum AttributeValue {
    Str(String),
    Int(i64),
    UInt(u64),
    Bool(bool),
    Array(Vec<AttributeValue>),
    Register(RegisterAttr),
    Block(BlockId),
}

/// How an instruction treats the register an attribute names.
#[derive(Debug, Clone, Copy, PartialEq, Eq, Structural)]
pub enum AttributeRole {
    NoRole,
    Def,
    Use,
    Clobber,
    ReadWrite,
}

/// One attribute of an operation: its name and value.
#[derive(Debug, PartialEq)]
pub struct NamedAttribute {
    pub name: String,
    pub value: AttributeValue,
}

impl NamedAttribute {
    pub fn new(name: String, value: AttributeValue) -> (r: Self)
        ensures
            r.name == name,
            r.value == value,
    {
        NamedAttribute { name, value }
    }
}

/// A register attribute as a mathematical value.
pub enum RegisterAttrView {
    Physical(Seq<char>, u16),
    Virtual(u32, Option<Seq<char>>),
    FixedDef(u32, Seq<char>, u16),
    FixedUse(u32, Seq<char>, u16),
}

impl View for RegisterAttr {
    type V = RegisterAttrView;

    open spec fn view(&self) -> RegisterAttrView {
        match self {
            RegisterAttr::Physical { class, index } => RegisterAttrView::Physical(class@, *index),
            RegisterAttr::Virtual { id, class } => RegisterAttrView::Virtual(
                *id,
                match class {
                    Some(c) => Some(c@),
                    None => None,
                },
            ),
            RegisterAttr::FixedDef { id, class, index } => RegisterAttrView::FixedDef(*id, class@, *index),
            RegisterAttr::FixedUse { id, class, index } => RegisterAttrView::FixedUse(*id, class@, *index),
        }
    }
}

/// An attribute value as a mathematical value.
pub enum AttributeValueView {
    Str(Seq<char>),
    Int(i64),
    UInt(u64),
    Bool(bool),
    Array(Seq<AttributeValueView>),
    Register(RegisterAttrView),
    Block(BlockId),
}

pub open spec fn value_view(v: &AttributeValue) -> AttributeValueView
    decreases v, 1int,
{
    match v {
        AttributeValue::Str(s) => AttributeValueView::Str(s@),
        AttributeValue::Int(i) => AttributeValueView::Int(*i),
        AttributeValue::UInt(u) => AttributeValueView::UInt(*u),
        AttributeValue::Bool(b) => AttributeValueView::Bool(*b),
        AttributeValue::Array(items) => AttributeValueView::Array(values_view(items@)),
        AttributeValue::Register(r) => AttributeValueView::Register(r@),
        AttributeValue::Block(b) => AttributeValueView::Block(*b),
    }
}

pub open spec fn values_view(items: Seq<AttributeValue>) -> Seq<AttributeValueView>
    decreases items, 0int,
{
    if items.len() == 0 {
        Seq::empty()
    } else {
        values_view(items.subrange(0, items.len() - 1)).push(value_view(&items[items.len() - 1]))
    }
}

impl View for AttributeValue {
    type V = AttributeValueView;

    open spec fn view(&self) -> AttributeValueView {
        value_view(self)
    }
}

/// The position of the first attribute called `name`, if any.
pub open spec fn attr_index(attrs: Seq<NamedAttribute>, name: Seq<char>) -> Option<int>
    decreases attrs.len(),
{
    if attrs.len() == 0 {
        None
    } else if attrs.last().name@ == name && attr_index(attrs.drop_last(), name) is None {
        Some(attrs.len() - 1)
    } else {
        attr_index(attrs.drop_last(), name)
    }
}

/// The value of the first attribute called `name`, if any.
pub open spec fn spec_attr(attrs: Seq<NamedAttribute>, name: Seq<char>) -> Option<AttributeValue> {
    match attr_index(attrs, name) {
        Some(i) => Some(attrs[i].value),
        None => None,
    }
}

pub proof fn lemma_attr_index(attrs: Seq<NamedAttribute>, name: Seq<char>)
    ensures
        match attr_index(attrs, name) {
            Some(i) => 0 <= i < attrs.len() && attrs[i].name@ == name && forall|j: int|
                0 <= j < i ==> attrs[j].name@ != name,
            None => forall|j: int| 0 <= j < attrs.len() ==> attrs[j].name@ != name,
        },
    decreases attrs.len(),
{
    if attrs.len() > 0 {
        let prefix = attrs.drop_last();
        lemma_attr_index(prefix, name);
        assert(forall|j: int| 0 <= j < prefix.len() ==> prefix[j] == attrs[j]);
    }
}

pub proof fn lemma_attr_index_first(attrs: Seq<NamedAttribute>, name: Seq<char>, i: int)
    requires
        0 <= i < attrs.len(),
        attrs[i].name@ == name,
        forall|j: int| 0 <= j < i ==> attrs[j].name@ != name,
    ensures
        attr_index(attrs, name) == Some(i),
    decreases attrs.len(),
{
    if i < attrs.len() - 1 {
        lemma_attr_index_first(attrs.drop_last(), name, i);
    } else {
        lemma_attr_index(attrs.drop_last(), name);
    }
}

pub proof fn lemma_attr_index_none(attrs: Seq<NamedAttribute>, name: Seq<char>)
    requires
        forall|j: int| 0 <= j < attrs.len() ==> attrs[j].name@ != name,
    ensures
        attr_index(attrs, name) is None,
    decreases attrs.len(),
{
    if attrs.len() > 0 {
        lemma_attr_index_none(attrs.drop_last(), name);
    }
}

/// The value of the first attribute called `name`: what `op.attr(name)` reads.
pub fn find_attr<'a>(attrs: &'a [NamedAttribute], name: &str) -> (r: Option<&'a AttributeValue>)
    ensures
        r == match attr_index(attrs@, name@) {
            Some(i) => Some(&attrs@[i].value),
            None => None::<&AttributeValue>,
        },
{
    let mut i: usize = 0;
    while i < attrs.len()
        invariant
            i <= attrs@.len(),
            forall|j: int| 0 <= j < i ==> attrs@[j].name@ != name@,
        decreases attrs.len() - i,
    {
        if str_eq(attrs[i].name.as_str(), name) {
            proof {
                lemma_attr_index_first(attrs@, name@, i as int);
            }
            return Some(&attrs[i].value);
        }
        i = i + 1;
    }
    proof {
        lemma_attr_index_none(attrs@, name@);
    }
    None
}

/// The position of the first attribute called `name`, if any.
pub fn attr_position(attrs: &[NamedAttribute], name: &str) -> (r: Option<usize>)
    ensures
        match r {
            Some(i) => attr_index(attrs@, name@) == Some(i as int),
            None => attr_index(attrs@, name@) is None,
        },
{
    let mut i: usize = 0;
    while i < attrs.len()
        invariant
            i <= attrs@.len(),
            forall|j: int| 0 <= j < i ==> attrs@[j].name@ != name@,
        decreases attrs.len() - i,
    {
        if str_eq(attrs[i].name.as_str(), name) {
            proof {
                lemma_attr_index_first(attrs@, name@, i as int);
            }
            return Some(i);
        }
        i = i + 1;
    }
    proof {
        lemma_attr_index_none(attrs@, name@);
    }
    None
}

} // verus!
