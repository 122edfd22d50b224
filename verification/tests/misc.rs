use tir::attributes::{AttributeValue, NamedAttribute, RegisterAttr};
use tir::clone::{remap_attribute, remap_value, Mapping};
use tir::ids::{BlockId, ValueId};
use tir::sim::{int_attr, register_attr, register_phys, SimTrap};
use tir::slab::{slab_get, slab_get_mut, slab_put};

fn attr(name: &str, value: AttributeValue) -> NamedAttribute {
    NamedAttribute::new(name.to_string(), value)
}

fn phys(class: &str, index: u16) -> AttributeValue {
    AttributeValue::Register(RegisterAttr::Physical { class: class.to_string(), index })
}

#[test]
fn register_phys_reads_the_first_attribute() {
    let attrs = vec![attr("rd", phys("GPR", 5)), attr("rd", phys("GPR", 6)), attr("imm", AttributeValue::Int(3))];
    assert_eq!(register_phys(&attrs, "add", "rd"), Ok(("GPR".to_string(), 5)));
    assert_eq!(
        register_phys(&attrs, "add", "imm"),
        Err(SimTrap::MissingAttribute { op: "add", attribute: "imm" })
    );
    assert_eq!(
        register_phys(&attrs, "add", "rs1"),
        Err(SimTrap::MissingAttribute { op: "add", attribute: "rs1" })
    );
}

#[test]
fn register_and_int_attrs_skip_unusable_entries() {
    let attrs = vec![
        attr("x", AttributeValue::Int(1)),
        attr("x", phys("F", 3)),
        attr("y", AttributeValue::UInt(u64::MAX)),
        attr("y", AttributeValue::UInt(12)),
        attr("z", AttributeValue::Bool(true)),
    ];
    assert_eq!(register_attr(&attrs, "x"), Some(("F".to_string(), 3)));
    assert_eq!(register_attr(&attrs, "y"), None);
    assert_eq!(int_attr(&attrs, "x"), Some(1));
    assert_eq!(int_attr(&attrs, "y"), Some(12));
    assert_eq!(int_attr(&attrs, "z"), None);
}

#[test]
fn slabs_grow_and_read_back() {
    let mut slab: Vec<Option<u32>> = Vec::new();
    slab_put(&mut slab, 3, 30);
    assert_eq!(slab, vec![None, None, None, Some(30)]);
    slab_put(&mut slab, 1, 10);
    assert_eq!(slab, vec![None, Some(10), None, Some(30)]);
    assert_eq!(slab_get(&slab, 1), Some(&10));
    assert_eq!(slab_get(&slab, 2), None);
    assert_eq!(slab_get(&slab, 9), None);
    if let Some(x) = slab_get_mut(&mut slab, 3) {
        *x = 31;
    }
    assert_eq!(slab[3], Some(31));
    assert!(slab_get_mut(&mut slab, 0).is_none());
}

#[test]
fn remapping_follows_the_copies() {
    let mut mapping = Mapping::new();
    mapping.insert_value(ValueId(1), ValueId(11));
    mapping.insert_value(ValueId(1), ValueId(12));
    mapping.insert_block(BlockId(4), BlockId(40));
    assert_eq!(remap_value(ValueId(1), &mapping), ValueId(12));
    assert_eq!(remap_value(ValueId(2), &mapping), ValueId(2));
    let value = AttributeValue::Array(vec![
        AttributeValue::Block(BlockId(4)),
        AttributeValue::Block(BlockId(5)),
        AttributeValue::Array(vec![AttributeValue::Block(BlockId(4)), AttributeValue::Str("s".to_string())]),
        phys("GPR", 1),
    ]);
    assert_eq!(
        remap_attribute(&value, &mapping),
        AttributeValue::Array(vec![
            AttributeValue::Block(BlockId(40)),
            AttributeValue::Block(BlockId(5)),
            AttributeValue::Array(vec![AttributeValue::Block(BlockId(40)), AttributeValue::Str("s".to_string())]),
            phys("GPR", 1),
        ])
    );
    assert_eq!(mapping.block(BlockId(4)), BlockId(40));
}
