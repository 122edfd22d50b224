use tir::attributes::{AttributeRole, AttributeValue, NamedAttribute, RegisterAttr};
use tir::context::Context;
use tir::encodings::{
    decode_into, decode_with, encode_with, gather, patch_with, scatter, run_mask, DecodeField, DecodeFieldKind,
    DecodeSpec, EncodeField, EncodeSpec, FieldRun, FixupTarget, InstFixup, PatchSpec,
};

fn phys(index: u16) -> AttributeValue {
    AttributeValue::Register(RegisterAttr::Physical { class: "R".to_string(), index })
}

fn op_with(attrs: Vec<(&str, AttributeValue)>) -> Vec<NamedAttribute> {
    attrs
        .into_iter()
        .map(|(name, value)| NamedAttribute::new(name.to_string(), value))
        .collect()
}

// `lui rd, imm`: 55 | rd << 7 | (imm & 0xFFFFF) << 12
const LUI: EncodeSpec = EncodeSpec {
    const_word: 55,
    width_bytes: 4,
    fields: &[
        EncodeField {
            attr: "rd",
            int_range: None,
            runs: &[FieldRun { op_lo: 0, word_lo: 7, width: 5 }],
            register: true,
        },
        EncodeField {
            attr: "imm",
            int_range: Some((-524288, 1048576, 1048576)),
            runs: &[FieldRun { op_lo: 0, word_lo: 12, width: 20 }],
            register: false,
        },
    ],
};

#[test]
fn encode_scatters_register_and_immediate() {
    let op = op_with(vec![("rd", phys(5)), ("imm", AttributeValue::Int(0x12345))]);
    let encoded = encode_with(&op, &LUI).unwrap();
    assert_eq!(encoded.bytes, (55u32 | (5 << 7) | (0x12345 << 12)).to_le_bytes());
    assert!(encoded.fixups.is_empty());
}

#[test]
fn encode_rejects_out_of_range_and_virtual() {
    let op = op_with(vec![("rd", phys(5)), ("imm", AttributeValue::Int(1048576))]);
    assert!(encode_with(&op, &LUI).is_none());

    let op = op_with(vec![
        ("rd", AttributeValue::Register(RegisterAttr::Virtual { id: 0, class: None })),
        ("imm", AttributeValue::Int(1)),
    ]);
    assert!(encode_with(&op, &LUI).is_none());
}

#[test]
fn encode_leaves_symbol_operand_as_fixup() {
    let op = op_with(vec![("rd", phys(5)), ("imm", AttributeValue::Str("g".into()))]);
    let encoded = encode_with(&op, &LUI).unwrap();
    assert_eq!(encoded.bytes, (55u32 | (5 << 7)).to_le_bytes());
    assert_eq!(
        encoded.fixups,
        vec![InstFixup { operand: "imm", target: FixupTarget::Symbol("g".to_string()) }]
    );
}

#[test]
fn encode_accepts_unsigned_spelling_and_rejects_missing_operand() {
    let op = op_with(vec![("rd", phys(1)), ("imm", AttributeValue::UInt(0xFFFFF))]);
    let encoded = encode_with(&op, &LUI).unwrap();
    assert_eq!(encoded.bytes, (55u32 | (1 << 7) | (0xFFFFF << 12)).to_le_bytes());
    let op = op_with(vec![("rd", phys(1)), ("imm", AttributeValue::UInt(0x100000))]);
    assert!(encode_with(&op, &LUI).is_none());
    let op = op_with(vec![("rd", phys(1))]);
    assert!(encode_with(&op, &LUI).is_none());
    let op = op_with(vec![("rd", phys(1)), ("imm", AttributeValue::Bool(true))]);
    assert!(encode_with(&op, &LUI).is_none());
}

#[test]
fn encode_records_block_fixup() {
    let op = op_with(vec![("rd", phys(2)), ("imm", AttributeValue::Block(tir::ids::BlockId(7)))]);
    let encoded = encode_with(&op, &LUI).unwrap();
    assert_eq!(encoded.bytes, (55u32 | (2 << 7)).to_le_bytes());
    assert_eq!(
        encoded.fixups,
        vec![InstFixup { operand: "imm", target: FixupTarget::Block(tir::ids::BlockId(7)) }]
    );
}

// `beq rs1, rs2, imm`: 99 | 0 << 12 | rs1 << 15 | rs2 << 20, imm scattered.
const BEQ_PATCH: PatchSpec = PatchSpec {
    range: Some((-4096, 4096)),
    dropped_mask: 1,
    width_bytes: 4,
    runs: &[
        FieldRun { op_lo: 11, word_lo: 7, width: 1 },
        FieldRun { op_lo: 1, word_lo: 8, width: 4 },
        FieldRun { op_lo: 5, word_lo: 25, width: 6 },
        FieldRun { op_lo: 12, word_lo: 31, width: 1 },
    ],
};

#[test]
fn patch_scatters_resolved_value() {
    let mut bytes = 99u32.to_le_bytes();
    assert!(patch_with(&mut bytes, 16, &BEQ_PATCH).is_some());
    let word = u32::from_le_bytes(bytes);
    assert_eq!(word & 28799, 99, "fixed bits untouched");
    assert_eq!(gather(word & !28799, BEQ_PATCH.runs), 16);
}

#[test]
fn patch_rejects_unrepresentable_values() {
    let mut bytes = 99u32.to_le_bytes();
    assert!(patch_with(&mut bytes, 4096, &BEQ_PATCH).is_none());
    assert!(patch_with(&mut bytes, 15, &BEQ_PATCH).is_none());
    assert!(patch_with(&mut bytes[..2], 16, &BEQ_PATCH).is_none());
}

#[test]
fn patch_negative_offset_round_trips() {
    let mut bytes = 99u32.to_le_bytes();
    assert!(patch_with(&mut bytes, -8, &BEQ_PATCH).is_some());
    let word = u32::from_le_bytes(bytes);
    assert_eq!(word & 28799, 99);
    // The 13-bit signed offset reads back as its two's complement bits.
    assert_eq!(gather(word & !28799, BEQ_PATCH.runs), (-8i64 as u64) & 0x1FFF);
}

const BEQ_DECODE: DecodeSpec = DecodeSpec {
    op: ("test", "beq"),
    fixed_mask: 28799,
    const_word: 99,
    fields: &[
        DecodeField {
            attr: "rs1",
            kind: DecodeFieldKind::Register("R"),
            runs: &[FieldRun { op_lo: 0, word_lo: 15, width: 5 }],
        },
        DecodeField { attr: "imm", kind: DecodeFieldKind::Int, runs: BEQ_PATCH.runs },
    ],
    attrs: &["rs1", "imm"],
};

#[test]
fn decode_matches_and_gathers() {
    let word = 99u32 | (5 << 15) | (1 << 8); // rs1 = 5, imm bit1 set
    let op = decode_with(word, &BEQ_DECODE).expect("decodes");
    assert_eq!(op.dialect, "test");
    assert_eq!(op.name, "beq");
    assert_eq!(op.attributes[0], NamedAttribute::new("rs1".to_string(), phys(5)));
    assert_eq!(op.attributes[1], NamedAttribute::new("imm".to_string(), AttributeValue::Int(2)));

    assert!(decode_with(word | 1 << 14, &BEQ_DECODE).is_none());
}

#[test]
fn run_mask_and_scatter_values() {
    assert_eq!(run_mask(0), 0);
    assert_eq!(run_mask(5), 31);
    assert_eq!(run_mask(128), u128::MAX);
    assert_eq!(run_mask(200), u128::MAX);
    let mut word = 0u128;
    scatter(&mut word, 0b1011, &[FieldRun { op_lo: 1, word_lo: 4, width: 2 }]);
    assert_eq!(word, 0b01 << 4);
}

#[test]
fn decode_into_adds_the_decoded_operation() {
    let word = 99u32 | (5 << 15) | (1 << 8);
    let mut ctx = Context::new();
    let roles = vec![("rs1".to_string(), AttributeRole::Use)];
    let id = decode_into(&mut ctx, word, &BEQ_DECODE, roles.clone()).expect("decodes");
    let op = ctx.get_op(id);
    assert_eq!((op.dialect.as_str(), op.name.as_str()), ("test", "beq"));
    assert_eq!(op.attributes[0], NamedAttribute::new("rs1".to_string(), phys(5)));
    assert_eq!(op.attributes[1], NamedAttribute::new("imm".to_string(), AttributeValue::Int(2)));
    assert!(decode_into(&mut ctx, word | 1 << 14, &BEQ_DECODE, roles).is_none());
}
