//! Table-driven instruction encoders, patchers and decoders.
//!
//! One spec per instruction instead of a generated function; these engines
//! interpret the spec. Bit placement is described as runs: operand bits
//! `[op_lo, op_lo + width)` map to word bits `[word_lo, word_lo + width)`.
use vstd::prelude::*;

use crate::attributes::{
    attr_index, find_attr, spec_attr, AttributeRole, AttributeValue, NamedAttribute, RegisterAttr,
};
use crate::context::{attributed_op_added, Context};
use crate::ids::{BlockId, OpId};

verus! {

/// One contiguous run of an operand's bits placed into the encoded word.
#[derive(Debug, Clone, Copy, PartialEq, Eq, Structural)]
pub struct FieldRun {
    pub op_lo: u16,
    pub word_lo: u16,
    pub width: u16,
}

/// The mask of the low `width` bits of a 128-bit word.
pub open spec fn spec_run_mask(width: u16) -> u128 {
    if width >= 128 {
        u128::MAX
    } else {
        ((1u128 << width) - 1) as u128
    }
}

pub fn run_mask(width: u16) -> (r: u128)
    ensures
        r == spec_run_mask(width),
{
    if width >= 128 {
        u128::MAX
    } else {
        assert(1u128 << width >= 1) by (bit_vector)
            requires
                width < 128,
        ;
        (1u128 << width) - 1
    }
}

/// Every run's shift amounts stay inside a 128-bit word.
pub open spec fn runs_fit_wide(runs: Seq<FieldRun>) -> bool {
    forall|i: int| 0 <= i < runs.len() ==> runs[i].op_lo < 128 && runs[i].word_lo < 128
}

/// Every run reads a 32-bit word and builds a 64-bit operand.
pub open spec fn runs_fit_narrow(runs: Seq<FieldRun>) -> bool {
    forall|i: int| 0 <= i < runs.len() ==> runs[i].op_lo < 64 && runs[i].word_lo < 32
}

/// One run of `value` placed into `word`.
pub open spec fn scatter_run(word: u128, value: u128, run: FieldRun) -> u128 {
    word | (((value >> (run.op_lo as u32)) & spec_run_mask(run.width)) << (run.word_lo as u32))
}

/// Every run of `value` placed into `word`, in order.
pub open spec fn spec_scatter(word: u128, value: u128, runs: Seq<FieldRun>) -> u128
    decreases runs.len(),
{
    if runs.len() == 0 {
        word
    } else {
        scatter_run(spec_scatter(word, value, runs.drop_last()), value, runs.last())
    }
}

/// Encode-side scatter: place `value`'s runs into `word`.
pub fn scatter(word: &mut u128, value: u128, runs: &[FieldRun])
    requires
        runs_fit_wide(runs@),
    ensures
        *final(word) == spec_scatter(*old(word), value, runs@),
{
    let ghost start = *word;
    let mut i: usize = 0;
    while i < runs.len()
        invariant
            i <= runs@.len(),
            runs_fit_wide(runs@),
            *word == spec_scatter(start, value, runs@.subrange(0, i as int)),
        decreases runs.len() - i,
    {
        let run = runs[i];
        assert(runs@.subrange(0, i + 1).drop_last() =~= runs@.subrange(0, i as int));
        *word = *word | (((value >> (run.op_lo as u32)) & run_mask(run.width)) << (run.word_lo as u32));
        i = i + 1;
    }
    assert(runs@.subrange(0, runs@.len() as int) =~= runs@);
}

/// One run of an operand read back out of `word`.
pub open spec fn gather_run(word: u32, run: FieldRun) -> u64 {
    (((word >> (run.word_lo as u32)) as u64) & (spec_run_mask(run.width) as u64)) << (run.op_lo as u32)
}

/// The operand value the runs rebuild from `word`.
pub open spec fn spec_gather(word: u32, runs: Seq<FieldRun>) -> u64
    decreases runs.len(),
{
    if runs.len() == 0 {
        0
    } else {
        spec_gather(word, runs.drop_last()) | gather_run(word, runs.last())
    }
}

/// Decode-side gather: rebuild an operand value from its runs in `word`.
pub fn gather(word: u32, runs: &[FieldRun]) -> (r: u64)
    requires
        runs_fit_narrow(runs@),
    ensures
        r == spec_gather(word, runs@),
{
    let mut value: u64 = 0;
    let mut i: usize = 0;
    while i < runs.len()
        invariant
            i <= runs@.len(),
            runs_fit_narrow(runs@),
            value == spec_gather(word, runs@.subrange(0, i as int)),
        decreases runs.len() - i,
    {
        let run = runs[i];
        assert(runs@.subrange(0, i + 1).drop_last() =~= runs@.subrange(0, i as int));
        value = value | ((((word >> (run.word_lo as u32)) as u64) & (run_mask(run.width) as u64))
            << (run.op_lo as u32));
        i = i + 1;
    }
    assert(runs@.subrange(0, runs@.len() as int) =~= runs@);
    value
}

/// The little-endian word the first `n` bytes spell.
pub open spec fn spec_le_word(bytes: Seq<u8>, n: nat) -> u128
    decreases n,
{
    if n == 0 {
        0
    } else {
        spec_le_word(bytes, (n - 1) as nat) | ((bytes[n - 1] as u128) << ((8 * (n - 1)) as u32))
    }
}

/// Byte `i` of `word`, little-endian.
pub open spec fn le_byte(word: u128, i: int) -> u8 {
    (word >> ((8 * i) as u32)) as u8
}

/// The first `n` little-endian bytes of `word`.
pub open spec fn spec_le_bytes(word: u128, n: nat) -> Seq<u8> {
    Seq::new(n, |i: int| le_byte(word, i))
}

fn le_bytes(word: u128, n: usize) -> (r: Vec<u8>)
    requires
        n <= 16,
    ensures
        r@ == spec_le_bytes(word, n as nat),
{
    let mut out: Vec<u8> = Vec::new();
    let mut i: usize = 0;
    while i < n
        invariant
            i <= n <= 16,
            out@ =~= spec_le_bytes(word, i as nat),
        decreases n - i,
    {
        out.push((word >> ((8 * i) as u32)) as u8);
        i = i + 1;
    }
    out
}

/// What an unresolved instruction operand points at.
#[derive(Debug, Clone, PartialEq, Eq)]
pub enum FixupTarget {
    /// A basic block in the same symbol; resolved to a pc-relative delta
    /// during layout.
    Block(BlockId),
    /// A named symbol; becomes a relocation if it cannot be resolved locally.
    Symbol(String),
}

/// A fixup target as a mathematical value.
pub enum FixupTargetView {
    Block(BlockId),
    Symbol(Seq<char>),
}

impl View for FixupTarget {
    type V = FixupTargetView;

    open spec fn view(&self) -> FixupTargetView {
        match self {
            FixupTarget::Block(b) => FixupTargetView::Block(*b),
            FixupTarget::Symbol(s) => FixupTargetView::Symbol(s@),
        }
    }
}

/// An operand left as zero bits in the encoded instruction.
#[derive(Debug, Clone, PartialEq, Eq)]
pub struct InstFixup {
    /// Operand name the fixup applies to (e.g. `"imm"`).
    pub operand: &'static str,
    pub target: FixupTarget,
}

impl View for InstFixup {
    type V = (Seq<char>, FixupTargetView);

    open spec fn view(&self) -> (Seq<char>, FixupTargetView) {
        (self.operand@, self.target@)
    }
}

/// One encoded machine instruction.
#[derive(Debug, Clone, PartialEq, Eq)]
pub struct EncodedInst {
    /// Little-endian instruction bytes; fixup bits are zero.
    pub bytes: Vec<u8>,
    pub fixups: Vec<InstFixup>,
}

/// One operand's contribution to an instruction encoding.
pub struct EncodeField {
    pub attr: &'static str,
    /// Immediate fit check for a field narrower than 64 bits: `(min, max)` for
    /// signed spellings, `umax` (exclusive) for unsigned. `None` for full-width
    /// fields and unconstrained operands.
    pub int_range: Option<(i64, i64, u64)>,
    pub runs: &'static [FieldRun],
    pub register: bool,
}

/// The encoding of one instruction: fixed bits plus per-operand field runs.
pub struct EncodeSpec {
    pub const_word: u128,
    pub width_bytes: usize,
    pub fields: &'static [EncodeField],
}

/// The spec can be interpreted: its width fits a 128-bit word and every run
/// shifts inside it.
pub open spec fn encode_spec_fits(spec: &EncodeSpec) -> bool {
    &&& spec.width_bytes <= 16
    &&& forall|i: int| 0 <= i < spec.fields@.len() ==> runs_fit_wide(#[trigger] spec.fields@[i].runs@)
}

/// The encoding state after one more field: the word so far and the fixups
/// recorded so far, or `None` once a field cannot be encoded.
pub open spec fn encode_field(
    attrs: Seq<NamedAttribute>,
    state: Option<(u128, Seq<(Seq<char>, FixupTargetView)>)>,
    field: EncodeField,
) -> Option<(u128, Seq<(Seq<char>, FixupTargetView)>)> {
    match state {
        None => None,
        Some((word, fixups)) => match spec_attr(attrs, field.attr@) {
            None => None,
            Some(value) => if field.register {
                match value {
                    AttributeValue::Register(RegisterAttr::Physical { index, .. }) => Some(
                        (spec_scatter(word, index as u128, field.runs@), fixups),
                    ),
                    _ => None,
                }
            } else {
                match value {
                    AttributeValue::Int(v) => match field.int_range {
                        Some((min, max, _)) if !(min <= v < max) => None,
                        _ => Some((spec_scatter(word, v as u128, field.runs@), fixups)),
                    },
                    AttributeValue::UInt(v) => match field.int_range {
                        Some((_, _, umax)) if v >= umax => None,
                        _ => Some((spec_scatter(word, v as u128, field.runs@), fixups)),
                    },
                    AttributeValue::Str(s) => Some(
                        (word, fixups.push((field.attr@, FixupTargetView::Symbol(s@)))),
                    ),
                    AttributeValue::Block(b) => Some(
                        (word, fixups.push((field.attr@, FixupTargetView::Block(b)))),
                    ),
                    _ => None,
                }
            },
        },
    }
}

/// The encoding state after the given fields, starting from the fixed bits.
pub open spec fn encode_fields(
    attrs: Seq<NamedAttribute>,
    const_word: u128,
    fields: Seq<EncodeField>,
) -> Option<(u128, Seq<(Seq<char>, FixupTargetView)>)>
    decreases fields.len(),
{
    if fields.len() == 0 {
        Some((const_word, Seq::empty()))
    } else {
        encode_field(attrs, encode_fields(attrs, const_word, fields.drop_last()), fields.last())
    }
}

proof fn lemma_encode_none_stays(
    attrs: Seq<NamedAttribute>,
    const_word: u128,
    fields: Seq<EncodeField>,
    i: int,
)
    requires
        0 <= i <= fields.len(),
        encode_fields(attrs, const_word, fields.subrange(0, i)) is None,
    ensures
        encode_fields(attrs, const_word, fields) is None,
    decreases fields.len() - i,
{
    if i < fields.len() {
        assert(fields.subrange(0, i + 1).drop_last() =~= fields.subrange(0, i));
        lemma_encode_none_stays(attrs, const_word, fields, i + 1);
    } else {
        assert(fields.subrange(0, i) =~= fields);
    }
}

/// Interprets an [`EncodeSpec`] over an operation's attributes. `None` when an
/// operand cannot be encoded (e.g. a virtual register survived register
/// allocation, or an immediate does not fit); symbol/block operands become
/// fixups with their bits left zero.
pub fn encode_with(attrs: &[NamedAttribute], spec: &EncodeSpec) -> (r: Option<EncodedInst>)
    requires
        encode_spec_fits(spec),
    ensures
        match encode_fields(attrs@, spec.const_word, spec.fields@) {
            None => r is None,
            Some((word, fixups)) => r matches Some(inst) && inst.bytes@ == spec_le_bytes(
                word,
                spec.width_bytes as nat,
            ) && inst.fixups@.map_values(|f: InstFixup| f@) == fixups,
        },
{
    let mut word = spec.const_word;
    let mut fixups: Vec<InstFixup> = Vec::new();
    let mut i: usize = 0;
    while i < spec.fields.len()
        invariant
            i <= spec.fields@.len(),
            encode_spec_fits(spec),
            encode_fields(attrs@, spec.const_word, spec.fields@.subrange(0, i as int)) == Some(
                (word, fixups@.map_values(|f: InstFixup| f@)),
            ),
        decreases spec.fields.len() - i,
    {
        let field = &spec.fields[i];
        let ghost prefix = spec.fields@.subrange(0, i as int);
        assert(spec.fields@.subrange(0, i + 1).drop_last() =~= prefix);
        assert(spec.fields@.subrange(0, i + 1).last() == *field);
        assert(runs_fit_wide(spec.fields@[i as int].runs@));
        let value = match find_attr(attrs, field.attr) {
            Some(v) => v,
            None => {
                proof {
                    lemma_encode_none_stays(attrs@, spec.const_word, spec.fields@, i + 1);
                }
                return None;
            },
        };
        if field.register {
            match value {
                AttributeValue::Register(RegisterAttr::Physical { index, .. }) => {
                    scatter(&mut word, *index as u128, field.runs);
                },
                _ => {
                    proof {
                        lemma_encode_none_stays(attrs@, spec.const_word, spec.fields@, i + 1);
                    }
                    return None;
                },
            }
        } else {
            match value {
                AttributeValue::Int(v) => {
                    let fits = match field.int_range {
                        Some((min, max, _)) => min <= *v && *v < max,
                        None => true,
                    };
                    if !fits {
                        proof {
                            lemma_encode_none_stays(attrs@, spec.const_word, spec.fields@, i + 1);
                        }
                        return None;
                    }
                    scatter(&mut word, *v as u128, field.runs);
                },
                AttributeValue::UInt(v) => {
                    let fits = match field.int_range {
                        Some((_, _, umax)) => *v < umax,
                        None => true,
                    };
                    if !fits {
                        proof {
                            lemma_encode_none_stays(attrs@, spec.const_word, spec.fields@, i + 1);
                        }
                        return None;
                    }
                    scatter(&mut word, *v as u128, field.runs);
                },
                AttributeValue::Str(s) => {
                    let ghost before = fixups@;
                    fixups.push(InstFixup { operand: field.attr, target: FixupTarget::Symbol(s.clone()) });
                    assert(fixups@.map_values(|f: InstFixup| f@) =~= before.map_values(|f: InstFixup| f@).push((field.attr@, FixupTargetView::Symbol(s@))));
                },
                AttributeValue::Block(b) => {
                    let ghost before = fixups@;
                    fixups.push(InstFixup { operand: field.attr, target: FixupTarget::Block(*b) });
                    assert(fixups@.map_values(|f: InstFixup| f@) =~= before.map_values(|f: InstFixup| f@).push((field.attr@, FixupTargetView::Block(*b))));
                },
                _ => {
                    proof {
                        lemma_encode_none_stays(attrs@, spec.const_word, spec.fields@, i + 1);
                    }
                    return None;
                },
            }
        }
        i = i + 1;
    }
    assert(spec.fields@.subrange(0, spec.fields@.len() as int) =~= spec.fields@);
    let bytes = le_bytes(word, spec.width_bytes);
    Some(EncodedInst { bytes, fixups })
}

/// Re-scatter of a resolved fixup value into an instruction's immediate field.
pub struct PatchSpec {
    /// Signed fit check for the value; `None` for full-width fields.
    pub range: Option<(i64, i64)>,
    /// Operand bits below the lowest encoded bit are silently dropped by the
    /// scatter (e.g. bit 0 of RISC-V branch offsets); a value with any of them
    /// set cannot be represented.
    pub dropped_mask: u128,
    pub width_bytes: usize,
    pub runs: &'static [FieldRun],
}

/// Whether `value` cannot be represented by the patched field, or the
/// instruction is shorter than the spec's width.
pub open spec fn patch_rejects(len: nat, value: i64, spec: &PatchSpec) -> bool {
    ||| (spec.range matches Some((min, max)) && !(min <= value < max))
    ||| (spec.dropped_mask != 0 && (value as u128) & spec.dropped_mask != 0)
    ||| len < spec.width_bytes
}

/// The instruction bytes after patching `value` into them.
pub open spec fn spec_patched(bytes: Seq<u8>, value: i64, spec: &PatchSpec) -> Seq<u8> {
    let n = spec.width_bytes as nat;
    spec_le_bytes(spec_scatter(spec_le_word(bytes, n), value as u128, spec.runs@), n) + bytes.subrange(
        n as int,
        bytes.len() as int,
    )
}

/// Interprets a [`PatchSpec`]. `None` when the value does not fit the
/// operand's encoding (out of range or misaligned), leaving the bytes as
/// they were.
pub fn patch_with(bytes: &mut [u8], value: i64, spec: &PatchSpec) -> (r: Option<()>)
    requires
        spec.width_bytes <= 16,
        runs_fit_wide(spec.runs@),
    ensures
        patch_rejects(old(bytes)@.len(), value, spec) ==> r is None && final(bytes)@ == old(bytes)@,
        !patch_rejects(old(bytes)@.len(), value, spec) ==> r is Some && final(bytes)@ == spec_patched(
            old(bytes)@,
            value,
            spec,
        ),
{
    if let Some((min, max)) = spec.range {
        if !(min <= value && value < max) {
            return None;
        }
    }
    if spec.dropped_mask != 0 && (value as u128) & spec.dropped_mask != 0 {
        return None;
    }
    if bytes.len() < spec.width_bytes {
        return None;
    }
    let n = spec.width_bytes;
    let ghost original = bytes@;
    let mut word: u128 = 0;
    let mut i: usize = 0;
    while i < n
        invariant
            i <= n <= 16,
            n <= bytes@.len(),
            bytes@ == original,
            word == spec_le_word(original, i as nat),
        decreases n - i,
    {
        word = word | ((bytes[i] as u128) << ((8 * i) as u32));
        i = i + 1;
    }
    scatter(&mut word, value as u128, spec.runs);
    let mut j: usize = 0;
    while j < n
        invariant
            j <= n <= 16,
            n <= original.len(),
            bytes@.len() == original.len(),
            forall|k: int| 0 <= k < j ==> bytes@[k] == le_byte(word, k),
            forall|k: int| j <= k < original.len() ==> bytes@[k] == original[k],
        decreases n - j,
    {
        bytes[j] = (word >> ((8 * j) as u32)) as u8;
        j = j + 1;
    }
    assert(bytes@ =~= spec_patched(original, value, spec));
    Some(())
}

/// What a decoded field becomes: a physical register of a fixed class, or a
/// raw integer immediate.
#[derive(Clone, Copy)]
pub enum DecodeFieldKind {
    Register(&'static str),
    Int,
}

/// One operand's reconstruction from the encoded word.
#[derive(Clone, Copy)]
pub struct DecodeField {
    pub attr: &'static str,
    pub kind: DecodeFieldKind,
    pub runs: &'static [FieldRun],
}

/// The decoding of one instruction: fixed-bit match plus per-operand field
/// runs.
pub struct DecodeSpec {
    /// `(dialect, op)` identity of the operation to build.
    pub op: (&'static str, &'static str),
    pub fixed_mask: u32,
    pub const_word: u32,
    pub fields: &'static [DecodeField],
    /// Every attribute the op declares; decoding fills all of them.
    pub attrs: &'static [&'static str],
}

/// The operation a decoder rebuilds: its identity and attributes.
#[derive(Debug, PartialEq)]
pub struct DecodedInst {
    pub dialect: &'static str,
    pub name: &'static str,
    pub attributes: Vec<NamedAttribute>,
}

/// The spec can be interpreted: each field's runs read a 32-bit word into a
/// 64-bit operand, and every declared attribute is filled by some field.
pub open spec fn decode_spec_fits(spec: &DecodeSpec) -> bool {
    &&& forall|i: int| 0 <= i < spec.fields@.len() ==> runs_fit_narrow(#[trigger] spec.fields@[i].runs@)
    &&& forall|d: int| 0 <= d < spec.attrs@.len() ==> exists|i: int| 0 <= i < spec.fields@.len()
        && (#[trigger] spec.fields@[i]).attr@ == (#[trigger] spec.attrs@[d])@
}

/// Whether `value` is what `field` decodes to from `word`: the gathered bits
/// as a physical register of the field's class, or as a signed immediate.
pub open spec fn decodes_to(word: u32, field: DecodeField, value: AttributeValue) -> bool {
    let bits = spec_gather(word, field.runs@);
    match (field.kind, value) {
        (
            DecodeFieldKind::Register(class),
            AttributeValue::Register(RegisterAttr::Physical { class: c, index }),
        ) => c@ == class@ && index == bits as u16,
        (DecodeFieldKind::Int, AttributeValue::Int(v)) => v == bits as i64,
        _ => false,
    }
}

/// `attrs` are what `spec` decodes from `word`: one attribute per field, in
/// field order, named by the field and holding what it decodes to.
pub open spec fn decoded_attributes(word: u32, spec: &DecodeSpec, attrs: Seq<NamedAttribute>) -> bool {
    &&& attrs.len() == spec.fields@.len()
    &&& forall|i: int|
        0 <= i < spec.fields@.len() ==> (#[trigger] attrs[i]).name@ == spec.fields@[i].attr@
            && decodes_to(word, spec.fields@[i], attrs[i].value)
}

/// Decode `word` under `spec` into `ctx`: the instruction [`decode_with`]
/// rebuilds is added as an operation and its id returned; `attribute_roles`
/// are the roles its attributes play. `None`, with `ctx` untouched, when the
/// fixed bits do not match.
pub fn decode_into(ctx: &mut Context, word: u32, spec: &DecodeSpec, attribute_roles: Vec<(String, AttributeRole)>) -> (r: Option<OpId>)
    requires
        decode_spec_fits(spec),
        (old(ctx).next_op() as int) < usize::MAX,
    ensures
        r is None <==> word & spec.fixed_mask != spec.const_word,
        r is None ==> *final(ctx) == *old(ctx),
        r matches Some(id) ==> {
            let attrs = final(ctx).spec_op(id)->0.attributes@;
            &&& decoded_attributes(word, spec, attrs)
            &&& attributed_op_added(old(ctx), final(ctx), id, spec.op.0@, spec.op.1@, attrs, attribute_roles@)
        },
{
    match decode_with(word, spec) {
        None => None,
        Some(inst) => {
            let ghost attrs = inst.attributes@;
            let id = ctx.add_attributed_op(inst.dialect, inst.name, inst.attributes, attribute_roles);
            proof {
                assert(ctx.spec_op(id)->0.attributes@ == attrs);
            }
            Some(id)
        },
    }
}

/// Interprets a [`DecodeSpec`]: matches the fixed bits and rebuilds each
/// operand. `None` when the fixed bits do not match.
pub fn decode_with(word: u32, spec: &DecodeSpec) -> (r: Option<DecodedInst>)
    requires
        decode_spec_fits(spec),
    ensures
        r is None <==> word & spec.fixed_mask != spec.const_word,
        r matches Some(inst) ==> {
            &&& inst.dialect == spec.op.0
            &&& inst.name == spec.op.1
            &&& inst.attributes@.len() == spec.fields@.len()
            &&& forall|i: int|
                0 <= i < spec.fields@.len() ==> (#[trigger] inst.attributes@[i]).name@
                    == spec.fields@[i].attr@ && decodes_to(word, spec.fields@[i], inst.attributes@[i].value)
        },
{
    if word & spec.fixed_mask != spec.const_word {
        return None;
    }
    let mut attributes: Vec<NamedAttribute> = Vec::new();
    let mut i: usize = 0;
    while i < spec.fields.len()
        invariant
            i <= spec.fields@.len(),
            decode_spec_fits(spec),
            attributes@.len() == i,
            forall|k: int|
                0 <= k < i ==> (#[trigger] attributes@[k]).name@ == spec.fields@[k].attr@
                    && decodes_to(word, spec.fields@[k], attributes@[k].value),
        decreases spec.fields.len() - i,
    {
        let field = spec.fields[i];
        assert(runs_fit_narrow(spec.fields@[i as int].runs@));
        let value = gather(word, field.runs);
        let attr = match field.kind {
            DecodeFieldKind::Register(class) => AttributeValue::Register(
                RegisterAttr::Physical { class: String::from_str(class), index: value as u16 },
            ),
            DecodeFieldKind::Int => AttributeValue::Int(value as i64),
        };
        attributes.push(NamedAttribute { name: String::from_str(field.attr), value: attr });
        i = i + 1;
    }
    Some(DecodedInst { dialect: spec.op.0, name: spec.op.1, attributes })
}

} // verus!
