use vstd::prelude::*;

verus! {

/// Whether `index` names one of x8..x15 (f8..f15): the registers a 3-bit
/// compressed register field reaches.
pub open spec fn spec_is_c_reg(index: u16) -> bool {
    8 <= index <= 15
}

/// x8..x15 (f8..f15): the registers a 3-bit field reaches.
pub fn is_c_reg(index: u16) -> (r: bool)
    ensures
        r == spec_is_c_reg(index),
{
    8 <= index && index <= 15
}

/// A load/store offset that fits a zero-extended immediate of `bits` bits
/// scaled by `scale`.
pub open spec fn spec_fits_uimm(value: i64, bits: u32, scale: i64) -> bool {
    value >= 0 && value % scale == 0 && value < pow2(bits as nat)
}

/// 2 to the `n`.
pub open spec fn pow2(n: nat) -> int
    decreases n,
{
    if n == 0 {
        1
    } else {
        2 * pow2((n - 1) as nat)
    }
}

proof fn lemma_shl_one(bits: u32)
    requires
        bits < 63,
    ensures
        (1i64 << bits) as int == pow2(bits as nat),
    decreases bits,
{
    if bits == 0 {
        assert((1i64 << 0u32) == 1) by (bit_vector);
    } else {
        lemma_shl_one((bits - 1) as u32);
        assert(1 <= bits < 63 ==> (1i64 << bits) == 2 * (1i64 << ((bits - 1) as u32))) by (bit_vector);
    }
}

/// A load/store offset that fits a zero-extended immediate of `bits` bits
/// scaled by `scale`.
pub fn fits_uimm(value: i64, bits: u32, scale: i64) -> (r: bool)
    requires
        scale > 0,
        bits < 63,
    ensures
        r == spec_fits_uimm(value, bits, scale),
{
    proof {
        lemma_shl_one(bits);
    }
    value >= 0 && value % scale == 0 && value < (1i64 << bits)
}

/// A signed 6-bit immediate.
pub open spec fn spec_fits_simm6(value: i64) -> bool {
    -32 <= value < 32
}

pub fn fits_simm6(value: i64) -> (r: bool)
    ensures
        r == spec_fits_simm6(value),
{
    -32 <= value && value < 32
}

} // verus!
