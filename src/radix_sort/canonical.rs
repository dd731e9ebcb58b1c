use vstd::prelude::*;

verus! {

/// The sign bit of a 32-bit word.
pub const SIGN_BIT: u32 = 0x8000_0000;

/// The unsigned key of a signed key: the sign bit flipped.
pub open spec fn spec_canonicalize_i32(x: i32) -> u32 {
    (x as u32) ^ 0x8000_0000u32
}

/// The signed key of an unsigned key: the sign bit flipped back.
pub open spec fn spec_decanonicalize_i32(k: u32) -> i32 {
    (k ^ 0x8000_0000u32) as i32
}

/// The unsigned key of the bits of a single-precision float: all bits flipped when
/// the sign bit is set, else the sign bit alone.
pub open spec fn spec_canonicalize_f32_bits(bits: u32) -> u32 {
    if bits & 0x8000_0000u32 != 0 {
        !bits
    } else {
        bits ^ 0x8000_0000u32
    }
}

/// The float bits of an unsigned key.
pub open spec fn spec_decanonicalize_f32_bits(k: u32) -> u32 {
    if k & 0x8000_0000u32 != 0 {
        k ^ 0x8000_0000u32
    } else {
        !k
    }
}

/// The unsigned key whose digits sort signed keys in their order.
pub fn canonicalize_i32(x: i32) -> (r: u32)
    ensures
        r == spec_canonicalize_i32(x),
{
    (x as u32) ^ SIGN_BIT
}

/// The signed key back from its unsigned key.
pub fn decanonicalize_i32(k: u32) -> (r: i32)
    ensures
        r == spec_decanonicalize_i32(k),
{
    (k ^ SIGN_BIT) as i32
}

/// The unsigned key whose digits sort floats, given by their bits, in their order.
pub fn canonicalize_f32_bits(bits: u32) -> (r: u32)
    ensures
        r == spec_canonicalize_f32_bits(bits),
{
    if bits & SIGN_BIT != 0 {
        !bits
    } else {
        bits ^ SIGN_BIT
    }
}

/// The float bits back from their unsigned key.
pub fn decanonicalize_f32_bits(k: u32) -> (r: u32)
    ensures
        r == spec_decanonicalize_f32_bits(k),
{
    if k & SIGN_BIT != 0 {
        k ^ SIGN_BIT
    } else {
        !k
    }
}

/// Turning a signed key into its unsigned key and back gives the key, and the other
/// way round: the transform is a bijection.
pub proof fn lemma_i32_round_trip(x: i32, k: u32)
    ensures
        spec_decanonicalize_i32(spec_canonicalize_i32(x)) == x,
        spec_canonicalize_i32(spec_decanonicalize_i32(k)) == k,
{
    assert((((x as u32) ^ 0x8000_0000u32) ^ 0x8000_0000u32) as i32 == x) by (bit_vector);
    assert((((k ^ 0x8000_0000u32) as i32) as u32) ^ 0x8000_0000u32 == k) by (bit_vector);
}

/// The unsigned keys of signed keys are ordered as the signed keys are.
pub proof fn lemma_i32_order(a: i32, b: i32)
    ensures
        a < b <==> spec_canonicalize_i32(a) < spec_canonicalize_i32(b),
{
    assert(a < b <==> ((a as u32) ^ 0x8000_0000u32) < ((b as u32) ^ 0x8000_0000u32)) by (bit_vector);
}

/// Turning float bits into their unsigned key and back gives the bits, and the other
/// way round, for every bit pattern, NaNs included.
pub proof fn lemma_f32_round_trip(bits: u32, k: u32)
    ensures
        spec_decanonicalize_f32_bits(spec_canonicalize_f32_bits(bits)) == bits,
        spec_canonicalize_f32_bits(spec_decanonicalize_f32_bits(k)) == k,
{
    assert(bits & 0x8000_0000u32 != 0 ==> (!bits) & 0x8000_0000u32 == 0 && !(!bits) == bits) by (bit_vector);
    assert(bits & 0x8000_0000u32 == 0 ==> (bits ^ 0x8000_0000u32) & 0x8000_0000u32 != 0
        && (bits ^ 0x8000_0000u32) ^ 0x8000_0000u32 == bits) by (bit_vector);
    assert(k & 0x8000_0000u32 != 0 ==> (k ^ 0x8000_0000u32) & 0x8000_0000u32 == 0 && ((k ^ 0x8000_0000u32) ^ 0x8000_0000u32) == k) by (bit_vector);
    assert(k & 0x8000_0000u32 == 0 ==> (!k) & 0x8000_0000u32 != 0 && !(!k) == k) by (bit_vector);
}

/// Non-negative floats (sign bit clear) get keys above those of negative floats
/// (sign bit set); among non-negative floats larger bits give larger keys, among
/// negative floats larger bits (a larger magnitude) give smaller keys.
pub proof fn lemma_f32_order(a: u32, b: u32)
    ensures
        a & 0x8000_0000u32 != 0 && b & 0x8000_0000u32 == 0 ==> spec_canonicalize_f32_bits(a) < spec_canonicalize_f32_bits(b),
        a & 0x8000_0000u32 == 0 && b & 0x8000_0000u32 == 0 ==> (a < b <==> spec_canonicalize_f32_bits(a) < spec_canonicalize_f32_bits(b)),
        a & 0x8000_0000u32 != 0 && b & 0x8000_0000u32 != 0 ==> (a < b <==> spec_canonicalize_f32_bits(b) < spec_canonicalize_f32_bits(a)),
{
    assert(a & 0x8000_0000u32 != 0 && b & 0x8000_0000u32 == 0 ==> !a < (b ^ 0x8000_0000u32)) by (bit_vector);
    assert(a & 0x8000_0000u32 == 0 && b & 0x8000_0000u32 == 0 ==> (a < b <==> (a ^ 0x8000_0000u32) < (b ^ 0x8000_0000u32))) by (bit_vector);
    assert(a & 0x8000_0000u32 != 0 && b & 0x8000_0000u32 != 0 ==> (a < b <==> !b < !a)) by (bit_vector);
}

} // verus!
