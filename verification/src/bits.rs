use bit_field::BitField;
use vstd::prelude::*;

verus! {

/// Bit `j` of `w`, counting from the least significant bit.
pub open spec fn bit_of(w: u32, j: u32) -> bool {
    (w >> j) & 1u32 == 1u32
}

/// `BitField::bit_length` of bit_field for `u32`: the width of the type in bits,
/// which the crate computes as `size_of::<u32>() * 8`.
#[verifier::external_body]
pub(crate) fn u32_bit_length() -> (n: usize)
    ensures
        n == 32,
{
    u32::bit_length()
}

/// `BitField::get_bit` of bit_field on a `u32`: the crate asserts `bit < 32` and
/// returns `(x & (1 << bit)) != 0`.
#[verifier::external_body]
pub(crate) fn u32_get_bit(x: u32, bit: usize) -> (b: bool)
    requires
        bit < 32,
    ensures
        b == (x & (1u32 << (bit as u32)) != 0u32),
{
    x.get_bit(bit)
}

/// `BitField::set_bit` of bit_field on a `u32`: the crate asserts `bit < 32`, then
/// ORs in `1 << bit` when `value` holds and clears that bit otherwise.
#[verifier::external_body]
pub(crate) fn u32_set_bit(x: &mut u32, bit: usize, value: bool)
    requires
        bit < 32,
    ensures
        *final(x) == (if value {
            *old(x) | (1u32 << (bit as u32))
        } else {
            *old(x) & !(1u32 << (bit as u32))
        }),
{
    x.set_bit(bit, value);
}

/// `BitField::get_bits` of bit_field on a `u32` with the range `start..end`: the
/// crate asserts `start < 32`, `end <= 32` and `start < end`, shifts the bits above
/// `end` out to the left and back, then shifts right by `start`.
#[verifier::external_body]
pub(crate) fn u32_get_bits(x: u32, start: usize, end: usize) -> (r: u32)
    requires
        start < end <= 32,
    ensures
        r == ((x << ((32 - end) as u32)) >> ((32 - end) as u32)) >> (start as u32),
{
    x.get_bits(start..end)
}

/// `BitField::get_bits` of bit_field on a `u8` with the range `start..end`: the
/// crate asserts `start < 8`, `end <= 8` and `start < end`, shifts the bits above
/// `end` out to the left and back, then shifts right by `start`.
#[verifier::external_body]
pub(crate) fn u8_get_bits(x: u8, start: usize, end: usize) -> (r: u8)
    requires
        start < end <= 8,
    ensures
        r == ((x << ((8 - end) as u8)) >> ((8 - end) as u8)) >> (start as u8),
{
    x.get_bits(start..end)
}

} // verus!
