//! Byte and nibble extraction on opcode words.
use vstd::prelude::*;

verus! {

/// The low byte of a 16-bit word.
pub fn last_byte(val: u16) -> (r: u8)
    ensures
        r == val % 256,
{
    let r = (val & 0x00FF) as u8;
    assert((val & 0x00FF) as u8 == val % 256) by (bit_vector);
    r
}

/// The high byte of a 16-bit word.
pub fn first_byte(val: u16) -> (r: u8)
    ensures
        r == val / 256,
{
    let r = ((val & 0xFF00) >> 8) as u8;
    assert(((val & 0xFF00) >> 8) as u8 == val / 256) by (bit_vector);
    r
}

/// The high nibble of a byte.
pub fn first_nibble(val: u8) -> (r: u8)
    ensures
        r == val / 16,
{
    let r = (val & 0xF0) >> 4;
    assert((val & 0xF0) >> 4 == val / 16) by (bit_vector);
    r
}

/// The low nibble of a byte.
pub fn last_nibble(val: u8) -> (r: u8)
    ensures
        r == val % 16,
{
    let r = val & 0x0F;
    assert(val & 0x0F == val % 16) by (bit_vector);
    r
}

} // verus!
