//! Telling text from other bytes: names and paths are text, kept as UTF-8.

use vstd::prelude::*;
use vstd::utf8::{
    length_of_first_scalar, partial_valid_partial_invalid_utf8, partial_valid_utf8,
    partial_valid_utf8_extend, valid_first_scalar, valid_utf8,
};

verus! {

/// The length of the scalar that the bytes from `i` on start with, or 0
/// where they start with no well-formed scalar: a leading byte with the
/// continuation bytes that belong to it, not longer than need be, and no
/// surrogate.
fn first_scalar_len(bytes: &[u8], i: usize) -> (len: usize)
    requires
        i < bytes@.len(),
    ensures
        len == 0 <==> !valid_first_scalar(bytes@.subrange(i as int, bytes@.len() as int)),
        len > 0 ==> len == length_of_first_scalar(bytes@.subrange(i as int, bytes@.len() as int))
            && i + len <= bytes@.len(),
{
    let ghost rest = bytes@.subrange(i as int, bytes@.len() as int);
    let left = bytes.len() - i;
    let b0 = bytes[i];
    assert(rest[0] == b0);
    if b0 <= 0x7f {
        assert((b0 & 0x7f) as u32 <= 0x7f) by (bit_vector);
        1
    } else if 0xc0 <= b0 && b0 <= 0xdf {
        if left < 2 {
            return 0;
        }
        let b1 = bytes[i + 1];
        assert(rest[1] == b1);
        if !(0x80 <= b1 && b1 <= 0xbf) {
            return 0;
        }
        let scalar: u32 = (((b0 & 0x1f) as u32) << 6) | ((b1 & 0x3f) as u32);
        assert(scalar <= 0x7ff) by (bit_vector)
            requires
                scalar == (((b0 & 0x1f) as u32) << 6) | ((b1 & 0x3f) as u32),
        ;
        if scalar < 0x80 {
            return 0;
        }
        2
    } else if 0xe0 <= b0 && b0 <= 0xef {
        if left < 3 {
            return 0;
        }
        let b1 = bytes[i + 1];
        let b2 = bytes[i + 2];
        assert(rest[1] == b1 && rest[2] == b2);
        if !(0x80 <= b1 && b1 <= 0xbf) || !(0x80 <= b2 && b2 <= 0xbf) {
            return 0;
        }
        let scalar: u32 = (((b0 & 0x0f) as u32) << 12) | (((b1 & 0x3f) as u32) << 6) | ((b2
            & 0x3f) as u32);
        if scalar < 0x800 || (0xd800 <= scalar && scalar <= 0xdfff) {
            return 0;
        }
        3
    } else if 0xf0 <= b0 && b0 <= 0xf7 {
        if left < 4 {
            return 0;
        }
        let b1 = bytes[i + 1];
        let b2 = bytes[i + 2];
        let b3 = bytes[i + 3];
        assert(rest[1] == b1 && rest[2] == b2 && rest[3] == b3);
        if !(0x80 <= b1 && b1 <= 0xbf) || !(0x80 <= b2 && b2 <= 0xbf) || !(0x80 <= b3 && b3
            <= 0xbf) {
            return 0;
        }
        let scalar: u32 = (((b0 & 0x07) as u32) << 18) | (((b1 & 0x3f) as u32) << 12) | (((b2
            & 0x3f) as u32) << 6) | ((b3 & 0x3f) as u32);
        if scalar < 0x10000 || scalar > 0x10ffff {
            return 0;
        }
        4
    } else {
        0
    }
}

/// Whether the bytes are text: well-formed UTF-8 from the first byte to the
/// last.
pub fn is_text(bytes: &[u8]) -> (text: bool)
    ensures
        text == valid_utf8(bytes@),
{
    let mut i: usize = 0;
    assert(bytes@.subrange(0, 0) =~= Seq::<u8>::empty());
    while i < bytes.len()
        invariant
            0 <= i <= bytes@.len(),
            partial_valid_utf8(bytes@, i as int),
        decreases bytes@.len() - i,
    {
        let len = first_scalar_len(bytes, i);
        if len == 0 {
            proof {
                let rest = bytes@.subrange(i as int, bytes@.len() as int);
                assert(!valid_utf8(rest));
                partial_valid_partial_invalid_utf8(bytes@, i as int);
            }
            return false;
        }
        proof {
            partial_valid_utf8_extend(bytes@, i as int);
        }
        i = i + len;
    }
    assert(bytes@.subrange(0, i as int) =~= bytes@);
    true
}

} // verus!
