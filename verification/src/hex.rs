//! The hexadecimal digits of an escape.

use crate::ascii::is_digit;
use vstd::prelude::*;

verus! {

/// The value of the hexadecimal digit `b`. The digits are `0` to `9` and
/// the lower-case letters `a` to `f`; no other byte is one.
pub open spec fn hex_digit(b: u8) -> Option<u8> {
    if is_digit(b) {
        Some((b - '0' as u8) as u8)
    } else if 'a' as u8 <= b && b <= 'f' as u8 {
        Some((b - 'a' as u8 + 10) as u8)
    } else {
        None
    }
}

/// Whether every byte of `s` is a hexadecimal digit.
pub open spec fn all_hex(s: Seq<u8>) -> bool {
    forall|i: int| 0 <= i < s.len() ==> hex_digit(#[trigger] s[i]) is Some
}

/// The number that the hexadecimal digits of `s` write, the first digit
/// counting most.
pub open spec fn hex_number(s: Seq<u8>) -> nat
    decreases s.len(),
{
    if s.len() == 0 {
        0
    } else {
        hex_number(s.drop_last()) * 16 + hex_digit(s.last()).unwrap() as nat
    }
}

/// The 16-bit code unit that the hexadecimal digits of `s` write: of a
/// number that takes more than 16 bits, the low 16 bits.
pub open spec fn hex_code(s: Seq<u8>) -> Option<u16> {
    if all_hex(s) {
        Some((hex_number(s) % 0x1_0000) as u16)
    } else {
        None
    }
}

/// Reads `bytes` as hexadecimal digits and gives the code unit that they
/// write, or `None` where one of them is no hexadecimal digit.
pub fn hex_to_u16(bytes: &[u8]) -> (r: Option<u16>)
    ensures
        r == hex_code(bytes@),
{
    let mut ret: u16 = 0;
    let mut i: usize = 0;
    while i < bytes.len()
        invariant
            i <= bytes@.len(),
            all_hex(bytes@.take(i as int)),
            ret == hex_number(bytes@.take(i as int)) % 0x1_0000,
        decreases bytes@.len() - i,
    {
        let b = bytes[i];
        let d: u16 = if '0' as u8 <= b && b <= '9' as u8 {
            (b - '0' as u8) as u16
        } else if 'a' as u8 <= b && b <= 'f' as u8 {
            (b - 'a' as u8 + 10) as u16
        } else {
            assert(hex_digit(bytes@[i as int]) is None);
            return None;
        };
        let shifted: u16 = (ret << 4) | d;
        proof {
            let seen = bytes@.take(i as int);
            let next = bytes@.take(i + 1);
            assert(next.drop_last() =~= seen);
            assert(next.last() == b);
            assert(hex_number(next) == hex_number(seen) * 16 + d);
            assert(shifted == (ret * 16 + d) % 0x1_0000) by (bit_vector)
                requires
                    shifted == (ret << 4) | d,
                    d < 16,
            ;
            assert(all_hex(next)) by {
                assert forall|j: int| 0 <= j < next.len() implies hex_digit(
                    #[trigger] next[j],
                ) is Some by {
                    if j < i {
                        assert(next[j] == seen[j]);
                    }
                }
            }
        }
        ret = shifted;
        i += 1;
    }
    assert(bytes@.take(i as int) =~= bytes@);
    Some(ret)
}

} // verus!
