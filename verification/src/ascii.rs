//! Bytes read as ASCII text.

use vstd::prelude::*;
use vstd::string::*;
use vstd::utf8::*;

verus! {

/// An ASCII decimal digit.
pub open spec fn is_digit(b: u8) -> bool {
    '0' as u8 <= b && b <= '9' as u8
}

/// A lower-case ASCII letter.
pub open spec fn is_lower(b: u8) -> bool {
    'a' as u8 <= b && b <= 'z' as u8
}

/// The text that the bytes of `s` spell, each byte taken as one character.
pub open spec fn chars_of(s: Seq<u8>) -> Seq<char> {
    Seq::new(s.len(), |i: int| s[i] as char)
}

/// Whether `s` begins with the bytes that spell `text`.
pub open spec fn starts_with(s: Seq<u8>, text: Seq<char>) -> bool {
    text.len() <= s.len() && chars_of(s.take(text.len() as int)) == text
}

/// Whether `b` is an ASCII decimal digit.
pub(crate) fn digit(b: u8) -> (r: bool)
    ensures
        r == is_digit(b),
{
    '0' as u8 <= b && b <= '9' as u8
}

/// Whether `b` is a lower-case ASCII letter.
pub(crate) fn lower(b: u8) -> (r: bool)
    ensures
        r == is_lower(b),
{
    'a' as u8 <= b && b <= 'z' as u8
}

/// Whether `bytes` begins with the ASCII text `text`.
pub(crate) fn begins_with(bytes: &[u8], text: &str) -> (r: bool)
    requires
        is_ascii(text),
    ensures
        r == starts_with(bytes@, text@),
{
    broadcast use is_ascii_spec_bytes;

    let pattern = text.as_bytes();
    let n = pattern.len();
    assert(n == text@.len());
    if bytes.len() < n {
        return false;
    }
    let mut i: usize = 0;
    while i < n
        invariant
            i <= n,
            n == text@.len(),
            n <= bytes@.len(),
            pattern@ == text.spec_bytes(),
            is_ascii(text),
            forall|j: int| 0 <= j < i ==> bytes@[j] as char == text@[j],
        decreases n - i,
    {
        if bytes[i] != pattern[i] {
            assert(chars_of(bytes@.take(n as int))[i as int] != text@[i as int]);
            return false;
        }
        i += 1;
    }
    assert(chars_of(bytes@.take(n as int)) =~= text@);
    true
}

/// Whether `bytes` is the ASCII text `text` and nothing more.
pub(crate) fn spells(bytes: &[u8], text: &str) -> (r: bool)
    requires
        is_ascii(text),
    ensures
        r == (chars_of(bytes@) == text@),
{
    broadcast use is_ascii_spec_bytes;

    if bytes.len() != text.as_bytes().len() {
        return false;
    }
    assert(bytes@.take(text@.len() as int) =~= bytes@);
    begins_with(bytes, text)
}

} // verus!
