//! The compressed names that GNAT writes for its own internal entities.

use crate::ascii::{begins_with, chars_of, digit, is_digit, is_lower, lower, starts_with};
use vstd::prelude::*;

verus! {

/// The shape of a compressed internal name: the text `ada_main__`, one
/// lower-case letter, and then one or more decimal digits to the end.
pub open spec fn short_name(s: Seq<u8>) -> bool {
    &&& s.len() >= 12
    &&& starts_with(s, "ada_main__"@)
    &&& is_lower(s[10])
    &&& forall|i: int| 11 <= i < s.len() ==> is_digit(#[trigger] s[i])
}

/// Whether `b` is one of the compressed names that GNAT gives to its
/// internal entities, which are not worth demangling.
pub fn is_short_name(b: &[u8]) -> (r: bool)
    ensures
        r == short_name(b@),
{
    proof {
        reveal_strlit("ada_main__");
    }
    if !begins_with(b, "ada_main__") || b.len() < 12 {
        return false;
    }
    if !lower(b[10]) {
        return false;
    }
    let mut i: usize = 11;
    while i < b.len()
        invariant
            11 <= i <= b@.len(),
            forall|j: int| 11 <= j < i ==> is_digit(#[trigger] b@[j]),
        decreases b@.len() - i,
    {
        if !digit(b[i]) {
            return false;
        }
        i += 1;
    }
    true
}

/// Whether the byte `c` may stand at position `i` of a compressed name:
/// the fixed text up to position 9, a lower-case letter at position 10, a
/// decimal digit from there on.
pub open spec fn fits(i: int, c: u8) -> bool {
    if i < 10 {
        c as char == "ada_main__"@[i]
    } else if i == 10 {
        is_lower(c)
    } else {
        is_digit(c)
    }
}

/// A name is a compressed name exactly when it has at least twelve bytes
/// and each of them fits its position.
pub proof fn lemma_short_name_shape(s: Seq<u8>)
    ensures
        short_name(s) <==> s.len() >= 12 && forall|i: int|
            0 <= i < s.len() ==> fits(i, #[trigger] s[i]),
{
    reveal_strlit("ada_main__");
    if s.len() >= 12 {
        let head = chars_of(s.take(10));
        if short_name(s) {
            assert forall|i: int| 0 <= i < s.len() implies fits(i, #[trigger] s[i]) by {
                if i < 10 {
                    assert(head[i] == s[i] as char);
                }
            }
        }
        if forall|i: int| 0 <= i < s.len() ==> fits(i, #[trigger] s[i]) {
            assert forall|i: int| 0 <= i < 10 implies head[i] == "ada_main__"@[i] by {
                assert(fits(i, s[i]));
            }
            assert(head =~= "ada_main__"@);
            assert(fits(10, s[10]));
            assert forall|i: int| 11 <= i < s.len() implies is_digit(#[trigger] s[i]) by {
                assert(fits(i, s[i]));
            }
        }
    }
}

/// Putting a byte that does not fit its position into a compressed name
/// makes it a name that is not compressed.
pub proof fn lemma_short_name_deviation(s: Seq<u8>, i: int, c: u8)
    requires
        short_name(s),
        0 <= i < s.len(),
        !fits(i, c),
    ensures
        !short_name(s.update(i, c)),
{
    lemma_short_name_shape(s.update(i, c));
    assert(s.update(i, c)[i] == c);
}

} // verus!
