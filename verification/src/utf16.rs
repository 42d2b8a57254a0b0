//! Text written as UTF-16 code units.

use vstd::prelude::*;

verus! {

/// The first code unit of a surrogate pair.
pub open spec fn is_leading_surrogate(u: u16) -> bool {
    0xD800 <= u && u <= 0xDBFF
}

/// The second code unit of a surrogate pair.
pub open spec fn is_trailing_surrogate(u: u16) -> bool {
    0xDC00 <= u && u <= 0xDFFF
}

/// The character that the surrogate pair `lead`, `trail` writes.
pub open spec fn paired(lead: u16, trail: u16) -> char {
    ((0x1_0000 + (lead - 0xD800) * 0x400 + (trail - 0xDC00)) as u32) as char
}

/// `first` put before `rest`, where there is a `rest`.
pub open spec fn followed_by<T>(first: T, rest: Option<Seq<T>>) -> Option<Seq<T>> {
    match rest {
        Some(items) => Some(seq![first] + items),
        None => None,
    }
}

/// The text that the UTF-16 code units `units` write, or `None` where they
/// are not well formed: a code unit that is no surrogate writes the
/// character of its number, a leading surrogate and the trailing one after
/// it write one character together, and a surrogate without its partner
/// writes nothing.
pub open spec fn utf16_text(units: Seq<u16>) -> Option<Seq<char>>
    decreases units.len(),
{
    if units.len() == 0 {
        Some(Seq::empty())
    } else if !is_leading_surrogate(units[0]) && !is_trailing_surrogate(units[0]) {
        followed_by(units[0] as char, utf16_text(units.skip(1)))
    } else if is_leading_surrogate(units[0]) && units.len() >= 2 && is_trailing_surrogate(
        units[1],
    ) {
        followed_by(paired(units[0], units[1]), utf16_text(units.skip(2)))
    } else {
        None
    }
}

/// Code units none of which is a surrogate write one character each.
pub proof fn lemma_utf16_text_plain(units: Seq<u16>)
    requires
        forall|i: int|
            0 <= i < units.len() ==> !is_leading_surrogate(#[trigger] units[i])
                && !is_trailing_surrogate(units[i]),
    ensures
        utf16_text(units) == Some(Seq::new(units.len(), |i: int| units[i] as char)),
    decreases units.len(),
{
    if units.len() > 0 {
        let rest = units.skip(1);
        assert forall|i: int| 0 <= i < rest.len() implies !is_leading_surrogate(
            #[trigger] rest[i],
        ) && !is_trailing_surrogate(rest[i]) by {
            assert(rest[i] == units[i + 1]);
        }
        lemma_utf16_text_plain(rest);
        assert(seq![units[0] as char] + Seq::new(rest.len(), |i: int| rest[i] as char)
            =~= Seq::new(units.len(), |i: int| units[i] as char));
    } else {
        assert(Seq::<char>::empty() =~= Seq::new(units.len(), |i: int| units[i] as char));
    }
}

/// Calls `String::from_utf16`, which decodes UTF-16 code units into a
/// `String` and fails where they hold invalid data. The contract takes that
/// to mean: the result is the text that [`utf16_text`] gives for the code
/// units, and there is none exactly where a surrogate stands without its
/// partner.
#[verifier::external_body]
pub(crate) fn string_from_utf16(units: &[u16]) -> (r: Option<String>)
    ensures
        match r {
            Some(text) => utf16_text(units@) == Some(text@),
            None => utf16_text(units@) is None,
        },
{
    match String::from_utf16(units) {
        Ok(text) => Some(text),
        Err(_) => None,
    }
}

} // verus!
