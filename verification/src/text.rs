//! The text of one level of a name.
//!
//! GNAT writes a character outside its plain set as an escape: `U` and two
//! hexadecimal digits, or `W` and four, for one 16-bit code unit. Every
//! other byte stands for the code unit of its own number. The code units,
//! read as UTF-16, are the text.

use crate::ascii::chars_of;
use crate::hex::{all_hex, hex_code, hex_digit, hex_to_u16};
use crate::utf16::{followed_by, lemma_utf16_text_plain, string_from_utf16, utf16_text};
use std::borrow::Cow;
use vstd::prelude::*;
use vstd::slice::slice_subrange;
use vstd::string::*;
use vstd::utf8::*;

verus! {

/// The number of hexadecimal digits that follow the byte `b` where it opens
/// an escape: two after `U`, four after `W`. No other byte opens one.
pub open spec fn escape_digits(b: u8) -> int {
    if b == 'U' as u8 {
        2
    } else if b == 'W' as u8 {
        4
    } else {
        0
    }
}

/// The code units that the bytes of `s` stand for, read from left to right,
/// or `None` where an escape is cut short or holds a byte that is no
/// hexadecimal digit.
pub open spec fn code_units(s: Seq<u8>) -> Option<Seq<u16>>
    decreases s.len(),
{
    if s.len() == 0 {
        Some(Seq::empty())
    } else {
        let n = escape_digits(s[0]);
        if n == 0 {
            followed_by(s[0] as u16, code_units(s.skip(1)))
        } else if s.len() < 1 + n {
            None
        } else {
            match hex_code(s.subrange(1, 1 + n)) {
                Some(unit) => followed_by(unit, code_units(s.skip(1 + n))),
                None => None,
            }
        }
    }
}

/// The text that the bytes of `s` stand for, or `None` where they stand for
/// none: where [`code_units`] gives no code units, or gives code units that
/// are not well-formed UTF-16.
pub open spec fn decoded_text(s: Seq<u8>) -> Option<Seq<char>> {
    match code_units(s) {
        Some(units) => utf16_text(units),
        None => None,
    }
}

/// Whether `s` is plain: all of it ASCII, and none of it an escape.
pub open spec fn is_plain(s: Seq<u8>) -> bool {
    forall|i: int| 0 <= i < s.len() ==> (#[trigger] s[i]) < 0x80 && escape_digits(s[i]) == 0
}

/// Whether an escape opens at position `i` of `s` that is cut short or
/// holds a byte that is no hexadecimal digit.
pub open spec fn malformed_escape_at(s: Seq<u8>, i: int) -> bool {
    &&& 0 <= i < s.len()
    &&& escape_digits(s[i]) > 0
    &&& (s.len() < i + 1 + escape_digits(s[i]) || !all_hex(
        s.subrange(i + 1, i + 1 + escape_digits(s[i])),
    ))
}

/// Bytes that open no escape stand for one code unit each, that of their
/// own number.
pub proof fn lemma_code_units_unescaped(s: Seq<u8>)
    requires
        forall|i: int| 0 <= i < s.len() ==> escape_digits(#[trigger] s[i]) == 0,
    ensures
        code_units(s) == Some(Seq::new(s.len(), |i: int| s[i] as u16)),
    decreases s.len(),
{
    if s.len() > 0 {
        let rest = s.skip(1);
        assert forall|i: int| 0 <= i < rest.len() implies escape_digits(#[trigger] rest[i])
            == 0 by {
            assert(rest[i] == s[i + 1]);
        }
        lemma_code_units_unescaped(rest);
        assert(seq![s[0] as u16] + Seq::new(rest.len(), |i: int| rest[i] as u16) =~= Seq::new(
            s.len(),
            |i: int| s[i] as u16,
        ));
    } else {
        assert(Seq::<u16>::empty() =~= Seq::new(s.len(), |i: int| s[i] as u16));
    }
}

/// Plain bytes stand for the text that they spell.
pub proof fn lemma_plain_text(s: Seq<u8>)
    requires
        is_plain(s),
    ensures
        decoded_text(s) == Some(chars_of(s)),
{
    let units = Seq::new(s.len(), |i: int| s[i] as u16);
    lemma_code_units_unescaped(s);
    lemma_utf16_text_plain(units);
    assert(Seq::new(units.len(), |i: int| units[i] as char) =~= chars_of(s));
}

/// An escape that is cut short, or that holds a byte that is no hexadecimal
/// digit, leaves the bytes around it without a text, wherever it stands.
pub proof fn lemma_malformed_escape(s: Seq<u8>, i: int)
    requires
        malformed_escape_at(s, i),
    ensures
        code_units(s) is None,
        decoded_text(s) is None,
    decreases s.len(),
{
    let n = escape_digits(s[0]);
    if i == 0 {
    } else if n == 0 {
        let rest = s.skip(1);
        let w = escape_digits(s[i]);
        assert(rest[i - 1] == s[i]);
        if s.len() >= i + 1 + w {
            assert(rest.subrange(i, i + w) =~= s.subrange(i + 1, i + 1 + w));
        }
        lemma_malformed_escape(rest, i - 1);
    } else if s.len() >= 1 + n && hex_code(s.subrange(1, 1 + n)) is Some {
        let digits = s.subrange(1, 1 + n);
        let rest = s.skip(1 + n);
        let w = escape_digits(s[i]);
        if i <= n {
            assert(digits[i - 1] == s[i]);
            assert(hex_digit(digits[i - 1]) is Some);
        }
        assert(rest[i - 1 - n] == s[i]);
        if s.len() >= i + 1 + w {
            assert(rest.subrange(i - n, i - n + w) =~= s.subrange(i + 1, i + 1 + w));
        }
        lemma_malformed_escape(rest, i - 1 - n);
    }
}

/// Bytes that stand for no code units hold an escape that is cut short or
/// holds a byte that is no hexadecimal digit. The result is the position of
/// one.
pub proof fn lemma_code_units_none(s: Seq<u8>) -> (i: int)
    requires
        code_units(s) is None,
    ensures
        malformed_escape_at(s, i),
    decreases s.len(),
{
    let n = escape_digits(s[0]);
    if n == 0 {
        let rest = s.skip(1);
        let j = lemma_code_units_none(rest);
        let w = escape_digits(rest[j]);
        assert(rest[j] == s[j + 1]);
        if s.len() >= j + 2 + w {
            assert(rest.subrange(j + 1, j + 1 + w) =~= s.subrange(j + 2, j + 2 + w));
        }
        j + 1
    } else if s.len() >= 1 + n && hex_code(s.subrange(1, 1 + n)) is Some {
        let rest = s.skip(1 + n);
        let j = lemma_code_units_none(rest);
        let w = escape_digits(rest[j]);
        assert(rest[j] == s[j + 1 + n]);
        if s.len() >= j + 2 + n + w {
            assert(rest.subrange(j + 1, j + 1 + w) =~= s.subrange(j + 2 + n, j + 2 + n + w));
        }
        j + 1 + n
    } else {
        0
    }
}

/// Calls `core::str::from_utf8`, which checks that bytes are valid UTF-8
/// and hands them back as a string slice. The contract says when it
/// succeeds, and that the string slice then holds the bytes that were given.
#[verifier::external_body]
pub(crate) fn str_from_utf8<'a>(bytes: &'a [u8]) -> (r: Option<&'a str>)
    ensures
        r is Some <==> valid_utf8(bytes@),
        r matches Some(text) ==> text.spec_bytes() == bytes@,
{
    match core::str::from_utf8(bytes) {
        Ok(text) => Some(text),
        Err(_) => None,
    }
}

/// The number of hexadecimal digits that follow the byte `b` where it opens
/// an escape, and 0 where it opens none.
pub fn escape_len(b: u8) -> (n: usize)
    ensures
        n == escape_digits(b),
{
    if b == 'U' as u8 {
        2
    } else if b == 'W' as u8 {
        4
    } else {
        0
    }
}

/// Whether `bytes` is all ASCII and holds no escape.
pub fn plain(bytes: &[u8]) -> (r: bool)
    ensures
        r == is_plain(bytes@),
{
    let mut i: usize = 0;
    while i < bytes.len()
        invariant
            i <= bytes@.len(),
            forall|j: int|
                0 <= j < i ==> (#[trigger] bytes@[j]) < 0x80 && escape_digits(bytes@[j]) == 0,
        decreases bytes@.len() - i,
    {
        if bytes[i] >= 0x80 || escape_len(bytes[i]) != 0 {
            return false;
        }
        i += 1;
    }
    true
}

/// `head` put before `rest`, where there is a `rest`.
spec fn continued(head: Seq<u16>, rest: Option<Seq<u16>>) -> Option<Seq<u16>> {
    match rest {
        Some(units) => Some(head + units),
        None => None,
    }
}

/// Decodes one level of a name into its text: borrowed from `bytes` where
/// they are plain, and built from their code units where they are not.
/// There is no text where an escape is cut short or holds a byte that is no
/// hexadecimal digit, nor where the code units are not well-formed UTF-16.
pub fn bytes_to_string<'a>(bytes: &'a [u8]) -> (r: Option<Cow<'a, str>>)
    ensures
        match r {
            Some(text) => decoded_text(bytes@) == Some(text@),
            None => decoded_text(bytes@) is None,
        },
        r matches Some(text) ==> (text is Borrowed <==> is_plain(bytes@)),
{
    if plain(bytes) {
        proof {
            let chars = chars_of(bytes@);
            lemma_plain_text(bytes@);
            assert(is_ascii_chars(chars));
            is_ascii_chars_encode_utf8(chars);
            assert(encode_utf8(chars) =~= bytes@);
            encode_utf8_valid_utf8(chars);
        }
        let text = str_from_utf8(bytes).unwrap();
        proof {
            encode_utf8_decode_utf8(text@);
            encode_utf8_decode_utf8(chars_of(bytes@));
        }
        return Some(Cow::Borrowed(text));
    }
    let n = bytes.len();
    let mut buf: Vec<u16> = Vec::new();
    let mut i: usize = 0;
    proof {
        let all = code_units(bytes@);
        assert(bytes@.skip(0) =~= bytes@);
        if all is Some {
            assert(buf@ + all.unwrap() =~= all.unwrap());
        }
    }
    while i < n
        invariant
            i <= n == bytes@.len(),
            code_units(bytes@) == continued(buf@, code_units(bytes@.skip(i as int))),
        decreases n - i,
    {
        let ghost rest = bytes@.skip(i as int);
        let ghost before = buf@;
        let digits = escape_len(bytes[i]);
        assert(rest[0] == bytes@[i as int]);
        if digits == 0 {
            buf.push(bytes[i] as u16);
            proof {
                let after = code_units(bytes@.skip(i + 1));
                assert(rest.skip(1) =~= bytes@.skip(i + 1));
                if after is Some {
                    assert(before + (seq![bytes@[i as int] as u16] + after.unwrap())
                        =~= buf@ + after.unwrap());
                }
            }
            i += 1;
        } else {
            if n - i < 1 + digits {
                return None;
            }
            let escape = slice_subrange(bytes, i + 1, i + 1 + digits);
            assert(escape@ =~= rest.subrange(1, 1 + digits));
            match hex_to_u16(escape) {
                Some(unit) => {
                    buf.push(unit);
                    proof {
                        let after = code_units(bytes@.skip(i + 1 + digits));
                        assert(rest.skip(1 + digits) =~= bytes@.skip(i + 1 + digits));
                        if after is Some {
                            assert(before + (seq![unit] + after.unwrap()) =~= buf@
                                + after.unwrap());
                        }
                    }
                },
                None => {
                    return None;
                },
            }
            i += 1 + digits;
        }
    }
    assert(bytes@.skip(i as int) =~= Seq::<u8>::empty());
    assert(buf@ + Seq::<u16>::empty() =~= buf@);
    match string_from_utf16(buf.as_slice()) {
        Some(text) => Some(Cow::Owned(text)),
        None => None,
    }
}

} // verus!
