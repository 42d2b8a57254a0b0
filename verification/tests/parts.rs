use std::borrow::Cow;

use ada_demangle::demangle::{is_anonymous_block, strip_marks};
use ada_demangle::hex::hex_to_u16;
use ada_demangle::is_short_name;
use ada_demangle::operator::parse_operator;
use ada_demangle::scan::{get_prefix, get_suffix, strip_trailer, Trailer};
use ada_demangle::text::{bytes_to_string, escape_len, plain};

#[test]
fn short_name_shape() {
    assert!(is_short_name(b"ada_main__u0"));
    assert!(is_short_name(b"ada_main__a9"));
    assert!(is_short_name(b"ada_main__z0123456789"));
}

#[test]
fn short_name_needs_twelve_bytes() {
    assert!(!is_short_name(b""));
    assert!(!is_short_name(b"ada_main__"));
    assert!(!is_short_name(b"ada_main__u"));
}

#[test]
fn short_name_deviations() {
    let name = b"ada_main__u00005";
    assert!(is_short_name(name));
    for at in 0..name.len() {
        let wrong: &[u8] = if at < 10 {
            b"A0 "
        } else if at == 10 {
            b"U0_{`"
        } else {
            b"a_/:"
        };
        for byte in wrong {
            let mut changed = name.to_vec();
            changed[at] = *byte;
            assert!(!is_short_name(&changed), "byte {} at {}", byte, at);
        }
    }
}

#[test]
fn short_name_keeps_to_its_classes() {
    let mut changed = b"ada_main__u00005".to_vec();
    changed[10] = b'a';
    changed[15] = b'9';
    assert!(is_short_name(&changed));
}

#[test]
fn prefix_is_cut_at_the_first_delimiter() {
    assert_eq!(
        get_prefix(b"a__b__c"),
        Some((&b"a"[..], &b"b__c"[..]))
    );
    assert_eq!(get_prefix(b"a___b"), Some((&b"a"[..], &b"_b"[..])));
    assert_eq!(get_prefix(b"__"), Some((&b""[..], &b""[..])));
    assert_eq!(get_prefix(b"a_b_c_"), None);
    assert_eq!(get_prefix(b"_"), None);
    assert_eq!(get_prefix(b""), None);
}

#[test]
fn suffix_is_cut_at_the_last_delimiter() {
    assert_eq!(
        get_suffix(b"a__b__c"),
        Some((&b"a__b"[..], &b"c"[..]))
    );
    assert_eq!(get_suffix(b"a___b"), Some((&b"a_"[..], &b"b"[..])));
    assert_eq!(get_suffix(b"__"), Some((&b""[..], &b""[..])));
    assert_eq!(get_suffix(b"a_b_c_"), None);
    assert_eq!(get_suffix(b"_"), None);
    assert_eq!(get_suffix(b""), None);
}

#[test]
fn trailer_begins_at_the_last_mark() {
    assert_eq!(strip_trailer(b"aTbTc", Trailer::TypeTag), b"aTb");
    assert_eq!(strip_trailer(b"T", Trailer::TypeTag), b"");
    assert_eq!(strip_trailer(b"abc", Trailer::TypeTag), b"abc");
    assert_eq!(strip_trailer(b"aXbNcEdBe", Trailer::Profile), b"aXbNcEd");
    assert_eq!(strip_trailer(b"aBbEcNdXe", Trailer::Profile), b"aBbEcNd");
    assert_eq!(strip_trailer(b"nameXn", Trailer::Profile), b"name");
    assert_eq!(strip_trailer(b"nameTn", Trailer::Profile), b"nameTn");
    assert_eq!(strip_trailer(b"nameXn", Trailer::TypeTag), b"nameXn");
    assert_eq!(strip_trailer(b"", Trailer::Profile), b"");
}

#[test]
fn trailer_marks() {
    for byte in 0..=255u8 {
        assert_eq!(Trailer::TypeTag.begins(byte), byte == b'T');
        assert_eq!(
            Trailer::Profile.begins(byte),
            byte == b'X' || byte == b'N' || byte == b'E' || byte == b'B'
        );
    }
}

#[test]
fn anonymous_blocks() {
    assert!(is_anonymous_block(b"B_4"));
    assert!(is_anonymous_block(b"B_0123456789"));
    assert!(!is_anonymous_block(b"B_"));
    assert!(!is_anonymous_block(b"B"));
    assert!(!is_anonymous_block(b""));
    assert!(!is_anonymous_block(b"B_4a"));
    assert!(!is_anonymous_block(b"B_a4"));
    assert!(!is_anonymous_block(b"b_4"));
    assert!(!is_anonymous_block(b"B-4"));
    assert!(!is_anonymous_block(b"xB_4"));
}

#[test]
fn marks_around_the_name() {
    assert_eq!(strip_marks(b"_ada_main"), b"main");
    assert_eq!(strip_marks(b"module__square__2"), b"module__square");
    assert_eq!(strip_marks(b"_ada_p__q__77"), b"p__q");
    assert_eq!(strip_marks(b"a__b"), b"a__b");
    assert_eq!(strip_marks(b"a__"), b"a__");
    assert_eq!(strip_marks(b"a__1__2"), b"a__1");
    assert_eq!(strip_marks(b""), b"");
}

#[test]
fn hex_values() {
    assert_eq!(hex_to_u16(b"00"), Some(0));
    assert_eq!(hex_to_u16(b"4a"), Some(0x4a));
    assert_eq!(hex_to_u16(b"e9"), Some(0xe9));
    assert_eq!(hex_to_u16(b"263a"), Some(0x263a));
    assert_eq!(hex_to_u16(b"ffff"), Some(0xffff));
    assert_eq!(hex_to_u16(b"09af"), Some(0x09af));
    assert_eq!(hex_to_u16(b""), Some(0));
}

#[test]
fn hex_keeps_the_low_sixteen_bits() {
    assert_eq!(hex_to_u16(b"12345"), Some(0x2345));
    assert_eq!(hex_to_u16(b"ffff0"), Some(0xfff0));
}

#[test]
fn hex_digits_are_lower_case() {
    assert_eq!(hex_to_u16(b"4A"), None);
    assert_eq!(hex_to_u16(b"g0"), None);
    assert_eq!(hex_to_u16(b"0g"), None);
    assert_eq!(hex_to_u16(b"/0"), None);
    assert_eq!(hex_to_u16(b":0"), None);
    assert_eq!(hex_to_u16(b"`0"), None);
    assert_eq!(hex_to_u16(b" 1"), None);
}

#[test]
fn escape_lengths() {
    for byte in 0..=255u8 {
        let expected = match byte {
            b'U' => 2,
            b'W' => 4,
            _ => 0,
        };
        assert_eq!(escape_len(byte), expected);
    }
}

#[test]
fn plain_bytes() {
    assert!(plain(b""));
    assert!(plain(b"last_chance_handler"));
    assert!(plain(b"\x00\x7f"));
    assert!(!plain(b"aUb"));
    assert!(!plain(b"aWb"));
    assert!(!plain(b"\x80"));
    assert!(!plain(b"caf\xe9"));
}

#[test]
fn plain_text_is_borrowed() {
    let text = bytes_to_string(b"s_stalib_adafinal");
    assert_eq!(text, Some(Cow::Borrowed("s_stalib_adafinal")));
    assert!(matches!(text, Some(Cow::Borrowed(_))));
    assert!(matches!(bytes_to_string(b""), Some(Cow::Borrowed(""))));
}

#[test]
fn escaped_text_is_owned() {
    let text = bytes_to_string(b"cafUe9");
    assert_eq!(text, Some(Cow::Borrowed("caf\u{e9}")));
    assert!(matches!(text, Some(Cow::Owned(_))));
    // An escape makes the text an owned one even where it writes a plain character.
    let text = bytes_to_string(b"U41");
    assert_eq!(text, Some(Cow::Borrowed("A")));
    assert!(matches!(text, Some(Cow::Owned(_))));
}

#[test]
fn escapes_write_code_units() {
    assert_eq!(
        bytes_to_string(b"W263aU20x"),
        Some(Cow::Borrowed("\u{263a} x"))
    );
    assert_eq!(
        bytes_to_string(b"aUe9bW00e9c"),
        Some(Cow::Borrowed("a\u{e9}b\u{e9}c"))
    );
    assert_eq!(
        bytes_to_string(b"Wd83dWde00"),
        Some(Cow::Borrowed("\u{1f600}"))
    );
    assert_eq!(
        bytes_to_string(b"WdbffWdfff"),
        Some(Cow::Borrowed("\u{10ffff}"))
    );
    assert_eq!(
        bytes_to_string(b"Wd800Wdc00"),
        Some(Cow::Borrowed("\u{10000}"))
    );
    assert_eq!(
        bytes_to_string(b"Wd7ffWe000"),
        Some(Cow::Borrowed("\u{d7ff}\u{e000}"))
    );
}

#[test]
fn bytes_outside_ascii_are_code_units() {
    let text = bytes_to_string(b"caf\xe9");
    assert_eq!(text, Some(Cow::Borrowed("caf\u{e9}")));
    assert!(matches!(text, Some(Cow::Owned(_))));
    assert_eq!(bytes_to_string(b"\x80\xff"), Some(Cow::Borrowed("\u{80}\u{ff}")));
}

#[test]
fn escape_cut_short() {
    assert_eq!(bytes_to_string(b"U"), None);
    assert_eq!(bytes_to_string(b"U4"), None);
    assert_eq!(bytes_to_string(b"abU4"), None);
    assert_eq!(bytes_to_string(b"W"), None);
    assert_eq!(bytes_to_string(b"W123"), None);
    assert_eq!(bytes_to_string(b"U41W123"), None);
}

#[test]
fn escape_with_a_byte_that_is_no_digit() {
    assert_eq!(bytes_to_string(b"Uzz"), None);
    assert_eq!(bytes_to_string(b"U4g"), None);
    assert_eq!(bytes_to_string(b"U4A"), None);
    assert_eq!(bytes_to_string(b"W12x4"), None);
    assert_eq!(bytes_to_string(b"UU41"), None);
    assert_eq!(bytes_to_string(b"WU4100"), None);
}

#[test]
fn code_units_that_are_no_text() {
    assert_eq!(bytes_to_string(b"Wd800"), None);
    assert_eq!(bytes_to_string(b"Wdc00"), None);
    assert_eq!(bytes_to_string(b"Wd800x"), None);
    assert_eq!(bytes_to_string(b"Wdc00Wd800"), None);
    assert_eq!(bytes_to_string(b"Wd800Wd800Wdc00"), None);
    assert_eq!(bytes_to_string(b"xWdfff"), None);
}

#[test]
fn operators() {
    let table: [(&[u8], &str); 19] = [
        (b"Oabs", "abs"),
        (b"Oand", "and"),
        (b"Omod", "mod"),
        (b"Onot", "not"),
        (b"Oor", "or"),
        (b"Orem", "rem"),
        (b"Oxor", "xor"),
        (b"Oeq", "="),
        (b"One", "/="),
        (b"Olt", "<"),
        (b"Ole", "<="),
        (b"Ogt", ">"),
        (b"Oge", ">="),
        (b"Oadd", "+"),
        (b"Osubtract", "-"),
        (b"Oconcat", "&"),
        (b"Omultiply", "*"),
        (b"Odivide", "/"),
        (b"Oexpon", "**"),
    ];
    for (token, symbol) in table {
        assert_eq!(parse_operator(token), Some(symbol));
    }
}

#[test]
fn operators_match_exactly() {
    assert_eq!(parse_operator(b""), None);
    assert_eq!(parse_operator(b"O"), None);
    assert_eq!(parse_operator(b"eq"), None);
    assert_eq!(parse_operator(b"oeq"), None);
    assert_eq!(parse_operator(b"OEQ"), None);
    assert_eq!(parse_operator(b"OEq"), None);
    assert_eq!(parse_operator(b"Oeqq"), None);
    assert_eq!(parse_operator(b"Oe"), None);
    assert_eq!(parse_operator(b"Oeq "), None);
    assert_eq!(parse_operator(b"OOeq"), None);
    assert_eq!(parse_operator(b"Osub"), None);
    assert_eq!(parse_operator(b"Oexp"), None);
    assert_eq!(parse_operator(b"O="), None);
}
