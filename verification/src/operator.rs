//! The names that GNAT gives to operator functions.
//!
//! An operator function is named by `O` and the operator's name in words:
//! `Oeq` is the function `"="`.

use crate::ascii::{chars_of, spells};
use crate::text::escape_digits;
use vstd::prelude::*;
use vstd::slice::slice_subrange;

verus! {

/// The Ada spelling of the operator that GNAT names `name`.
pub open spec fn operator_symbol(name: Seq<char>) -> Option<Seq<char>> {
    if name == "abs"@ {
        Some("abs"@)
    } else if name == "and"@ {
        Some("and"@)
    } else if name == "mod"@ {
        Some("mod"@)
    } else if name == "not"@ {
        Some("not"@)
    } else if name == "or"@ {
        Some("or"@)
    } else if name == "rem"@ {
        Some("rem"@)
    } else if name == "xor"@ {
        Some("xor"@)
    } else if name == "eq"@ {
        Some("="@)
    } else if name == "ne"@ {
        Some("/="@)
    } else if name == "lt"@ {
        Some("<"@)
    } else if name == "le"@ {
        Some("<="@)
    } else if name == "gt"@ {
        Some(">"@)
    } else if name == "ge"@ {
        Some(">="@)
    } else if name == "add"@ {
        Some("+"@)
    } else if name == "subtract"@ {
        Some("-"@)
    } else if name == "concat"@ {
        Some("&"@)
    } else if name == "multiply"@ {
        Some("*"@)
    } else if name == "divide"@ {
        Some("/"@)
    } else if name == "expon"@ {
        Some("**"@)
    } else {
        None
    }
}

/// The operator that the bytes of `s` name: they are `O` and then, to the
/// end and letter for letter, a name that [`operator_symbol`] knows.
pub open spec fn operator_of(s: Seq<u8>) -> Option<Seq<char>> {
    if s.len() > 0 && s[0] == 'O' as u8 {
        operator_symbol(chars_of(s.skip(1)))
    } else {
        None
    }
}

/// Whether `text` is written in lower-case ASCII letters alone.
pub open spec fn is_word(text: Seq<char>) -> bool {
    forall|j: int| 0 <= j < text.len() ==> 'a' <= #[trigger] text[j] && text[j] <= 'z'
}

/// The names of the operators are written in lower-case letters alone.
pub proof fn lemma_operator_name_is_word(name: Seq<char>)
    requires
        operator_symbol(name) is Some,
    ensures
        is_word(name),
{
    reveal_strlit("abs");
    reveal_strlit("and");
    reveal_strlit("mod");
    reveal_strlit("not");
    reveal_strlit("or");
    reveal_strlit("rem");
    reveal_strlit("xor");
    reveal_strlit("eq");
    reveal_strlit("ne");
    reveal_strlit("lt");
    reveal_strlit("le");
    reveal_strlit("gt");
    reveal_strlit("ge");
    reveal_strlit("add");
    reveal_strlit("subtract");
    reveal_strlit("concat");
    reveal_strlit("multiply");
    reveal_strlit("divide");
    reveal_strlit("expon");
    assert(is_word("abs"@));
    assert(is_word("and"@));
    assert(is_word("mod"@));
    assert(is_word("not"@));
    assert(is_word("or"@));
    assert(is_word("rem"@));
    assert(is_word("xor"@));
    assert(is_word("eq"@));
    assert(is_word("ne"@));
    assert(is_word("lt"@));
    assert(is_word("le"@));
    assert(is_word("gt"@));
    assert(is_word("ge"@));
    assert(is_word("add"@));
    assert(is_word("subtract"@));
    assert(is_word("concat"@));
    assert(is_word("multiply"@));
    assert(is_word("divide"@));
    assert(is_word("expon"@));
}

/// The name of an operator holds no escape.
pub proof fn lemma_operator_without_escape(s: Seq<u8>, i: int)
    requires
        operator_of(s) is Some,
        0 <= i < s.len(),
    ensures
        escape_digits(s[i]) == 0,
{
    if i > 0 {
        let name = chars_of(s.skip(1));
        lemma_operator_name_is_word(name);
        assert(name[i - 1] == s[i] as char);
    }
}

/// The Ada spelling of the operator that `bytes` names, or `None` where
/// `bytes` names none.
pub fn parse_operator(bytes: &[u8]) -> (r: Option<&'static str>)
    ensures
        match r {
            Some(symbol) => operator_of(bytes@) == Some(symbol@),
            None => operator_of(bytes@) is None,
        },
{
    if bytes.len() == 0 || bytes[0] != 'O' as u8 {
        return None;
    }
    let name = slice_subrange(bytes, 1, bytes.len());
    assert(name@ =~= bytes@.skip(1));
    proof {
        reveal_strlit("abs");
        reveal_strlit("and");
        reveal_strlit("mod");
        reveal_strlit("not");
        reveal_strlit("or");
        reveal_strlit("rem");
        reveal_strlit("xor");
        reveal_strlit("eq");
        reveal_strlit("ne");
        reveal_strlit("lt");
        reveal_strlit("le");
        reveal_strlit("gt");
        reveal_strlit("ge");
        reveal_strlit("add");
        reveal_strlit("subtract");
        reveal_strlit("concat");
        reveal_strlit("multiply");
        reveal_strlit("divide");
        reveal_strlit("expon");
    }
    if spells(name, "abs") {
        Some("abs")
    } else if spells(name, "and") {
        Some("and")
    } else if spells(name, "mod") {
        Some("mod")
    } else if spells(name, "not") {
        Some("not")
    } else if spells(name, "or") {
        Some("or")
    } else if spells(name, "rem") {
        Some("rem")
    } else if spells(name, "xor") {
        Some("xor")
    } else if spells(name, "eq") {
        Some("=")
    } else if spells(name, "ne") {
        Some("/=")
    } else if spells(name, "lt") {
        Some("<")
    } else if spells(name, "le") {
        Some("<=")
    } else if spells(name, "gt") {
        Some(">")
    } else if spells(name, "ge") {
        Some(">=")
    } else if spells(name, "add") {
        Some("+")
    } else if spells(name, "subtract") {
        Some("-")
    } else if spells(name, "concat") {
        Some("&")
    } else if spells(name, "multiply") {
        Some("*")
    } else if spells(name, "divide") {
        Some("/")
    } else if spells(name, "expon") {
        Some("**")
    } else {
        None
    }
}

} // verus!
