//! The walk over a symbol.
//!
//! A symbol is a qualified name: levels joined by `__`, the last of them
//! the name of the entity itself. Around and within the levels stand marks
//! that are no part of the name; [`qualifiers`] and [`terminal`] say what
//! is left of a symbol without them, and [`emitted`] what a visitor is told
//! of it.

use crate::ascii::{begins_with, digit, is_digit, starts_with};
use crate::operator::{lemma_operator_without_escape, operator_of, parse_operator};
use crate::scan::{
    get_prefix, get_suffix, lemma_first_delimiter, split_first, split_last, strip_trailer,
    without_trailer, Trailer,
};
use crate::text::{
    bytes_to_string, decoded_text, is_plain, lemma_malformed_escape, malformed_escape_at,
};
use crate::visitor::{open_scopes, text_event, DemangleVisitor, Event, Scope};
use std::borrow::Cow;
use vstd::prelude::*;
use vstd::slice::slice_subrange;

verus! {

/// Whether `s` marks a block that the compiler made and that has no name
/// in the source: `B_` and then one or more decimal digits to the end.
pub open spec fn anonymous_block(s: Seq<u8>) -> bool {
    &&& s.len() >= 3
    &&& s[0] == 'B' as u8
    &&& s[1] == '_' as u8
    &&& forall|i: int| 2 <= i < s.len() ==> is_digit(#[trigger] s[i])
}

/// `s` without the text `_ada_` before it, which marks the entry point of
/// a library-level subprogram.
pub open spec fn without_entry_marker(s: Seq<u8>) -> Seq<u8> {
    if starts_with(s, "_ada_"@) {
        s.skip(5)
    } else {
        s
    }
}

/// `s` without the counter behind it that tells overloaded names apart:
/// what follows the last delimiter, where that begins with a decimal digit,
/// and the delimiter with it.
pub open spec fn without_counter(s: Seq<u8>) -> Seq<u8> {
    match split_last(s) {
        Some((head, tail)) => if tail.len() > 0 && is_digit(tail[0]) {
            head
        } else {
            s
        },
        None => s,
    }
}

/// The part of the symbol `s` that holds the levels of its name.
pub open spec fn name_body(s: Seq<u8>) -> Seq<u8> {
    without_counter(without_entry_marker(s))
}

/// The qualifying levels of the name body `s` that are shown, the
/// outermost first: each is what stands before a delimiter, without its
/// type tag. Anonymous blocks are left out.
pub open spec fn qualifiers(s: Seq<u8>) -> Seq<Seq<u8>>
    decreases s.len(),
{
    match split_first(s) {
        Some((head, rest)) => {
            proof {
                lemma_first_delimiter(s);
            }
            let level = without_trailer(head, Trailer::TypeTag);
            if anonymous_block(level) {
                qualifiers(rest)
            } else {
                seq![level] + qualifiers(rest)
            }
        },
        None => Seq::empty(),
    }
}

/// What is left of the name body `s` behind its qualifying levels.
pub open spec fn last_level(s: Seq<u8>) -> Seq<u8>
    decreases s.len(),
{
    match split_first(s) {
        Some((head, rest)) => {
            proof {
                lemma_first_delimiter(s);
            }
            last_level(rest)
        },
        None => s,
    }
}

/// The last level of the name body `s` without what is encoded behind the
/// name: the bytes of the entity's own name.
pub open spec fn terminal(s: Seq<u8>) -> Seq<u8> {
    without_trailer(last_level(s), Trailer::Profile)
}

/// The call that hands over the text of the level `s`: the text that its
/// bytes stand for, borrowed from them where they are plain and owned where
/// they are not. `None` where they stand for no text.
pub open spec fn level_text(s: Seq<u8>) -> Option<Event> {
    match decoded_text(s) {
        Some(text) => Some(Event::Text { text, borrowed: is_plain(s) }),
        None => None,
    }
}

/// The call that hands over the text of the entity's own name `s`: the
/// operator's spelling where `s` names an operator, else what
/// [`level_text`] gives.
pub open spec fn name_text(s: Seq<u8>) -> Option<Event> {
    match operator_of(s) {
        Some(symbol) => Some(Event::Text { text: symbol, borrowed: true }),
        None => level_text(s),
    }
}

/// Whether each of the levels `levels` has a text.
pub open spec fn all_decode(levels: Seq<Seq<u8>>) -> bool {
    forall|k: int| 0 <= k < levels.len() ==> level_text(#[trigger] levels[k]) is Some
}

/// What a visitor is told of a qualifying level whose text the call `text`
/// hands over: the level opens, its identifier opens, the text, the
/// identifier closes, the text `.`, the level closes.
pub open spec fn scope_events(text: Event) -> Seq<Event> {
    seq![
        Event::EnterPrefix,
        Event::EnterIdent,
        text,
        Event::Exit,
        Event::Text { text: "."@, borrowed: true },
        Event::Exit,
    ]
}

/// What a visitor is told of the qualifying levels `levels`: of each in
/// turn what [`scope_events`] says, up to the first that has no text. Of
/// that one it is told that it opens, and then no more.
pub open spec fn emitted_scopes(levels: Seq<Seq<u8>>) -> Seq<Event>
    decreases levels.len(),
{
    if levels.len() == 0 {
        Seq::empty()
    } else {
        match level_text(levels.first()) {
            Some(text) => scope_events(text) + emitted_scopes(levels.drop_first()),
            None => seq![Event::EnterPrefix, Event::EnterIdent],
        }
    }
}

/// What a visitor is told of the entity's own name `s`: that an identifier
/// opens, its text, and that it closes. Where the name has no text, it is
/// told that the identifier opens, and then no more.
pub open spec fn emitted_name(s: Seq<u8>) -> Seq<Event> {
    match name_text(s) {
        Some(text) => seq![Event::EnterIdent, text, Event::Exit],
        None => seq![Event::EnterIdent],
    }
}

/// Whether the symbol `s` demangles: each of its qualifying levels that is
/// shown has a text, and so has the entity's own name.
pub open spec fn demangles(s: Seq<u8>) -> bool {
    all_decode(qualifiers(name_body(s))) && name_text(terminal(name_body(s))) is Some
}

/// The calls that demangling the symbol `s` makes, in their order: those
/// for its qualifying levels and then, where each of these had a text,
/// those for the entity's own name.
pub open spec fn emitted(s: Seq<u8>) -> Seq<Event> {
    let levels = qualifiers(name_body(s));
    if all_decode(levels) {
        emitted_scopes(levels) + emitted_name(terminal(name_body(s)))
    } else {
        emitted_scopes(levels)
    }
}

/// Of levels that all have a text, and others after them, a visitor is told
/// what it is told of the first, and then what it is told of the others.
pub proof fn lemma_emitted_scopes_concat(first: Seq<Seq<u8>>, others: Seq<Seq<u8>>)
    requires
        all_decode(first),
    ensures
        emitted_scopes(first + others) == emitted_scopes(first) + emitted_scopes(others),
    decreases first.len(),
{
    if first.len() == 0 {
        assert(first + others =~= others);
        assert(emitted_scopes(first) + emitted_scopes(others) =~= emitted_scopes(others));
    } else {
        let all = first + others;
        let text = level_text(first[0]).unwrap();
        assert(all.first() == first[0]);
        assert(all.drop_first() =~= first.drop_first() + others);
        assert forall|k: int| 0 <= k < first.drop_first().len() implies level_text(
            #[trigger] first.drop_first()[k],
        ) is Some by {
            assert(first.drop_first()[k] == first[k + 1]);
        }
        lemma_emitted_scopes_concat(first.drop_first(), others);
        assert(scope_events(text) + (emitted_scopes(first.drop_first()) + emitted_scopes(others))
            =~= (scope_events(text) + emitted_scopes(first.drop_first())) + emitted_scopes(
            others,
        ));
    }
}

/// No level that is shown is an anonymous block.
pub proof fn lemma_no_anonymous_level(s: Seq<u8>, k: int)
    requires
        0 <= k < qualifiers(s).len(),
    ensures
        !anonymous_block(qualifiers(s)[k]),
    decreases s.len(),
{
    lemma_first_delimiter(s);
    match split_first(s) {
        Some((head, rest)) => {
            let level = without_trailer(head, Trailer::TypeTag);
            if anonymous_block(level) {
                lemma_no_anonymous_level(rest, k);
            } else if k > 0 {
                lemma_no_anonymous_level(rest, k - 1);
            }
        },
        None => {},
    }
}

/// What a visitor is told of a qualifying level that has a text opens two
/// scopes and closes both: the scopes that were open before are open after.
pub proof fn lemma_scope_closes(before: Seq<Event>, text: Event)
    requires
        open_scopes(before) is Some,
        text is Text,
    ensures
        open_scopes(before + scope_events(text)) == open_scopes(before),
{
    let open = open_scopes(before).unwrap();
    let e1 = before.push(Event::EnterPrefix);
    let e2 = e1.push(Event::EnterIdent);
    let e3 = e2.push(text);
    let e4 = e3.push(Event::Exit);
    let e5 = e4.push(Event::Text { text: "."@, borrowed: true });
    let e6 = e5.push(Event::Exit);
    assert(e1.drop_last() =~= before);
    assert(e2.drop_last() =~= e1);
    assert(e3.drop_last() =~= e2);
    assert(e4.drop_last() =~= e3);
    assert(e5.drop_last() =~= e4);
    assert(e6.drop_last() =~= e5);
    assert(open_scopes(e1) == Some(open.push(Scope::Prefix)));
    assert(open_scopes(e2) == Some(open.push(Scope::Prefix).push(Scope::Ident)));
    assert(open_scopes(e3) == open_scopes(e2));
    assert(open.push(Scope::Prefix).push(Scope::Ident).drop_last() =~= open.push(Scope::Prefix));
    assert(open_scopes(e4) == open_scopes(e1));
    assert(open_scopes(e5) == open_scopes(e1));
    assert(open.push(Scope::Prefix).drop_last() =~= open);
    assert(open_scopes(e6) == Some(open));
    assert(before + scope_events(text) =~= e6);
}

/// What a visitor is told of qualifying levels that all have a text leaves
/// open the scopes that were open before.
pub proof fn lemma_scopes_close(before: Seq<Event>, levels: Seq<Seq<u8>>)
    requires
        open_scopes(before) is Some,
        all_decode(levels),
    ensures
        open_scopes(before + emitted_scopes(levels)) == open_scopes(before),
    decreases levels.len(),
{
    if levels.len() == 0 {
        assert(before + emitted_scopes(levels) =~= before);
    } else {
        let text = level_text(levels[0]).unwrap();
        let rest = levels.drop_first();
        assert forall|k: int| 0 <= k < rest.len() implies level_text(#[trigger] rest[k])
            is Some by {
            assert(rest[k] == levels[k + 1]);
        }
        lemma_scope_closes(before, text);
        lemma_scopes_close(before + scope_events(text), rest);
        assert(before + emitted_scopes(levels) =~= (before + scope_events(text)) + emitted_scopes(
            rest,
        ));
    }
}

/// The calls of one walk are well nested: no `exit` comes while nothing is
/// open. After a symbol that demangles nothing is left open. After one that
/// does not, what is left open is the level that had no text: a qualifying
/// level with its identifier, or the identifier of the entity's own name.
pub proof fn lemma_well_nested(s: Seq<u8>)
    ensures
        open_scopes(emitted(s)) == Some(
            if demangles(s) {
                Seq::empty()
            } else if all_decode(qualifiers(name_body(s))) {
                seq![Scope::Ident]
            } else {
                seq![Scope::Prefix, Scope::Ident]
            },
        ),
{
    let none = Seq::<Event>::empty();
    let levels = qualifiers(name_body(s));
    let name = terminal(name_body(s));
    assert(open_scopes(none) == Some(Seq::<Scope>::empty()));
    if all_decode(levels) {
        lemma_scopes_close(none, levels);
        assert(none + emitted_scopes(levels) =~= emitted_scopes(levels));
        let told = emitted_scopes(levels);
        let e1 = told.push(Event::EnterIdent);
        assert(e1.drop_last() =~= told);
        assert(open_scopes(e1) == Some(Seq::<Scope>::empty().push(Scope::Ident)));
        assert(Seq::<Scope>::empty().push(Scope::Ident) =~= seq![Scope::Ident]);
        match name_text(name) {
            Some(text) => {
                let e2 = e1.push(text);
                let e3 = e2.push(Event::Exit);
                assert(e2.drop_last() =~= e1);
                assert(e3.drop_last() =~= e2);
                assert(open_scopes(e2) == open_scopes(e1));
                assert(seq![Scope::Ident].drop_last() =~= Seq::<Scope>::empty());
                assert(emitted(s) =~= e3);
            },
            None => {
                assert(emitted(s) =~= e1);
            },
        }
    } else {
        let j = lemma_walk_ends(levels);
        let told = emitted_scopes(levels.take(j));
        lemma_scopes_close(none, levels.take(j));
        assert(none + told =~= told);
        let e1 = told.push(Event::EnterPrefix);
        let e2 = e1.push(Event::EnterIdent);
        assert(e1.drop_last() =~= told);
        assert(e2.drop_last() =~= e1);
        assert(open_scopes(e1) == Some(Seq::<Scope>::empty().push(Scope::Prefix)));
        assert(Seq::<Scope>::empty().push(Scope::Prefix).push(Scope::Ident) =~= seq![
            Scope::Prefix,
            Scope::Ident,
        ]);
        assert(emitted(s) =~= e2);
    }
}

/// Where one of the levels `levels` has no text, the walk over them ends at
/// the first that has none: a visitor is told of the levels before it, and
/// that this one opens. The result is the place of that level.
pub proof fn lemma_walk_ends(levels: Seq<Seq<u8>>) -> (j: int)
    requires
        !all_decode(levels),
    ensures
        0 <= j < levels.len(),
        level_text(levels[j]) is None,
        all_decode(levels.take(j)),
        emitted_scopes(levels) == emitted_scopes(levels.take(j)) + seq![
            Event::EnterPrefix,
            Event::EnterIdent,
        ],
    decreases levels.len(),
{
    let open = seq![Event::EnterPrefix, Event::EnterIdent];
    if level_text(levels[0]) is None {
        assert(levels.take(0) =~= Seq::<Seq<u8>>::empty());
        assert(emitted_scopes(levels.take(0)) + open =~= open);
        0
    } else {
        let rest = levels.drop_first();
        let text = level_text(levels[0]).unwrap();
        let k = choose|k: int| 0 <= k < levels.len() && level_text(#[trigger] levels[k]) is None;
        assert(rest[k - 1] == levels[k]);
        let j = lemma_walk_ends(rest);
        let before = levels.take(j + 1);
        assert(before.first() == levels[0]);
        assert(before.drop_first() =~= rest.take(j));
        assert forall|n: int| 0 <= n < before.len() implies level_text(
            #[trigger] before[n],
        ) is Some by {
            if n > 0 {
                assert(before[n] == rest.take(j)[n - 1]);
            }
        }
        assert(scope_events(text) + (emitted_scopes(rest.take(j)) + open) =~= (scope_events(text)
            + emitted_scopes(rest.take(j))) + open);
        j + 1
    }
}

/// A symbol does not demangle where one of its qualifying levels that are
/// shown holds an escape that is cut short or holds a byte that is no
/// hexadecimal digit. The walk ends at that level or before it, at a level
/// that has only been opened: a visitor is given no text for it.
pub proof fn lemma_malformed_level_fails(s: Seq<u8>, k: int, i: int) -> (j: int)
    requires
        0 <= k < qualifiers(name_body(s)).len(),
        malformed_escape_at(qualifiers(name_body(s))[k], i),
    ensures
        !demangles(s),
        0 <= j <= k,
        level_text(qualifiers(name_body(s))[j]) is None,
        all_decode(qualifiers(name_body(s)).take(j)),
        emitted(s) == emitted_scopes(qualifiers(name_body(s)).take(j)) + seq![
            Event::EnterPrefix,
            Event::EnterIdent,
        ],
{
    let levels = qualifiers(name_body(s));
    lemma_malformed_escape(levels[k], i);
    let j = lemma_walk_ends(levels);
    if k < j {
        assert(levels.take(j)[k] == levels[k]);
    }
    j
}

/// A symbol does not demangle where the entity's own name holds an escape
/// that is cut short or holds a byte that is no hexadecimal digit. A
/// visitor that was told of all the qualifying levels is then told that
/// an identifier opens, and is given no text for it.
pub proof fn lemma_malformed_name_fails(s: Seq<u8>, i: int)
    requires
        malformed_escape_at(terminal(name_body(s)), i),
    ensures
        !demangles(s),
        all_decode(qualifiers(name_body(s))) ==> emitted(s) == emitted_scopes(
            qualifiers(name_body(s)),
        ) + seq![Event::EnterIdent],
{
    let name = terminal(name_body(s));
    lemma_malformed_escape(name, i);
    if operator_of(name) is Some {
        lemma_operator_without_escape(name, i);
    }
}

/// Whether `bytes` marks a block that the compiler made and that has no
/// name in the source.
pub fn is_anonymous_block(bytes: &[u8]) -> (r: bool)
    ensures
        r == anonymous_block(bytes@),
{
    if bytes.len() < 3 || bytes[0] != 'B' as u8 || bytes[1] != '_' as u8 {
        return false;
    }
    let mut i: usize = 2;
    while i < bytes.len()
        invariant
            2 <= i <= bytes@.len(),
            forall|j: int| 2 <= j < i ==> is_digit(#[trigger] bytes@[j]),
        decreases bytes@.len() - i,
    {
        if !digit(bytes[i]) {
            return false;
        }
        i += 1;
    }
    true
}

/// The part of the symbol `bytes` that holds the levels of its name:
/// `bytes` without the entry marker before it and the counter behind it.
pub fn strip_marks(bytes: &[u8]) -> (r: &[u8])
    ensures
        r@ == name_body(bytes@),
{
    proof {
        reveal_strlit("_ada_");
    }
    let mut rest = bytes;
    if begins_with(bytes, "_ada_") {
        rest = slice_subrange(bytes, 5, bytes.len());
        assert(rest@ =~= bytes@.skip(5));
    }
    match get_suffix(rest) {
        Some((head, tail)) => {
            if tail.len() > 0 && digit(tail[0]) {
                head
            } else {
                rest
            }
        },
        None => rest,
    }
}

/// Demangles the symbol `bytes` and tells `visitor` the name that it finds,
/// level by level.
///
/// The visitor takes the calls that [`emitted`] lists, in that order and no
/// others. The result is `Some` where every level that is shown had a text.
/// At the first that has none the walk ends with `None`: the visitor has
/// then been told of the levels before it, and that this one opens.
pub fn demangle<'a, V: DemangleVisitor<'a>>(bytes: &'a [u8], visitor: &mut V) -> (r: Option<()>)
    ensures
        r is Some <==> demangles(bytes@),
        final(visitor).seen() == old(visitor).seen() + emitted(bytes@),
{
    let mut rest = strip_marks(bytes);
    let ghost body = rest@;
    let ghost done: Seq<Seq<u8>> = Seq::empty();
    proof {
        assert(done + qualifiers(rest@) =~= qualifiers(body));
        assert(old(visitor).seen() + emitted_scopes(done) =~= visitor.seen());
    }
    loop
        invariant
            body == name_body(bytes@),
            qualifiers(body) == done + qualifiers(rest@),
            last_level(body) == last_level(rest@),
            all_decode(done),
            visitor.seen() == old(visitor).seen() + emitted_scopes(done),
        ensures
            split_first(rest@) is None,
        decreases rest@.len(),
    {
        let ghost before = rest@;
        let ghost told = visitor.seen();
        match get_prefix(rest) {
            None => {
                break ;
            },
            Some((head, tail)) => {
                proof {
                    lemma_first_delimiter(before);
                }
                let level = strip_trailer(head, Trailer::TypeTag);
                rest = tail;
                if is_anonymous_block(level) {
                    continue ;
                }
                assert(qualifiers(before) == seq![level@] + qualifiers(tail@));
                visitor.enter_prefix();
                visitor.enter_ident();
                match bytes_to_string(level) {
                    Some(text) => {
                        let ghost handed = text_event(text);
                        visitor.text(text);
                        visitor.exit();
                        visitor.text(Cow::Borrowed("."));
                        visitor.exit();
                        proof {
                            let next = done.push(level@);
                            lemma_emitted_scopes_concat(done, seq![level@]);
                            assert(done + seq![level@] =~= next);
                            assert(seq![level@].first() == level@);
                            assert(seq![level@].drop_first() =~= Seq::<Seq<u8>>::empty());
                            assert(emitted_scopes(Seq::<Seq<u8>>::empty()) =~= Seq::<Event>::empty());
                            assert(emitted_scopes(seq![level@]) =~= scope_events(handed));
                            assert(visitor.seen() =~= told + scope_events(handed));
                            assert(old(visitor).seen() + emitted_scopes(next) =~= visitor.seen());
                            assert(next + qualifiers(tail@) =~= done + qualifiers(before));
                            done = next;
                        }
                    },
                    None => {
                        proof {
                            let open = seq![Event::EnterPrefix, Event::EnterIdent];
                            let others = seq![level@] + qualifiers(tail@);
                            lemma_emitted_scopes_concat(done, others);
                            assert(others.first() == level@);
                            assert(emitted_scopes(others) == open);
                            assert(qualifiers(body)[done.len() as int] == level@);
                            assert(!all_decode(qualifiers(body)));
                            assert(visitor.seen() =~= told + open);
                            assert(visitor.seen() =~= old(visitor).seen() + emitted(bytes@));
                        }
                        return None;
                    },
                }
            },
        }
    }
    proof {
        assert(qualifiers(rest@) =~= Seq::<Seq<u8>>::empty());
        assert(done =~= qualifiers(body));
        assert(last_level(rest@) == rest@);
    }
    let ghost told = visitor.seen();
    let name = strip_trailer(rest, Trailer::Profile);
    assert(name@ == terminal(body));
    visitor.enter_ident();
    match parse_operator(name) {
        Some(symbol) => {
            visitor.text(Cow::Borrowed(symbol));
        },
        None => {
            match bytes_to_string(name) {
                Some(text) => {
                    visitor.text(text);
                },
                None => {
                    assert(visitor.seen() =~= told + emitted_name(name@));
                    return None;
                },
            }
        },
    }
    visitor.exit();
    assert(visitor.seen() =~= told + emitted_name(name@));
    Some(())
}

} // verus!
