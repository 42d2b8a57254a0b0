//! What a demangled name is handed to.
//!
//! Demangling builds no name of its own. It tells a visitor, call by call,
//! what it finds, and the visitor makes of it what it likes: a string, a
//! tree, a stream of output.

use std::borrow::Cow;
use vstd::prelude::*;

verus! {

/// One call that a visitor takes.
pub enum Event {
    /// A qualifying level of the name opens: `enter_prefix`.
    EnterPrefix,
    /// An identifier opens: `enter_ident`.
    EnterIdent,
    /// A piece of text: `text`. The piece is borrowed, from the symbol or
    /// from the library's own constant texts, or it is owned.
    Text { text: Seq<char>, borrowed: bool },
    /// What was opened last closes: `exit`.
    Exit,
}

/// What an `enter_prefix` or an `enter_ident` opens, and an `exit` closes.
pub enum Scope {
    /// A qualifying level: opened by `enter_prefix`.
    Prefix,
    /// An identifier: opened by `enter_ident`.
    Ident,
}

/// The scopes that are open after the calls `events`, the innermost last:
/// each `exit` closes the one that was opened last. `None` where an `exit`
/// came while none was open.
pub open spec fn open_scopes(events: Seq<Event>) -> Option<Seq<Scope>>
    decreases events.len(),
{
    if events.len() == 0 {
        Some(Seq::empty())
    } else {
        match open_scopes(events.drop_last()) {
            Some(open) => match events.last() {
                Event::EnterPrefix => Some(open.push(Scope::Prefix)),
                Event::EnterIdent => Some(open.push(Scope::Ident)),
                Event::Text { .. } => Some(open),
                Event::Exit => if open.len() > 0 {
                    Some(open.drop_last())
                } else {
                    None
                },
            },
            None => None,
        }
    }
}

/// The call of `text` that hands over `text`.
pub open spec fn text_event(text: Cow<'_, str>) -> Event {
    Event::Text { text: text@, borrowed: text is Borrowed }
}

/// The sink of a demangled name.
///
/// A qualifying level of a name comes as `enter_prefix`, `enter_ident`, the
/// level's text, `exit`, the text `.` and `exit`; the name's last level as
/// `enter_ident`, its text and `exit`.
///
/// Each method adds its call to the record [`seen`](Self::seen), and by
/// that record the contract of [`demangle`](crate::demangle::demangle) says
/// what a visitor is told. An implementation that is to be verified
/// defines `seen` over its own state. The default, under which nothing is
/// ever seen, meets no method's contract: it is there for implementations
/// that are not verified, which need no record.
pub trait DemangleVisitor<'a> {
    /// The calls that this visitor has taken, the first one first.
    open spec fn seen(&self) -> Seq<Event> {
        Seq::empty()
    }

    /// A qualifying level of the name opens.
    fn enter_prefix(&mut self)
        ensures
            final(self).seen() == old(self).seen().push(Event::EnterPrefix),
    ;

    /// An identifier opens.
    fn enter_ident(&mut self)
        ensures
            final(self).seen() == old(self).seen().push(Event::EnterIdent),
    ;

    /// A piece of the name's text.
    fn text(&mut self, text: Cow<'a, str>)
        ensures
            final(self).seen() == old(self).seen().push(text_event(text)),
    ;

    /// What was opened last closes.
    fn exit(&mut self)
        ensures
            final(self).seen() == old(self).seen().push(Event::Exit),
    ;
}

/// A call as a [`Recorder`] keeps it.
#[derive(Debug, PartialEq, Eq)]
pub enum Call<'a> {
    /// A call of `enter_prefix`.
    EnterPrefix,
    /// A call of `enter_ident`.
    EnterIdent,
    /// A call of `text`, with the piece that it handed over.
    Text(Cow<'a, str>),
    /// A call of `exit`.
    Exit,
}

impl<'a> View for Call<'a> {
    type V = Event;

    open spec fn view(&self) -> Event {
        match self {
            Call::EnterPrefix => Event::EnterPrefix,
            Call::EnterIdent => Event::EnterIdent,
            Call::Text(text) => text_event(*text),
            Call::Exit => Event::Exit,
        }
    }
}

/// A visitor that keeps every call that it takes.
pub struct Recorder<'a> {
    /// The calls taken so far, the first one first.
    pub calls: Vec<Call<'a>>,
}

impl<'a> Recorder<'a> {
    /// A recorder that has taken no call.
    pub fn new() -> (r: Recorder<'a>)
        ensures
            r.calls@.len() == 0,
            r.seen() == Seq::<Event>::empty(),
    {
        let r = Recorder { calls: Vec::new() };
        assert(r.seen() =~= Seq::<Event>::empty());
        r
    }

    /// Puts `call` at the end of the record.
    fn record(&mut self, call: Call<'a>)
        ensures
            final(self).calls@ == old(self).calls@.push(call),
            final(self).seen() == old(self).seen().push(call@),
    {
        self.calls.push(call);
        assert(self.seen() =~= old(self).seen().push(call@));
    }
}

impl<'a> DemangleVisitor<'a> for Recorder<'a> {
    open spec fn seen(&self) -> Seq<Event> {
        Seq::new(self.calls@.len(), |i: int| self.calls@[i]@)
    }

    fn enter_prefix(&mut self) {
        self.record(Call::EnterPrefix);
    }

    fn enter_ident(&mut self) {
        self.record(Call::EnterIdent);
    }

    fn text(&mut self, text: Cow<'a, str>) {
        self.record(Call::Text(text));
    }

    fn exit(&mut self) {
        self.record(Call::Exit);
    }
}

} // verus!
