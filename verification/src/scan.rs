//! Finding the delimiters and trailers of a symbol.
//!
//! The levels of a qualified name are joined by the two bytes `__`. A level
//! may carry a trailer that is no part of the name: it begins at the last
//! byte of a kind that [`Trailer`] names.

use vstd::prelude::*;
use vstd::slice::slice_subrange;

verus! {

/// Whether the two bytes of `s` at `i` are the delimiter `__`.
pub open spec fn delimiter_at(s: Seq<u8>, i: int) -> bool {
    0 <= i && i + 2 <= s.len() && s[i] == '_' as u8 && s[i + 1] == '_' as u8
}

/// The position of the first delimiter in `s`.
pub open spec fn first_delimiter(s: Seq<u8>) -> Option<int>
    decreases s.len(),
{
    if s.len() < 2 {
        None
    } else if delimiter_at(s, 0) {
        Some(0)
    } else {
        match first_delimiter(s.skip(1)) {
            Some(i) => Some(i + 1),
            None => None,
        }
    }
}

/// The position of the last delimiter in `s`.
pub open spec fn last_delimiter(s: Seq<u8>) -> Option<int>
    decreases s.len(),
{
    if s.len() < 2 {
        None
    } else if delimiter_at(s, s.len() - 2) {
        Some(s.len() - 2)
    } else {
        last_delimiter(s.drop_last())
    }
}

/// `s` cut at its first delimiter: what stands before it, and what after.
pub open spec fn split_first(s: Seq<u8>) -> Option<(Seq<u8>, Seq<u8>)> {
    match first_delimiter(s) {
        Some(i) => Some((s.take(i), s.skip(i + 2))),
        None => None,
    }
}

/// `s` cut at its last delimiter: what stands before it, and what after.
pub open spec fn split_last(s: Seq<u8>) -> Option<(Seq<u8>, Seq<u8>)> {
    match last_delimiter(s) {
        Some(i) => Some((s.take(i), s.skip(i + 2))),
        None => None,
    }
}

/// The first delimiter stands where a delimiter is and none is before it;
/// there is none exactly when no position holds a delimiter.
pub proof fn lemma_first_delimiter(s: Seq<u8>)
    ensures
        match first_delimiter(s) {
            Some(i) => delimiter_at(s, i) && forall|j: int| j < i ==> !delimiter_at(s, j),
            None => forall|j: int| !delimiter_at(s, j),
        },
    decreases s.len(),
{
    if s.len() >= 2 && !delimiter_at(s, 0) {
        let t = s.skip(1);
        lemma_first_delimiter(t);
        assert forall|j: int| delimiter_at(s, j) implies delimiter_at(t, j - 1) by {
            assert(t[j - 1] == s[j]);
            assert(t[j] == s[j + 1]);
        }
        match first_delimiter(t) {
            Some(i) => {
                assert(t[i] == s[i + 1]);
                assert(t[i + 1] == s[i + 2]);
            },
            None => {},
        }
    }
}

/// The last delimiter stands where a delimiter is and none is after it;
/// there is none exactly when no position holds a delimiter.
pub proof fn lemma_last_delimiter(s: Seq<u8>)
    ensures
        match last_delimiter(s) {
            Some(i) => delimiter_at(s, i) && forall|j: int| i < j ==> !delimiter_at(s, j),
            None => forall|j: int| !delimiter_at(s, j),
        },
    decreases s.len(),
{
    if s.len() >= 2 && !delimiter_at(s, s.len() - 2) {
        let t = s.drop_last();
        lemma_last_delimiter(t);
        assert forall|j: int| delimiter_at(s, j) implies delimiter_at(t, j) by {
            assert(t[j] == s[j]);
            assert(t[j + 1] == s[j + 1]);
        }
        match last_delimiter(t) {
            Some(i) => {
                assert(t[i] == s[i]);
                assert(t[i + 1] == s[i + 1]);
            },
            None => {},
        }
    }
}

/// Cuts `bytes` at the first `__`: the bytes before it and the bytes after
/// it, or `None` where `bytes` holds no `__`.
pub fn get_prefix(bytes: &[u8]) -> (r: Option<(&[u8], &[u8])>)
    ensures
        match r {
            Some((head, rest)) => split_first(bytes@) == Some((head@, rest@)),
            None => split_first(bytes@) is None,
        },
{
    let n = bytes.len();
    proof {
        lemma_first_delimiter(bytes@);
    }
    if n < 2 {
        return None;
    }
    let mut index: usize = 0;
    while index <= n - 2
        invariant
            2 <= n == bytes@.len(),
            index <= n - 1,
            forall|j: int| j < index ==> !delimiter_at(bytes@, j),
        decreases n - index,
    {
        if bytes[index] == '_' as u8 && bytes[index + 1] == '_' as u8 {
            proof {
                lemma_first_delimiter(bytes@);
                assert(delimiter_at(bytes@, index as int));
            }
            let head = slice_subrange(bytes, 0, index);
            let rest = slice_subrange(bytes, index + 2, n);
            assert(head@ =~= bytes@.take(index as int));
            assert(rest@ =~= bytes@.skip(index + 2));
            return Some((head, rest));
        }
        index += 1;
    }
    None
}

/// Cuts `bytes` at the last `__`: the bytes before it and the bytes after
/// it, or `None` where `bytes` holds no `__`.
pub fn get_suffix(bytes: &[u8]) -> (r: Option<(&[u8], &[u8])>)
    ensures
        match r {
            Some((head, rest)) => split_last(bytes@) == Some((head@, rest@)),
            None => split_last(bytes@) is None,
        },
{
    let n = bytes.len();
    proof {
        lemma_last_delimiter(bytes@);
    }
    let mut index: usize = n;
    while index >= 2
        invariant
            n == bytes@.len(),
            index <= n,
            forall|j: int| index - 2 < j ==> !delimiter_at(bytes@, j),
        decreases index,
    {
        if bytes[index - 2] == '_' as u8 && bytes[index - 1] == '_' as u8 {
            proof {
                lemma_last_delimiter(bytes@);
                assert(delimiter_at(bytes@, index - 2));
            }
            let head = slice_subrange(bytes, 0, index - 2);
            let rest = slice_subrange(bytes, index, n);
            assert(head@ =~= bytes@.take(index - 2));
            assert(rest@ =~= bytes@.skip(index as int));
            return Some((head, rest));
        }
        index -= 1;
    }
    None
}

/// The kinds of trailer that a level of a name may carry.
#[derive(Clone, Copy)]
pub enum Trailer {
    /// The tag of a type or a discriminant, after a qualifying level: it
    /// begins with `T`.
    TypeTag,
    /// What is encoded after the last level of a name, of its type, its
    /// exception or its parameters: it begins with `X`, `N`, `E` or `B`.
    Profile,
}

impl Trailer {
    /// Whether a trailer of this kind may begin with the byte `b`.
    pub open spec fn begins_with(self, b: u8) -> bool {
        match self {
            Trailer::TypeTag => b == 'T' as u8,
            Trailer::Profile => b == 'X' as u8 || b == 'N' as u8 || b == 'E' as u8 || b == 'B' as u8,
        }
    }

    /// Whether a trailer of this kind may begin with the byte `b`.
    pub fn begins(self, b: u8) -> (r: bool)
        ensures
            r == self.begins_with(b),
    {
        match self {
            Trailer::TypeTag => b == 'T' as u8,
            Trailer::Profile => b == 'X' as u8 || b == 'N' as u8 || b == 'E' as u8 || b == 'B' as u8,
        }
    }
}

/// The last position of `s` at which a trailer of the kind `kind` may begin.
pub open spec fn trailer_start(s: Seq<u8>, kind: Trailer) -> Option<int>
    decreases s.len(),
{
    if s.len() == 0 {
        None
    } else if kind.begins_with(s.last()) {
        Some(s.len() - 1)
    } else {
        trailer_start(s.drop_last(), kind)
    }
}

/// `s` without its trailer of the kind `kind`, where it has one.
pub open spec fn without_trailer(s: Seq<u8>, kind: Trailer) -> Seq<u8> {
    match trailer_start(s, kind) {
        Some(i) => s.take(i),
        None => s,
    }
}

/// A trailer starts at the last byte with which one may begin; there is
/// none exactly when no byte is such a byte.
pub proof fn lemma_trailer_start(s: Seq<u8>, kind: Trailer)
    ensures
        match trailer_start(s, kind) {
            Some(i) => 0 <= i < s.len() && kind.begins_with(s[i]) && forall|j: int|
                i < j < s.len() ==> !kind.begins_with(#[trigger] s[j]),
            None => forall|j: int| 0 <= j < s.len() ==> !kind.begins_with(#[trigger] s[j]),
        },
    decreases s.len(),
{
    if s.len() > 0 && !kind.begins_with(s.last()) {
        let t = s.drop_last();
        lemma_trailer_start(t, kind);
        assert forall|j: int| 0 <= j < t.len() implies t[j] == s[j] by {}
    }
}

/// Removes from `bytes` its trailer of the kind `kind`: the last byte with
/// which such a trailer may begin and all that follows it.
pub fn strip_trailer(bytes: &[u8], kind: Trailer) -> (r: &[u8])
    ensures
        r@ == without_trailer(bytes@, kind),
{
    proof {
        lemma_trailer_start(bytes@, kind);
    }
    let mut index: usize = bytes.len();
    while index > 0
        invariant
            index <= bytes@.len(),
            forall|j: int| index <= j < bytes@.len() ==> !kind.begins_with(#[trigger] bytes@[j]),
        decreases index,
    {
        index -= 1;
        if kind.begins(bytes[index]) {
            proof {
                lemma_trailer_start(bytes@, kind);
            }
            let kept = slice_subrange(bytes, 0, index);
            assert(kept@ =~= bytes@.take(index as int));
            return kept;
        }
    }
    bytes
}

} // verus!
