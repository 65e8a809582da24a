//! Frames on the wire: `#` TYPE `#` BODY `\r\n`.
use vstd::prelude::*;
use crate::scan::{find_byte, first_index, lemma_first_index};

verus! {

/// Why a frame could not be decoded.
#[derive(Clone, Copy, Debug, PartialEq, Eq, Structural)]
pub enum FrameError {
    /// No `\r\n` yet: more bytes may complete the frame.
    Incomplete,
    /// The frame has no leading `#`, no `#` after its type, or a field count
    /// that its type does not allow.
    Malformed,
    /// The type between the two `#` is none that the protocol knows.
    UnknownType,
    /// A field does not read as what its place in the frame asks for.
    FieldError,
}

/// The view of a decoding result.
pub open spec fn result_view<T: View>(r: Result<T, FrameError>) -> Result<T::V, FrameError> {
    match r {
        Ok(v) => Ok(v@),
        Err(e) => Err(e),
    }
}

/// Position of the first `\r\n` in `s`.
pub open spec fn crlf_index(s: Seq<u8>) -> Option<int>
    decreases s.len(),
{
    if s.len() < 2 {
        None
    } else if s[0] == 13 && s[1] == 10 {
        Some(0)
    } else {
        match crlf_index(s.drop_first()) {
            Some(i) => Some(i + 1),
            None => None,
        }
    }
}

pub open spec fn is_crlf_at(s: Seq<u8>, i: int) -> bool {
    0 <= i && i + 1 < s.len() && s[i] == 13 && s[i + 1] == 10
}

/// Length of the first frame of `s`: everything up to and including its
/// first `\r\n`.
pub open spec fn frame_len(s: Seq<u8>) -> Option<int> {
    match crlf_index(s) {
        Some(i) => Some(i + 2),
        None => None,
    }
}

/// `crlf_index` finds the earliest `\r\n`, and finds none only where there is none.
pub proof fn lemma_crlf_index(s: Seq<u8>)
    ensures
        match crlf_index(s) {
            Some(p) => is_crlf_at(s, p) && forall|i: int| 0 <= i < p ==> !#[trigger] is_crlf_at(s, i),
            None => forall|i: int| !#[trigger] is_crlf_at(s, i),
        },
    decreases s.len(),
{
    if s.len() >= 2 && !(s[0] == 13 && s[1] == 10) {
        let t = s.drop_first();
        lemma_crlf_index(t);
        assert forall|i: int| 0 < i implies #[trigger] is_crlf_at(s, i) == is_crlf_at(t, i - 1) by {
            if i + 1 < s.len() {
                assert(s[i] == t[i - 1] && s[i + 1] == t[i]);
            }
        }
    }
}

/// A position that holds `\r\n`, with none before it, is the first; where
/// none is at any position there is none.
pub proof fn lemma_crlf_index_at(s: Seq<u8>, p: int)
    requires
        0 <= p,
        forall|i: int| 0 <= i < p ==> !#[trigger] is_crlf_at(s, i),
        is_crlf_at(s, p) || p + 1 >= s.len(),
    ensures
        crlf_index(s) == (if is_crlf_at(s, p) {
            Some(p)
        } else {
            None
        }),
{
    lemma_crlf_index(s);
    if !is_crlf_at(s, p) {
        assert forall|i: int| !#[trigger] is_crlf_at(s, i) by {
            if i >= p {
                assert(i + 1 >= s.len());
            }
        }
    }
}

/// Where the first frame in `buf[lo..hi]` ends.
pub(crate) fn find_frame_end(buf: &[u8], lo: usize, hi: usize) -> (r: Option<usize>)
    requires
        lo <= hi <= buf@.len(),
    ensures
        r is None <==> frame_len(buf@.subrange(lo as int, hi as int)) is None,
        r matches Some(end) ==> lo + 2 <= end <= hi && frame_len(buf@.subrange(lo as int, hi as int))
            == Some(end - lo),
{
    let ghost s = buf@.subrange(lo as int, hi as int);
    let mut i: usize = lo;
    while hi - i >= 2
        invariant
            lo <= i <= hi <= buf@.len(),
            s == buf@.subrange(lo as int, hi as int),
            forall|j: int| 0 <= j < i - lo ==> !#[trigger] is_crlf_at(s, j),
        decreases hi - i,
    {
        if buf[i] == 13 && buf[i + 1] == 10 {
            proof {
                assert(is_crlf_at(s, i - lo));
                lemma_crlf_index_at(s, i - lo);
            }
            return Some(i + 2);
        }
        assert(!is_crlf_at(s, i - lo));
        i = i + 1;
    }
    proof {
        lemma_crlf_index_at(s, i - lo);
    }
    None
}

/// The type and the body of a complete frame `f`: `f` starts with `#`, ends
/// with its first `\r\n`, and the type runs from there to the next `#`.
pub open spec fn envelope(f: Seq<u8>) -> Option<(Seq<u8>, Seq<u8>)> {
    if f.len() >= 2 && f[0] == 35 && crlf_index(f) == Some(f.len() - 2) {
        let inner = f.subrange(1, f.len() - 2);
        match first_index(inner, 35) {
            Some(q) => Some((inner.subrange(0, q), inner.subrange(q + 1, inner.len() as int))),
            None => None,
        }
    } else {
        None
    }
}

/// Bounds of the type and of the body in a frame.
pub(crate) struct Envelope {
    pub type_lo: usize,
    pub type_hi: usize,
    pub body_lo: usize,
    pub body_hi: usize,
}

/// The type and body ranges of the frame `buf[lo..hi]`.
pub(crate) fn split_envelope(buf: &[u8], lo: usize, hi: usize) -> (r: Option<Envelope>)
    requires
        lo <= hi <= buf@.len(),
    ensures
        r is None <==> envelope(buf@.subrange(lo as int, hi as int)) is None,
        r matches Some(e) ==> lo <= e.type_lo <= e.type_hi <= e.body_lo <= e.body_hi <= hi
            && envelope(buf@.subrange(lo as int, hi as int)) == Some(
            (
                buf@.subrange(e.type_lo as int, e.type_hi as int),
                buf@.subrange(e.body_lo as int, e.body_hi as int),
            ),
        ),
{
    let ghost f = buf@.subrange(lo as int, hi as int);
    if hi - lo < 2 || buf[lo] != 35 {
        return None;
    }
    match find_frame_end(buf, lo, hi) {
        Some(end) => {
            if end != hi {
                return None;
            }
        },
        None => {
            return None;
        },
    }
    proof {
        lemma_crlf_index(f);
        assert(f[0] == 35);
    }
    assert(hi - lo >= 3);
    let ghost inner = f.subrange(1, f.len() - 2);
    assert(inner =~= buf@.subrange(lo + 1, hi - 2));
    match find_byte(buf, lo + 1, hi - 2, 35) {
        Some(q) => {
            proof {
                lemma_first_index(inner, 35);
                assert(inner.subrange(0, q - lo - 1) =~= buf@.subrange(lo + 1, q as int));
                assert(inner.subrange(q - lo, inner.len() as int) =~= buf@.subrange(
                    q + 1,
                    hi - 2,
                ));
            }
            Some(Envelope { type_lo: lo + 1, type_hi: q, body_lo: q + 1, body_hi: hi - 2 })
        },
        None => None,
    }
}

} // verus!
