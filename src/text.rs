//! Turning byte ranges of a frame into owned text.
use vstd::prelude::*;
use vstd::utf8::{decode_utf8, valid_utf8};
use crate::scan::pieces;
use vstd::string::StringSliceAdditionalSpecFns;

verus! {

/// The text held by `b`, when `b` is valid UTF-8.
pub open spec fn text_of(b: Seq<u8>) -> Option<Seq<char>> {
    if valid_utf8(b) {
        Some(decode_utf8(b))
    } else {
        None
    }
}

/// True when every byte of `b` is below 0x80.
pub open spec fn all_ascii(b: Seq<u8>) -> bool {
    forall|i: int| 0 <= i < b.len() ==> #[trigger] b[i] < 0x80
}

/// The characters of an ASCII byte sequence, one for each byte.
pub open spec fn ascii_chars(b: Seq<u8>) -> Seq<char> {
    b.map_values(|x: u8| x as char)
}

/// An ASCII byte sequence is valid UTF-8 and decodes byte for byte.
pub proof fn lemma_ascii_text(b: Seq<u8>)
    requires
        all_ascii(b),
    ensures
        valid_utf8(b),
        decode_utf8(b) == ascii_chars(b),
    decreases b.len(),
{
    if b.len() > 0 {
        let rest = b.subrange(1, b.len() as int);
        assert(all_ascii(rest)) by {
            assert forall|i: int| 0 <= i < rest.len() implies #[trigger] rest[i] < 0x80 by {
                assert(rest[i] == b[i + 1]);
            }
        }
        lemma_ascii_text(rest);
        let b0 = b[0];
        assert(b0 < 0x80);
        assert((b0 & 0x7f) == b0) by (bit_vector)
            requires
                b0 < 0x80,
        ;
        assert(vstd::utf8::decode_first_scalar(b) == b0 as u32);
        assert(vstd::utf8::pop_first_scalar(b) =~= rest);
        assert(decode_utf8(b) =~= ascii_chars(b));
    } else {
        assert(decode_utf8(b) =~= ascii_chars(b));
    }
}

/// Relies on `String::from_utf8`: it accepts exactly the byte sequences that
/// are valid UTF-8 and returns the text they encode.
#[verifier::external_body]
pub(crate) fn string_from_utf8(bytes: Vec<u8>) -> (r: Option<String>)
    ensures
        match r {
            Some(s) => valid_utf8(bytes@) && s@ == decode_utf8(bytes@),
            None => !valid_utf8(bytes@),
        },
{
    String::from_utf8(bytes).ok()
}

/// The text in `buf[lo..hi]`, or `None` where those bytes are not valid UTF-8.
pub fn text_in(buf: &[u8], lo: usize, hi: usize) -> (r: Option<String>)
    requires
        lo <= hi <= buf@.len(),
    ensures
        match r {
            Some(s) => text_of(buf@.subrange(lo as int, hi as int)) == Some(s@),
            None => text_of(buf@.subrange(lo as int, hi as int)) is None,
        },
{
    let mut bytes: Vec<u8> = Vec::new();
    let mut i: usize = lo;
    while i < hi
        invariant
            lo <= i <= hi <= buf@.len(),
            bytes@ == buf@.subrange(lo as int, i as int),
        decreases hi - i,
    {
        bytes.push(buf[i]);
        i = i + 1;
        assert(bytes@ =~= buf@.subrange(lo as int, i as int));
    }
    string_from_utf8(bytes)
}

/// The UTF-8 bytes of each string of `v`.
pub open spec fn strs_bytes(v: Seq<&str>) -> Seq<Seq<u8>> {
    v.map_values(|s: &str| s.spec_bytes())
}

/// The bytes of all strings of `body` in one buffer, with the range that
/// each string occupies there.
pub(crate) fn gather(body: &Vec<&str>) -> (r: (Vec<u8>, Vec<(usize, usize)>))
    ensures
        pieces(r.0@, r.1@) == strs_bytes(body@),
        forall|i: int|
            0 <= i < r.1@.len() ==> (#[trigger] r.1@[i]).0 <= r.1@[i].1 <= r.0@.len(),
{
    let mut buf: Vec<u8> = Vec::new();
    let mut ranges: Vec<(usize, usize)> = Vec::new();
    let mut k: usize = 0;
    while k < body.len()
        invariant
            0 <= k <= body@.len(),
            pieces(buf@, ranges@) == strs_bytes(body@.subrange(0, k as int)),
            forall|i: int|
                0 <= i < ranges@.len() ==> (#[trigger] ranges@[i]).0 <= ranges@[i].1
                    <= buf@.len(),
        decreases body@.len() - k,
    {
        let bytes = body[k].as_bytes();
        let start = buf.len();
        let ghost before = buf@;
        let mut j: usize = 0;
        while j < bytes.len()
            invariant
                0 <= j <= bytes@.len(),
                start == before.len(),
                buf@ == before + bytes@.subrange(0, j as int),
            decreases bytes@.len() - j,
        {
            buf.push(bytes[j]);
            j = j + 1;
            assert(buf@ =~= before + bytes@.subrange(0, j as int));
        }
        let ghost old_ranges = ranges@;
        ranges.push((start, buf.len()));
        proof {
            assert forall|i: int| 0 <= i < old_ranges.len() implies buf@.subrange(
                (#[trigger] old_ranges[i]).0 as int,
                old_ranges[i].1 as int,
            ) == before.subrange(old_ranges[i].0 as int, old_ranges[i].1 as int) by {
                assert(buf@.subrange(old_ranges[i].0 as int, old_ranges[i].1 as int) =~= before.subrange(
                    old_ranges[i].0 as int,
                    old_ranges[i].1 as int,
                ));
            }
            assert(buf@.subrange(start as int, buf@.len() as int) =~= bytes@);
            let target = strs_bytes(body@.subrange(0, k + 1));
            let prev = strs_bytes(body@.subrange(0, k as int));
            assert(bytes@ == body@[k as int].spec_bytes());
            assert(pieces(before, old_ranges).len() == old_ranges.len());
            assert(prev.len() == k);
            assert(old_ranges.len() == k);
            assert forall|i: int| 0 <= i < ranges@.len() implies #[trigger] pieces(buf@, ranges@)[i]
                == target[i] by {
                if i < old_ranges.len() {
                    assert(pieces(before, old_ranges)[i] == prev[i]);
                    assert(body@.subrange(0, k + 1)[i] == body@.subrange(0, k as int)[i]);
                }
            }
            assert(pieces(buf@, ranges@) =~= target);
        }
        k = k + 1;
    }
    assert(body@.subrange(0, k as int) =~= body@);
    (buf, ranges)
}

} // verus!
