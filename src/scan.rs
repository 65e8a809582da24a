//! Searching and splitting byte sequences.
use vstd::prelude::*;

verus! {

/// Position of the first `c` in `s`.
pub open spec fn first_index(s: Seq<u8>, c: u8) -> Option<int>
    decreases s.len(),
{
    if s.len() == 0 {
        None
    } else if s[0] == c {
        Some(0)
    } else {
        match first_index(s.drop_first(), c) {
            Some(i) => Some(i + 1),
            None => None,
        }
    }
}

/// `first_index` finds the earliest occurrence, and finds none only where
/// there is none.
pub proof fn lemma_first_index(s: Seq<u8>, c: u8)
    ensures
        match first_index(s, c) {
            Some(p) => 0 <= p < s.len() && s[p] == c && forall|i: int|
                0 <= i < p ==> #[trigger] s[i] != c,
            None => forall|i: int| 0 <= i < s.len() ==> #[trigger] s[i] != c,
        },
    decreases s.len(),
{
    if s.len() > 0 && s[0] != c {
        let t = s.drop_first();
        lemma_first_index(t, c);
        match first_index(t, c) {
            Some(p) => {
                assert forall|i: int| 0 <= i < p + 1 implies #[trigger] s[i] != c by {
                    if i > 0 {
                        assert(s[i] == t[i - 1]);
                    }
                }
            },
            None => {
                assert forall|i: int| 0 <= i < s.len() implies #[trigger] s[i] != c by {
                    if i > 0 {
                        assert(s[i] == t[i - 1]);
                    }
                }
            },
        }
    }
}

/// A position that holds `c`, with no `c` before it, is the first index of `c`;
/// where no position holds `c` there is none.
pub proof fn lemma_first_index_at(s: Seq<u8>, c: u8, p: int)
    requires
        0 <= p <= s.len(),
        forall|i: int| 0 <= i < p ==> #[trigger] s[i] != c,
        p == s.len() || s[p] == c,
    ensures
        first_index(s, c) == (if p == s.len() {
            None
        } else {
            Some(p)
        }),
{
    lemma_first_index(s, c);
}

#[via_fn]
proof fn split_decreases(s: Seq<u8>, sep: u8) {
    lemma_first_index(s, sep);
}

/// The pieces of `s` between occurrences of `sep`, in order; there is always
/// at least one piece, and an empty `s` gives a single empty piece.
pub open spec fn split(s: Seq<u8>, sep: u8) -> Seq<Seq<u8>>
    decreases s.len(),
    via split_decreases
{
    match first_index(s, sep) {
        Some(p) => seq![s.subrange(0, p)] + split(s.subrange(p + 1, s.len() as int), sep),
        None => seq![s],
    }
}

/// The bytes of `buf` that each range of `r` covers.
pub open spec fn pieces(buf: Seq<u8>, r: Seq<(usize, usize)>) -> Seq<Seq<u8>> {
    r.map_values(|p: (usize, usize)| buf.subrange(p.0 as int, p.1 as int))
}

/// The ranges of `buf[lo..hi]` between occurrences of `sep`.
pub(crate) fn split_ranges(buf: &[u8], lo: usize, hi: usize, sep: u8) -> (r: Vec<(usize, usize)>)
    requires
        lo <= hi <= buf@.len(),
    ensures
        pieces(buf@, r@) == split(buf@.subrange(lo as int, hi as int), sep),
        forall|i: int|
            0 <= i < r@.len() ==> lo <= (#[trigger] r@[i]).0 <= r@[i].1 <= hi,
{
    let mut r: Vec<(usize, usize)> = Vec::new();
    let mut start: usize = lo;
    let mut j: usize = lo;
    while j < hi
        invariant
            lo <= start <= j <= hi <= buf@.len(),
            forall|i: int| start <= i < j ==> #[trigger] buf@[i] != sep,
            pieces(buf@, r@) + split(buf@.subrange(start as int, hi as int), sep) == split(
                buf@.subrange(lo as int, hi as int),
                sep,
            ),
            forall|i: int| 0 <= i < r@.len() ==> lo <= (#[trigger] r@[i]).0 <= r@[i].1 <= hi,
        decreases hi - j,
    {
        if buf[j] == sep {
            let ghost rest = buf@.subrange(start as int, hi as int);
            proof {
                lemma_first_index_at(rest, sep, j - start);
                assert(rest.subrange(0, j - start) =~= buf@.subrange(start as int, j as int));
                assert(rest.subrange(j - start + 1, rest.len() as int) =~= buf@.subrange(
                    j + 1,
                    hi as int,
                ));
            }
            let ghost old_r = r@;
            r.push((start, j));
            proof {
                assert(pieces(buf@, r@) =~= pieces(buf@, old_r) + seq![
                    buf@.subrange(start as int, j as int),
                ]);
            }
            start = j + 1;
        }
        j = j + 1;
    }
    let ghost rest = buf@.subrange(start as int, hi as int);
    proof {
        lemma_first_index_at(rest, sep, rest.len() as int);
    }
    let ghost old_r = r@;
    r.push((start, hi));
    proof {
        assert(pieces(buf@, r@) =~= pieces(buf@, old_r) + seq![rest]);
    }
    r
}

} // verus!

verus! {

/// True when `buf[lo..hi]` is the single byte `c`.
pub(crate) fn is_single(buf: &[u8], lo: usize, hi: usize, c: u8) -> (r: bool)
    requires
        lo <= hi <= buf@.len(),
    ensures
        r == (buf@.subrange(lo as int, hi as int) == seq![c]),
{
    let ghost s = buf@.subrange(lo as int, hi as int);
    if hi - lo == 1 && buf[lo] == c {
        assert(s =~= seq![c]);
        true
    } else {
        assert(s != seq![c]) by {
            if s == seq![c] {
                assert(s.len() == 1 && s[0] == c);
            }
        }
        false
    }
}

/// True when `buf[lo..hi]` is the two bytes `c` and `d`.
pub(crate) fn is_pair(buf: &[u8], lo: usize, hi: usize, c: u8, d: u8) -> (r: bool)
    requires
        lo <= hi <= buf@.len(),
    ensures
        r == (buf@.subrange(lo as int, hi as int) == seq![c, d]),
{
    let ghost s = buf@.subrange(lo as int, hi as int);
    if hi - lo == 2 && buf[lo] == c && buf[lo + 1] == d {
        assert(s =~= seq![c, d]);
        true
    } else {
        assert(s != seq![c, d]) by {
            if s == seq![c, d] {
                assert(s.len() == 2 && s[0] == c && s[1] == d);
            }
        }
        false
    }
}

/// The first position of `c` in `buf[lo..hi]`.
pub(crate) fn find_byte(buf: &[u8], lo: usize, hi: usize, c: u8) -> (r: Option<usize>)
    requires
        lo <= hi <= buf@.len(),
    ensures
        match first_index(buf@.subrange(lo as int, hi as int), c) {
            Some(p) => r == Some((lo + p) as usize),
            None => r is None,
        },
        r matches Some(p) ==> lo <= p < hi,
{
    let ghost s = buf@.subrange(lo as int, hi as int);
    let mut i: usize = lo;
    while i < hi
        invariant
            lo <= i <= hi <= buf@.len(),
            s == buf@.subrange(lo as int, hi as int),
            forall|j: int| 0 <= j < i - lo ==> #[trigger] s[j] != c,
        decreases hi - i,
    {
        if buf[i] == c {
            proof {
                lemma_first_index_at(s, c, i - lo);
            }
            return Some(i);
        }
        i = i + 1;
    }
    proof {
        lemma_first_index_at(s, c, s.len() as int);
    }
    None
}

} // verus!
