//! The acknowledgment frame `#` ACK-TYPE `#` CODE `\r\n`.
use vstd::prelude::*;
use vstd::utf8::{decode_utf8, encode_utf8, valid_utf8};
use crate::frame::FrameError;
use crate::text::{all_ascii, lemma_ascii_text, string_from_utf8};

verus! {

broadcast use vstd::utf8::group_utf8_lib;

/// The acknowledgment that answers a frame.
#[derive(Debug)]
pub struct ResponsePacket {
    pub ptype: String,
    pub code: i8,
}

/// The decimal digits of `n`, in ASCII, with no leading zero.
pub open spec fn nat_text(n: nat) -> Seq<u8>
    decreases n,
{
    if n < 10 {
        seq![(48 + n) as u8]
    } else {
        nat_text(n / 10).push((48 + n % 10) as u8)
    }
}

/// `v` in decimal ASCII, with a leading `-` when negative.
pub open spec fn int_text(v: int) -> Seq<u8> {
    if v < 0 {
        seq![45u8] + nat_text((-v) as nat)
    } else {
        nat_text(v as nat)
    }
}

/// The bytes of the acknowledgment of type `ptype` with code `code`.
pub open spec fn response_bytes(ptype: Seq<char>, code: int) -> Seq<u8> {
    seq![35u8] + encode_utf8(ptype) + seq![35u8] + int_text(code) + seq![13u8, 10u8]
}

/// The acknowledgment type that answers a request of type `t`.
pub open spec fn ack_type(t: Seq<u8>) -> Option<Seq<char>> {
    if t == seq![76u8] {
        Some(seq!['A', 'L'])
    } else if t == seq![83u8, 68u8] {
        Some(seq!['A', 'S', 'D'])
    } else if t == seq![68u8] {
        Some(seq!['A', 'D'])
    } else {
        None
    }
}

proof fn lemma_nat_text_ascii(n: nat)
    ensures
        all_ascii(nat_text(n)),
    decreases n,
{
    if n >= 10 {
        lemma_nat_text_ascii(n / 10);
        let t = nat_text(n);
        assert forall|i: int| 0 <= i < t.len() implies #[trigger] t[i] < 0x80 by {
            if i < t.len() - 1 {
                assert(t[i] == nat_text(n / 10)[i]);
            }
        }
    }
}

/// Appends `v` in decimal ASCII to `out`.
fn push_int_text(out: &mut Vec<u8>, v: i8)
    ensures
        final(out)@ == old(out)@ + int_text(v as int),
{
    let ghost start = out@;
    let mag: u8 = if v < 0 {
        out.push(45);
        (-(v as i16)) as u8
    } else {
        v as u8
    };
    let ghost sign = if v < 0 {
        seq![45u8]
    } else {
        Seq::<u8>::empty()
    };
    assert(out@ == start + sign);
    let ghost m = mag as nat;
    proof {
        reveal_with_fuel(nat_text, 3);
    }
    if mag >= 100 {
        out.push(48 + mag / 100);
        out.push(48 + (mag / 10) % 10);
        out.push(48 + mag % 10);
        assert(nat_text(m) =~= seq![(48 + m / 100) as u8, (48 + (m / 10) % 10) as u8, (48 + m
            % 10) as u8]);
    } else if mag >= 10 {
        out.push(48 + mag / 10);
        out.push(48 + mag % 10);
        assert(nat_text(m) =~= seq![(48 + m / 10) as u8, (48 + m % 10) as u8]);
    } else {
        out.push(48 + mag);
        assert(nat_text(m) =~= seq![(48 + m) as u8]);
    }
    assert(out@ =~= start + int_text(v as int));
}

/// The acknowledgment bytes for a request of type `request_type`; a type
/// with no acknowledgment is refused.
pub fn encode_response(request_type: &[u8], code: i8) -> (r: Result<Vec<u8>, FrameError>)
    ensures
        match ack_type(request_type@) {
            Some(a) => r matches Ok(b) && b@ == response_bytes(a, code as int),
            None => r == Err::<Vec<u8>, FrameError>(FrameError::UnknownType),
        },
{
    match ack_for(request_type) {
        Some(ptype) => Ok(ResponsePacket { ptype, code }.to_bytes()),
        None => Err(FrameError::UnknownType),
    }
}

/// The acknowledgment type for a request of type `t`, as text.
pub(crate) fn ack_for(t: &[u8]) -> (r: Option<String>)
    ensures
        match ack_type(t@) {
            Some(a) => r matches Some(s) && s@ == a,
            None => r is None,
        },
{
    let n = t.len();
    if n == 1 && t[0] == 76 {
        assert(t@ =~= seq![76u8]);
        proof {
            reveal_strlit("AL");
        }
        Some("AL".to_owned())
    } else if n == 2 && t[0] == 83 && t[1] == 68 {
        assert(t@ =~= seq![83u8, 68u8]);
        proof {
            reveal_strlit("ASD");
        }
        Some("ASD".to_owned())
    } else if n == 1 && t[0] == 68 {
        assert(t@ =~= seq![68u8]);
        proof {
            reveal_strlit("AD");
        }
        Some("AD".to_owned())
    } else {
        assert(t@ != seq![76u8] && t@ != seq![83u8, 68u8] && t@ != seq![68u8]) by {
            if t@ == seq![76u8] || t@ == seq![68u8] {
                assert(t@[0] == t[0]);
            }
            if t@ == seq![83u8, 68u8] {
                assert(t@[0] == t[0] && t@[1] == t[1]);
            }
        }
        None
    }
}

impl ResponsePacket {
    /// The bytes of this acknowledgment on the wire.
    pub fn to_bytes(&self) -> (r: Vec<u8>)
        ensures
            r@ == response_bytes(self.ptype@, self.code as int),
    {
        let mut out: Vec<u8> = Vec::new();
        out.push(35);
        let t = self.ptype.as_str().as_bytes();
        let mut i: usize = 0;
        while i < t.len()
            invariant
                0 <= i <= t@.len(),
                t@ == encode_utf8(self.ptype@),
                out@ == seq![35u8] + t@.subrange(0, i as int),
            decreases t@.len() - i,
        {
            out.push(t[i]);
            i = i + 1;
            assert(out@ =~= seq![35u8] + t@.subrange(0, i as int));
        }
        assert(t@.subrange(0, i as int) =~= t@);
        out.push(35);
        push_int_text(&mut out, self.code);
        out.push(13);
        out.push(10);
        assert(out@ =~= response_bytes(self.ptype@, self.code as int));
        out
    }

    /// This acknowledgment as text.
    pub fn to_string(&self) -> (r: String)
        ensures
            valid_utf8(response_bytes(self.ptype@, self.code as int)),
            r@ == decode_utf8(response_bytes(self.ptype@, self.code as int)),
    {
        let bytes = self.to_bytes();
        let ghost v = self.code as int;
        proof {
            let hash = seq![35u8];
            let tail = seq![13u8, 10u8];
            lemma_ascii_text(hash);
            lemma_ascii_text(tail);
            lemma_nat_text_ascii(if v < 0 {
                (-v) as nat
            } else {
                v as nat
            });
            if v < 0 {
                lemma_ascii_text(seq![45u8]);
            }
            assert(all_ascii(int_text(v))) by {
                if v < 0 {
                    let n = nat_text((-v) as nat);
                    assert forall|i: int| 0 <= i < int_text(v).len() implies #[trigger] int_text(
                        v,
                    )[i] < 0x80 by {
                        if i > 0 {
                            assert(int_text(v)[i] == n[i - 1]);
                        }
                    }
                }
            }
            lemma_ascii_text(int_text(v));
            assert(valid_utf8(hash + encode_utf8(self.ptype@)));
            assert(valid_utf8(hash + encode_utf8(self.ptype@) + hash));
            assert(valid_utf8(hash + encode_utf8(self.ptype@) + hash + int_text(v)));
            assert(valid_utf8(hash + encode_utf8(self.ptype@) + hash + int_text(v) + tail));
        }
        match string_from_utf8(bytes) {
            Some(s) => s,
            None => String::new(),
        }
    }
}

} // verus!
