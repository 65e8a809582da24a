//! Decoding frames into records, one frame per call.
use vstd::prelude::*;
use crate::data_packet::{data_from_fields, data_value, param_view, DataPacket, DataView, Params};
use crate::frame::{envelope, find_frame_end, frame_len, result_view, split_envelope, FrameError};
use crate::login_packet::{login_from_fields, login_value, LoginPacket, LoginView};
use crate::response_packet::{ack_type, ResponsePacket};
use crate::scan::{is_pair, is_single, split, split_ranges};
use crate::short_data_packet::{short_data_from_fields, short_data_value, ShortDataPacket};

verus! {

/// The record that a frame carries, by frame type.
#[derive(Debug)]
pub enum PacketTypes {
    LoginPacket(LoginPacket),
    ShortDataPacket(ShortDataPacket),
    DataPacket(DataPacket),
}

pub enum PacketView {
    Login(LoginView),
    ShortData(ShortDataPacket),
    Data(DataView),
}

/// A decoded frame.
#[derive(Debug)]
pub struct Packet {
    body: PacketTypes,
}

impl View for Packet {
    type V = PacketView;

    closed spec fn view(&self) -> PacketView {
        match self.body {
            PacketTypes::LoginPacket(p) => PacketView::Login(p@),
            PacketTypes::ShortDataPacket(p) => PacketView::ShortData(p),
            PacketTypes::DataPacket(p) => PacketView::Data(p@),
        }
    }
}

/// Why a decoded packet does not hold what was asked of it.
#[derive(Clone, Copy, Debug, PartialEq, Eq, Structural)]
pub enum AccessError {
    /// The packet is of another type.
    WrongType,
    /// The packet carries no extra parameters.
    NoExtraData,
    /// The packet has no extra parameter of that name.
    NoSuchParam,
}

/// The record of a frame with type `t` and body `b`, whose fields are
/// separated by `;`.
pub open spec fn body_value(t: Seq<u8>, b: Seq<u8>) -> Result<PacketView, FrameError> {
    let f = split(b, 59);
    if t == seq![76u8] {
        match login_value(f) {
            Ok(p) => Ok(PacketView::Login(p)),
            Err(e) => Err(e),
        }
    } else if t == seq![83u8, 68u8] {
        match short_data_value(f) {
            Ok(p) => Ok(PacketView::ShortData(p)),
            Err(e) => Err(e),
        }
    } else if t == seq![68u8] {
        match data_value(f) {
            Ok(p) => Ok(PacketView::Data(p)),
            Err(e) => Err(e),
        }
    } else {
        Err(FrameError::UnknownType)
    }
}

/// The record of the complete frame `f`.
#[verifier::opaque]
pub open spec fn packet_value(f: Seq<u8>) -> Result<PacketView, FrameError> {
    match envelope(f) {
        Some((t, b)) => body_value(t, b),
        None => Err(FrameError::Malformed),
    }
}

/// Decoding the start of a stream: the record of its first frame and the
/// number of bytes that frame takes, or `Incomplete` and nothing taken while
/// no `\r\n` has arrived.
pub open spec fn decode_value(s: Seq<u8>) -> (Result<PacketView, FrameError>, int) {
    match frame_len(s) {
        Some(n) => (packet_value(s.subrange(0, n)), n),
        None => (Err(FrameError::Incomplete), 0),
    }
}

/// The acknowledgment type of a record.
pub open spec fn ack_name(p: PacketView) -> Seq<char> {
    match p {
        PacketView::Login(_) => seq!['A', 'L'],
        PacketView::ShortData(_) => seq!['A', 'S', 'D'],
        PacketView::Data(_) => seq!['A', 'D'],
    }
}

/// The value of the last extra parameter named `name`.
pub open spec fn lookup(ps: Seq<(Seq<char>, Params)>, name: Seq<char>) -> Option<Params>
    decreases ps.len(),
{
    if ps.len() == 0 {
        None
    } else if ps.last().0 == name {
        Some(ps.last().1)
    } else {
        lookup(ps.drop_last(), name)
    }
}

/// A complete frame never decodes as `Incomplete`.
pub proof fn lemma_never_incomplete(f: Seq<u8>)
    ensures
        packet_value(f) != Err::<PacketView, FrameError>(FrameError::Incomplete),
{
    reveal(packet_value);
}

/// Until a `\r\n` arrives a stream decodes as `Incomplete` and nothing is
/// taken; once one has arrived, the frame before it is taken whole and never
/// decodes as `Incomplete`, and where that frame does not start with `#` it
/// decodes as `Malformed`.
pub proof fn lemma_incomplete_then_malformed(s: Seq<u8>)
    ensures
        frame_len(s) is None ==> decode_value(s) == (
            Err::<PacketView, FrameError>(FrameError::Incomplete),
            0int,
        ),
        frame_len(s) matches Some(n) ==> decode_value(s).1 == n && decode_value(s).0 != Err::<
            PacketView,
            FrameError,
        >(FrameError::Incomplete),
        frame_len(s) is Some && s[0] != 35 ==> decode_value(s).0 == Err::<PacketView, FrameError>(
            FrameError::Malformed,
        ),
{
    if let Some(n) = frame_len(s) {
        lemma_never_incomplete(s.subrange(0, n));
        reveal(packet_value);
        crate::frame::lemma_crlf_index(s);
    }
}

/// A decoded frame is acknowledged with the type that its frame type calls
/// for, the one `encode_response` gives: `L` with `AL`, `SD` with `ASD`,
/// `D` with `AD`.
pub proof fn lemma_ack_follows_type(f: Seq<u8>)
    requires
        packet_value(f) is Ok,
    ensures
        envelope(f) matches Some((t, b)) && ack_type(t) == Some(ack_name(packet_value(f)->Ok_0)),
{
    reveal(packet_value);
}

/// The record of the frame `buf[lo..hi]`.
pub(crate) fn packet_in(buf: &[u8], lo: usize, hi: usize) -> (r: Result<Packet, FrameError>)
    requires
        lo <= hi <= buf@.len(),
    ensures
        result_view(r) == packet_value(buf@.subrange(lo as int, hi as int)),
{
    reveal(packet_value);
    let e = match split_envelope(buf, lo, hi) {
        Some(e) => e,
        None => {
            return Err(FrameError::Malformed);
        },
    };
    let f = split_ranges(buf, e.body_lo, e.body_hi, 59);
    if is_single(buf, e.type_lo, e.type_hi, 76) {
        match login_from_fields(buf, &f) {
            Ok(p) => Ok(Packet { body: PacketTypes::LoginPacket(p) }),
            Err(err) => Err(err),
        }
    } else if is_pair(buf, e.type_lo, e.type_hi, 83, 68) {
        match short_data_from_fields(buf, &f) {
            Ok(p) => Ok(Packet { body: PacketTypes::ShortDataPacket(p) }),
            Err(err) => Err(err),
        }
    } else if is_single(buf, e.type_lo, e.type_hi, 68) {
        match data_from_fields(buf, &f) {
            Ok(p) => Ok(Packet { body: PacketTypes::DataPacket(p) }),
            Err(err) => Err(err),
        }
    } else {
        Err(FrameError::UnknownType)
    }
}

/// Decodes the first frame of `buf[lo..hi]`: the result and the number of
/// bytes that frame takes.
pub(crate) fn decode_at(buf: &[u8], lo: usize, hi: usize) -> (r: (Result<Packet, FrameError>, usize))
    requires
        lo <= hi <= buf@.len(),
    ensures
        (result_view(r.0), r.1 as int) == decode_value(buf@.subrange(lo as int, hi as int)),
        lo + r.1 <= hi,
{
    let ghost s = buf@.subrange(lo as int, hi as int);
    match find_frame_end(buf, lo, hi) {
        Some(end) => {
            assert(s.subrange(0, end - lo) =~= buf@.subrange(lo as int, end as int));
            (packet_in(buf, lo, end), end - lo)
        },
        None => (Err(FrameError::Incomplete), 0),
    }
}

/// Decodes the first frame of `buf`: the result and the number of bytes that
/// frame takes. `Incomplete` comes exactly when `buf` holds no `\r\n`, and
/// then nothing is taken.
pub fn decode(buf: &[u8]) -> (r: (Result<Packet, FrameError>, usize))
    ensures
        (result_view(r.0), r.1 as int) == decode_value(buf@),
        r.0 == Err::<Packet, FrameError>(FrameError::Incomplete) <==> frame_len(buf@) is None,
{
    assert(buf@.subrange(0, buf@.len() as int) =~= buf@);
    let r = decode_at(buf, 0, buf.len());
    proof {
        if let Some(n) = frame_len(buf@) {
            lemma_never_incomplete(buf@.subrange(0, n));
        }
    }
    r
}

impl Packet {
    /// Decodes the first frame of `msg`: `Incomplete` while `msg` holds no
    /// `\r\n`, else the record of the bytes up to and including the first
    /// `\r\n`. Bytes after that frame are left for a later call; `decode`
    /// also says how many bytes the frame took.
    pub fn from(msg: &[u8]) -> (r: Result<Packet, FrameError>)
        ensures
            result_view(r) == decode_value(msg@).0,
    {
        decode(msg).0
    }

    /// The type of the frame this packet came from.
    pub fn ptype(&self) -> (r: &'static str)
        ensures
            r@ == match self@ {
                PacketView::Login(_) => seq!['L'],
                PacketView::ShortData(_) => seq!['S', 'D'],
                PacketView::Data(_) => seq!['D'],
            },
    {
        proof {
            reveal_strlit("L");
            reveal_strlit("SD");
            reveal_strlit("D");
        }
        match &self.body {
            PacketTypes::LoginPacket(_) => "L",
            PacketTypes::ShortDataPacket(_) => "SD",
            PacketTypes::DataPacket(_) => "D",
        }
    }

    /// True for a login packet.
    pub fn is_auth_packet(&self) -> (r: bool)
        ensures
            r == self@ is Login,
    {
        match &self.body {
            PacketTypes::LoginPacket(_) => true,
            _ => false,
        }
    }

    /// The acknowledgment of this packet with code `result_code`.
    pub fn response(&self, result_code: i8) -> (r: Result<ResponsePacket, FrameError>)
        ensures
            r matches Ok(a) && a.ptype@ == ack_name(self@) && a.code == result_code,
    {
        proof {
            reveal_strlit("AL");
            reveal_strlit("ASD");
            reveal_strlit("AD");
        }
        let ptype = match &self.body {
            PacketTypes::LoginPacket(_) => "AL".to_owned(),
            PacketTypes::ShortDataPacket(_) => "ASD".to_owned(),
            PacketTypes::DataPacket(_) => "AD".to_owned(),
        };
        Ok(ResponsePacket { ptype, code: result_code })
    }

    /// The login record of a login packet.
    pub fn get_auth_data(&self) -> (r: Result<&LoginPacket, AccessError>)
        ensures
            match self@ {
                PacketView::Login(l) => r matches Ok(p) && p@ == l,
                _ => r == Err::<&LoginPacket, AccessError>(AccessError::WrongType),
            },
    {
        match &self.body {
            PacketTypes::LoginPacket(p) => Ok(p),
            _ => Err(AccessError::WrongType),
        }
    }

    /// The navigation record of a navigation or extended navigation packet.
    pub fn get_navigate_data(&self) -> (r: Result<&ShortDataPacket, AccessError>)
        ensures
            match self@ {
                PacketView::Login(_) => r == Err::<&ShortDataPacket, AccessError>(
                    AccessError::WrongType,
                ),
                PacketView::ShortData(s) => r == Ok::<&ShortDataPacket, AccessError>(&s),
                PacketView::Data(d) => r == Ok::<&ShortDataPacket, AccessError>(&d.spd),
            },
    {
        match &self.body {
            PacketTypes::LoginPacket(_) => Err(AccessError::WrongType),
            PacketTypes::ShortDataPacket(p) => Ok(p),
            PacketTypes::DataPacket(p) => Ok(&p.spd),
        }
    }

    /// The value of the extra parameter `param_name` of an extended
    /// navigation packet; where the frame named it twice, the later one.
    pub fn get_extra_param(&self, param_name: &str) -> (r: Result<&Params, AccessError>)
        ensures
            match self@ {
                PacketView::Data(d) => match lookup(d.params, param_name@) {
                    Some(v) => r == Ok::<&Params, AccessError>(&v),
                    None => r == Err::<&Params, AccessError>(AccessError::NoSuchParam),
                },
                _ => r == Err::<&Params, AccessError>(AccessError::NoExtraData),
            },
    {
        let d = match &self.body {
            PacketTypes::DataPacket(d) => d,
            _ => {
                return Err(AccessError::NoExtraData);
            },
        };
        assert(self@ == PacketView::Data(d@));
        let key = param_name.to_owned();
        let ghost ps = d@.params;
        assert(ps.subrange(0, ps.len() as int) =~= ps);
        let mut i: usize = d.params.len();
        while i > 0
            invariant
                i <= d.params@.len(),
                ps == d@.params,
                self@ == PacketView::Data(d@),
                key@ == param_name@,
                lookup(ps, key@) == lookup(ps.subrange(0, i as int), key@),
            decreases i,
        {
            let ghost pre = ps.subrange(0, i as int);
            assert(pre.drop_last() =~= ps.subrange(0, i - 1));
            assert(pre.last() == param_view(d.params@[i - 1]));
            let entry = &d.params[i - 1];
            assert(*entry == d.params@[i - 1]);
            if entry.0 == key {
                assert(lookup(ps, key@) == Some(entry.1));
                return Ok(&entry.1);
            }
            i = i - 1;
        }
        Err(AccessError::NoSuchParam)
    }
}

} // verus!
