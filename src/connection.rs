//! The state of one terminal connection, and what a read on it leads to.
use vstd::prelude::*;
use vstd::slice::slice_to_vec;
use vstd::utf8::{encode_utf8, valid_utf8};
use crate::frame::{
    crlf_index, frame_len, is_crlf_at, lemma_crlf_index, lemma_crlf_index_at, result_view, FrameError,
};
use crate::packet::{ack_name, decode_at, packet_value, Packet, PacketView};
use crate::response_packet::response_bytes;
use crate::store::{event_of, GeoPacket, GeoView};

verus! {

broadcast use vstd::utf8::group_utf8_lib;

/// One terminal connection: the device identifier learnt from its last login
/// frame, and the bytes received that do not form a complete frame yet.
pub struct Connection {
    imei: Vec<u8>,
    buffer: Vec<u8>,
}

pub struct ConnectionView {
    pub imei: Seq<u8>,
    pub buffer: Seq<u8>,
}

impl View for Connection {
    type V = ConnectionView;

    closed spec fn view(&self) -> ConnectionView {
        ConnectionView { imei: self.imei@, buffer: self.buffer@ }
    }
}

/// What the connection asks of the code around it, in order.
#[derive(Debug)]
pub enum Action {
    /// Hand this event to the sink.
    Forward(GeoPacket),
    /// Write these bytes back to the terminal.
    Reply(Vec<u8>),
    /// A frame was dropped, for this reason.
    Discard(FrameError),
}

pub enum ActionView {
    Forward(GeoView),
    Reply(Seq<u8>),
    Discard(FrameError),
}

impl View for Action {
    type V = ActionView;

    open spec fn view(&self) -> ActionView {
        match self {
            Action::Forward(g) => ActionView::Forward(g@),
            Action::Reply(b) => ActionView::Reply(b@),
            Action::Discard(e) => ActionView::Discard(*e),
        }
    }
}

pub open spec fn actions_view(v: Seq<Action>) -> Seq<ActionView> {
    v.map_values(|a: Action| a@)
}

/// The device identifier of a connection that has not logged in.
pub open spec fn sentinel_imei() -> Seq<u8> {
    seq![0u8, 100u8]
}

/// A connection holds a valid UTF-8 identifier and no complete frame.
pub open spec fn settled(c: ConnectionView) -> bool {
    valid_utf8(c.imei) && frame_len(c.buffer) is None
}

/// What one complete frame does on a connection with identifier `imei`: the
/// new identifier and the actions. A login frame sets the identifier to its
/// own; a navigation frame is forwarded with the current identifier. Every
/// decoded frame is acknowledged with code 1; a frame that does not decode is
/// dropped, and `drain` stops at a malformed one.
pub open spec fn frame_step(imei: Seq<u8>, frame: Seq<u8>) -> (Seq<u8>, Seq<ActionView>) {
    packet_step(imei, packet_value(frame))
}

/// What the decoding result `res` of a frame does on a connection with
/// identifier `imei`.
#[verifier::opaque]
pub open spec fn packet_step(imei: Seq<u8>, res: Result<PacketView, FrameError>) -> (
    Seq<u8>,
    Seq<ActionView>,
) {
    match res {
        Ok(p) => {
            let reply = ActionView::Reply(response_bytes(ack_name(p), 1));
            match p {
                PacketView::Login(l) => (encode_utf8(l.imei), seq![reply]),
                PacketView::ShortData(s) => (
                    imei,
                    seq![ActionView::Forward(event_of(imei, s)), reply],
                ),
                PacketView::Data(d) => (
                    imei,
                    seq![ActionView::Forward(event_of(imei, d.spd)), reply],
                ),
            }
        },
        Err(e) => (imei, seq![ActionView::Discard(e)]),
    }
}

/// A first frame, where there is one, is not empty and lies within `s`.
pub proof fn lemma_frame_len(s: Seq<u8>)
    ensures
        frame_len(s) matches Some(n) ==> 2 <= n <= s.len(),
{
    lemma_crlf_index(s);
}

#[via_fn]
proof fn drain_decreases(imei: Seq<u8>, s: Seq<u8>) {
    lemma_frame_len(s);
}

/// Handles every complete frame at the start of `s`, in order: the final
/// identifier, all actions, and the bytes left after the last complete frame.
/// A malformed frame stops the handling: it is discarded together with
/// everything after it, and nothing is left.
#[verifier::opaque]
pub open spec fn drain(imei: Seq<u8>, s: Seq<u8>) -> (Seq<u8>, Seq<ActionView>, Seq<u8>)
    decreases s.len(),
    via drain_decreases
{
    match frame_len(s) {
        Some(n) => {
            let res = packet_value(s.subrange(0, n));
            if res == Err::<PacketView, FrameError>(FrameError::Malformed) {
                (imei, seq![ActionView::Discard(FrameError::Malformed)], Seq::empty())
            } else {
                let (i1, a1) = packet_step(imei, res);
                let (i2, a2, rest) = drain(i1, s.subrange(n, s.len() as int));
                (i2, a1 + a2, rest)
            }
        },
        None => (imei, Seq::empty(), s),
    }
}

#[via_fn]
proof fn no_malformed_decreases(s: Seq<u8>) {
    lemma_frame_len(s);
}

/// No complete frame at the start of `s`, taken in order, is malformed.
pub open spec fn no_malformed(s: Seq<u8>) -> bool
    decreases s.len(),
    via no_malformed_decreases
{
    match frame_len(s) {
        Some(n) => packet_value(s.subrange(0, n)) != Err::<PacketView, FrameError>(
            FrameError::Malformed,
        ) && no_malformed(s.subrange(n, s.len() as int)),
        None => true,
    }
}

/// The connection after `incoming` arrives on `c`, and the actions that
/// this asks for.
pub open spec fn step(c: ConnectionView, incoming: Seq<u8>) -> (ConnectionView, Seq<ActionView>) {
    let (imei, actions, rest) = drain(c.imei, c.buffer + incoming);
    (ConnectionView { imei, buffer: rest }, actions)
}

/// Handling the first frame of `s`, then the rest.
proof fn lemma_drain_advance(
    imei: Seq<u8>,
    s: Seq<u8>,
    n: int,
    res: Result<PacketView, FrameError>,
)
    requires
        frame_len(s) == Some(n),
        res == packet_value(s.subrange(0, n)),
        res != Err::<PacketView, FrameError>(FrameError::Malformed),
    ensures
        ({
            let (i1, a1) = packet_step(imei, res);
            let (i2, a2, rest) = drain(i1, s.subrange(n, s.len() as int));
            drain(imei, s) == (i2, a1 + a2, rest)
        }),
{
    reveal(drain);
}

/// A malformed first frame ends the handling and drops every byte.
proof fn lemma_drain_malformed(imei: Seq<u8>, s: Seq<u8>, n: int)
    requires
        frame_len(s) == Some(n),
        packet_value(s.subrange(0, n)) == Err::<PacketView, FrameError>(FrameError::Malformed),
    ensures
        drain(imei, s) == (
            imei,
            seq![ActionView::Discard(FrameError::Malformed)],
            Seq::<u8>::empty(),
        ),
{
    reveal(drain);
}

/// Without a complete frame nothing is handled.
proof fn lemma_drain_none(imei: Seq<u8>, s: Seq<u8>)
    requires
        frame_len(s) is None,
    ensures
        drain(imei, s) == (imei, Seq::<ActionView>::empty(), s),
{
    reveal(drain);
}

/// More bytes after a complete frame do not move its end.
proof fn lemma_frame_len_extend(s: Seq<u8>, t: Seq<u8>)
    requires
        frame_len(s) is Some,
    ensures
        frame_len(s + t) == frame_len(s),
{
    lemma_crlf_index(s);
    let p = crlf_index(s)->Some_0;
    let st = s + t;
    assert forall|i: int| 0 <= i < p implies !#[trigger] is_crlf_at(st, i) by {
        assert(!is_crlf_at(s, i));
        assert(st[i] == s[i] && st[i + 1] == s[i + 1]);
    }
    assert(st[p] == s[p] && st[p + 1] == s[p + 1]);
    lemma_crlf_index_at(st, p);
}

/// Handling `s` and then `t` after what `s` left over is handling `s + t`,
/// where no frame of `s` is malformed.
proof fn lemma_drain_append(imei: Seq<u8>, s: Seq<u8>, t: Seq<u8>)
    requires
        no_malformed(s),
    ensures
        ({
            let (i1, a1, r1) = drain(imei, s);
            let (i2, a2, r2) = drain(i1, r1 + t);
            drain(imei, s + t) == (i2, a1 + a2, r2)
        }),
    decreases s.len(),
{
    lemma_frame_len(s);
    match frame_len(s) {
        None => {
            lemma_drain_none(imei, s);
            let (i2, a2, r2) = drain(imei, s + t);
            assert(Seq::<ActionView>::empty() + a2 =~= a2);
        },
        Some(n) => {
            lemma_frame_len_extend(s, t);
            let st = s + t;
            let res = packet_value(s.subrange(0, n));
            assert(st.subrange(0, n) =~= s.subrange(0, n));
            lemma_drain_advance(imei, s, n, res);
            lemma_drain_advance(imei, st, n, res);
            let (i1, f1) = packet_step(imei, res);
            let tail = s.subrange(n, s.len() as int);
            assert(st.subrange(n, st.len() as int) =~= tail + t);
            lemma_drain_append(i1, tail, t);
            let (j1, b1, q1) = drain(i1, tail);
            let (j2, b2, q2) = drain(j1, q1 + t);
            assert(f1 + (b1 + b2) =~= (f1 + b1) + b2);
        },
    }
}

/// Bytes that arrive over two reads are handled as if they had arrived in
/// one: the connection ends in the same state, and the actions of the second
/// read follow those of the first. A frame split across reads is decoded
/// once, when its last byte arrives. This holds where the frames that the
/// first read completes are not malformed; a malformed one drops the rest
/// of a read, so a later read is handled afresh.
pub proof fn lemma_split_reads(c: ConnectionView, a: Seq<u8>, b: Seq<u8>)
    requires
        no_malformed(c.buffer + a),
    ensures
        ({
            let (c1, x1) = step(c, a);
            let (c2, x2) = step(c1, b);
            step(c, a + b) == (c2, x1 + x2)
        }),
{
    lemma_drain_append(c.imei, c.buffer + a, b);
    assert(c.buffer + a + b =~= c.buffer + (a + b));
}

/// Two complete frames that arrive in one read on a connection with nothing
/// buffered are handled as two records, in arrival order: the second frame
/// sees the identifier that the first one left, and its actions follow the
/// first one's. Nothing is left buffered.
pub proof fn lemma_frames_in_order(c: ConnectionView, f1: Seq<u8>, f2: Seq<u8>)
    requires
        c.buffer.len() == 0,
        frame_len(f1) == Some(f1.len() as int),
        frame_len(f2) == Some(f2.len() as int),
        packet_value(f1) != Err::<PacketView, FrameError>(FrameError::Malformed),
    ensures
        ({
            let (i1, a1) = frame_step(c.imei, f1);
            let (i2, a2) = frame_step(i1, f2);
            step(c, f1 + f2) == (ConnectionView { imei: i2, buffer: Seq::empty() }, a1 + a2)
        }),
{
    let s = c.buffer + (f1 + f2);
    assert(s =~= f1 + f2);
    lemma_frame_len_extend(f1, f2);
    let n = f1.len() as int;
    assert(s.subrange(0, n) =~= f1);
    assert(s.subrange(n, s.len() as int) =~= f2);
    lemma_drain_advance(c.imei, s, n, packet_value(f1));
    let (i1, a1) = frame_step(c.imei, f1);
    assert(f2.subrange(0, f2.len() as int) =~= f2);
    assert(f2.subrange(f2.len() as int, f2.len() as int) =~= Seq::<u8>::empty());
    assert(frame_len(Seq::<u8>::empty()) is None);
    if packet_value(f2) == Err::<PacketView, FrameError>(FrameError::Malformed) {
        lemma_drain_malformed(i1, f2, f2.len() as int);
        reveal(packet_step);
    } else {
        lemma_drain_advance(i1, f2, f2.len() as int, packet_value(f2));
        let (i2, a2) = frame_step(i1, f2);
        lemma_drain_none(i2, Seq::<u8>::empty());
        assert(a2 + Seq::<ActionView>::empty() =~= a2);
    }
}

/// What `drain` leaves holds no complete frame.
proof fn lemma_drain_settles(imei: Seq<u8>, s: Seq<u8>)
    ensures
        frame_len(drain(imei, s).2) is None,
        valid_utf8(imei) ==> valid_utf8(drain(imei, s).0),
    decreases s.len(),
{
    reveal(drain);
    reveal(packet_step);
    lemma_frame_len(s);
    assert(frame_len(Seq::<u8>::empty()) is None);
    if let Some(n) = frame_len(s) {
        let (i1, a1) = frame_step(imei, s.subrange(0, n));
        lemma_drain_settles(i1, s.subrange(n, s.len() as int));
    }
}

/// Updates the identifier and adds the actions for one decoded frame.
fn handle_frame(imei: &mut Vec<u8>, actions: &mut Vec<Action>, res: Result<Packet, FrameError>)
    requires
        valid_utf8(old(imei)@),
    ensures
        valid_utf8(final(imei)@),
        final(imei)@ == packet_step(old(imei)@, result_view(res)).0,
        actions_view(final(actions)@) == actions_view(old(actions)@) + packet_step(
            old(imei)@,
            result_view(res),
        ).1,
{
    let ghost before = actions_view(actions@);
    let ghost imei_before = imei@;
    proof {
        reveal(packet_step);
    }
    match res {
        Ok(p) => {
            if p.is_auth_packet() {
                match p.get_auth_data() {
                    Ok(auth) => {
                        *imei = slice_to_vec(auth.imei.as_str().as_bytes());
                    },
                    Err(_) => {},
                }
            } else {
                match p.get_navigate_data() {
                    Ok(nav) => {
                        let client = slice_to_vec(imei.as_slice());
                        actions.push(Action::Forward(GeoPacket::new(client, nav)));
                    },
                    Err(_) => {},
                }
            }
            match p.response(1) {
                Ok(reply) => {
                    actions.push(Action::Reply(reply.to_bytes()));
                },
                Err(_) => {},
            }
        },
        Err(e) => {
            actions.push(Action::Discard(e));
        },
    }
    assert(actions_view(actions@) =~= before + packet_step(imei_before, result_view(res)).1);
}

impl Connection {
    #[verifier::type_invariant]
    spec fn inv(self) -> bool {
        settled(self@)
    }

    /// A connection that has not logged in and has received nothing.
    pub fn new() -> (r: Connection)
        ensures
            r@ == (ConnectionView { imei: sentinel_imei(), buffer: Seq::empty() }),
    {
        let mut imei: Vec<u8> = Vec::new();
        imei.push(0);
        imei.push(100);
        assert(imei@ =~= sentinel_imei());
        proof {
            crate::text::lemma_ascii_text(imei@);
            assert(frame_len(Seq::<u8>::empty()) is None);
        }
        Connection { imei, buffer: Vec::new() }
    }

    /// Takes in the bytes of one read, handles every frame that they
    /// complete, in order, and keeps what is left of an unfinished frame.
    pub fn get_message(&mut self, incoming: &[u8]) -> (r: Vec<Action>)
        ensures
            step(old(self)@, incoming@) == (final(self)@, actions_view(r@)),
            settled(final(self)@),
    {
        proof {
            use_type_invariant(&*self);
        }
        let ghost start = self@;
        let ghost whole = start.buffer + incoming@;
        let mut imei: Vec<u8> = slice_to_vec(self.imei.as_slice());
        let mut buf: Vec<u8> = slice_to_vec(self.buffer.as_slice());
        let mut i: usize = 0;
        while i < incoming.len()
            invariant
                0 <= i <= incoming@.len(),
                buf@ == start.buffer + incoming@.subrange(0, i as int),
            decreases incoming@.len() - i,
        {
            buf.push(incoming[i]);
            i = i + 1;
            assert(buf@ =~= start.buffer + incoming@.subrange(0, i as int));
        }
        assert(buf@ =~= whole);
        let mut actions: Vec<Action> = Vec::new();
        let mut pos: usize = 0;
        assert(buf@.subrange(0, buf@.len() as int) =~= whole);
        assert(actions_view(actions@) =~= Seq::<ActionView>::empty());
        loop
            invariant
                pos <= buf@.len(),
                buf@ == whole,
                valid_utf8(imei@),
                ({
                    let (i2, a2, r2) = drain(imei@, buf@.subrange(pos as int, buf@.len() as int));
                    (i2, actions_view(actions@) + a2, r2) == drain(start.imei, whole)
                }),
            ensures
                pos <= buf@.len(),
                buf@ == whole,
                valid_utf8(imei@),
                drain(start.imei, whole) == (
                    imei@,
                    actions_view(actions@),
                    buf@.subrange(pos as int, buf@.len() as int),
                ),
            decreases buf@.len() - pos,
        {
            let ghost s = buf@.subrange(pos as int, buf@.len() as int);
            let ghost before = actions_view(actions@);
            let ghost imei_before = imei@;
            proof {
                lemma_frame_len(s);
            }
            let (res, n) = decode_at(buf.as_slice(), pos, buf.len());
            if n == 0 {
                proof {
                    lemma_drain_none(imei@, s);
                    assert(actions_view(actions@) + Seq::<ActionView>::empty() =~= actions_view(
                        actions@,
                    ));
                }
                break;
            }
            let ghost res_view = result_view(res);
            if let Err(FrameError::Malformed) = res {
                actions.push(Action::Discard(FrameError::Malformed));
                proof {
                    lemma_drain_malformed(imei_before, s, n as int);
                    assert(frame_len(Seq::<u8>::empty()) is None);
                    lemma_drain_none(imei@, Seq::<u8>::empty());
                    assert(actions_view(actions@) =~= before + seq![
                        ActionView::Discard(FrameError::Malformed),
                    ]);
                    assert(buf@.subrange(buf@.len() as int, buf@.len() as int) =~= Seq::<
                        u8,
                    >::empty());
                    assert(before + seq![ActionView::Discard(FrameError::Malformed)]
                        + Seq::<ActionView>::empty() =~= actions_view(actions@));
                }
                pos = buf.len();
                break;
            }
            handle_frame(&mut imei, &mut actions, res);
            proof {
                lemma_drain_advance(imei_before, s, n as int, res_view);
                let tail = s.subrange(n as int, s.len() as int);
                assert(tail =~= buf@.subrange(pos + n, buf@.len() as int));
                let (i2, a2, r2) = drain(imei@, tail);
                assert(before + (packet_step(imei_before, res_view).1 + a2) =~= actions_view(
                    actions@,
                ) + a2);
            }
            pos = pos + n;
        }
        let rest = buf.split_off(pos);
        proof {
            lemma_drain_settles(start.imei, whole);
        }
        *self = Connection { imei, buffer: rest };
        actions
    }
}

} // verus!
