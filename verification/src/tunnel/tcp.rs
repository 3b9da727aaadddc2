//! Packets over a TCP stream.
//!
//! Each packet is preceded by its length in four bytes, the highest first.
use vstd::prelude::*;

use crate::octets::{be_bytes, be_value, lemma_be_round_trip, lemma_pow256, take_be, to_be};
use crate::tunnel::traits::{TransportError, TransportErrorView};

verus! {

/// The longest packet that is taken from a stream.
pub const MAX_FRAME_LEN: usize = 89_600;

pub open spec fn prefixed(payload: Seq<u8>) -> Seq<u8> {
    be_bytes((payload.len() as u32) as nat, 4) + payload
}

/// What stands at the front of the bytes that have come in.
pub enum Front {
    /// Not all of a packet has come yet.
    Partial,
    /// A length that no packet has.
    Oversized,
    /// A packet, and the bytes after it.
    Packet(Seq<u8>, Seq<u8>),
}

pub open spec fn front(buf: Seq<u8>) -> Front {
    if buf.len() < 4 {
        Front::Partial
    } else {
        let len = be_value(buf.take(4)) as int;
        if len > MAX_FRAME_LEN {
            Front::Oversized
        } else if buf.len() < 4 + len {
            Front::Partial
        } else {
            Front::Packet(buf.subrange(4, 4 + len), buf.skip(4 + len))
        }
    }
}

/// The bytes to write for the packet.
pub fn frame(payload: &[u8]) -> (r: Vec<u8>)
    ensures
        r@ == prefixed(payload@),
{
    let len: u32 = payload.len() as u32;
    let mut r = to_be(len);
    r.extend_from_slice(payload);
    assert(r@ =~= prefixed(payload@));
    r
}

/// What came of reading from the stream.
#[derive(Debug)]
pub enum ReadOutcome {
    /// What came; nothing where the other side has closed the stream.
    Data(Vec<u8>),
    /// Nothing came within the time allowed.
    TimedOut,
    Broken(String),
}

/// What to do next.
#[derive(Debug)]
pub enum RecvStep {
    /// Hand out the packet.
    Deliver(Vec<u8>),
    /// There is nothing to hand out now.
    Idle,
    /// Read from the stream.
    Read,
}

/// The bytes that have come in and were not handed out.
#[derive(Debug)]
pub struct TcpTunnel {
    rx_buf: Vec<u8>,
}

impl View for TcpTunnel {
    type V = Seq<u8>;

    closed spec fn view(&self) -> Seq<u8> {
        self.rx_buf@
    }
}

/// What the step after looking at the front is: a packet is handed out, and
/// more is read where none is complete.
pub open spec fn step_after(
    before: Seq<u8>,
    after: Seq<u8>,
    r: Result<RecvStep, TransportError>,
) -> bool {
    match front(before) {
        Front::Partial => r is Ok && r->Ok_0 is Read && after == before,
        Front::Oversized => r is Err && r->Err_0@ == TransportErrorView::Failed(
            "frame length out of range"@,
        ) && after == before,
        Front::Packet(payload, rest) => r is Ok && r->Ok_0 is Deliver && r->Ok_0->Deliver_0@
            == payload && after == rest,
    }
}

impl TcpTunnel {
    pub fn opened() -> (r: TcpTunnel)
        ensures
            r@ == Seq::<u8>::empty(),
    {
        TcpTunnel { rx_buf: Vec::new() }
    }

    /// The first step of receiving a packet.
    pub fn recv_frame(&mut self) -> (r: Result<RecvStep, TransportError>)
        ensures
            step_after(old(self)@, final(self)@, r),
    {
        if self.rx_buf.len() < 4 {
            return Ok(RecvStep::Read);
        }
        let len: usize = take_be(self.rx_buf.as_slice()) as usize;
        if len > MAX_FRAME_LEN {
            return Err(TransportError::Failed("frame length out of range".to_owned()));
        }
        if self.rx_buf.len() < 4 + len {
            return Ok(RecvStep::Read);
        }
        let mut rest = self.rx_buf.split_off(4 + len);
        std::mem::swap(&mut rest, &mut self.rx_buf);
        let payload = rest.split_off(4);
        proof {
            let all = old(self)@;
            assert(self@ =~= all.skip(4 + len));
            assert(payload@ =~= all.subrange(4, 4 + len));
        }
        Ok(RecvStep::Deliver(payload))
    }

    /// The next step, once the stream was read.
    pub fn after_read(&mut self, outcome: ReadOutcome) -> (r: Result<RecvStep, TransportError>)
        ensures
            (match outcome {
                ReadOutcome::Data(chunk) => if chunk@.len() == 0 {
                    r is Err && r->Err_0@ == TransportErrorView::Closed && final(self)@ == old(
                        self,
                    )@
                } else {
                    step_after(old(self)@ + chunk@, final(self)@, r)
                },
                ReadOutcome::TimedOut => r is Ok && r->Ok_0 is Idle && final(self)@ == old(self)@,
                ReadOutcome::Broken(detail) => r is Err && r->Err_0@ == TransportErrorView::Io(
                    detail@,
                ) && final(self)@ == old(self)@,
            }),
    {
        match outcome {
            ReadOutcome::Data(mut chunk) => {
                if chunk.len() == 0 {
                    return Err(TransportError::Closed);
                }
                self.rx_buf.append(&mut chunk);
                self.recv_frame()
            },
            ReadOutcome::TimedOut => Ok(RecvStep::Idle),
            ReadOutcome::Broken(detail) => Err(TransportError::Io(detail)),
        }
    }
}

/// A packet that is written is the packet that is read, whatever follows it
/// on the stream.
pub proof fn law_packet_round_trips(payload: Seq<u8>, rest: Seq<u8>)
    requires
        payload.len() <= MAX_FRAME_LEN,
    ensures
        front(prefixed(payload) + rest) == Front::Packet(payload, rest),
{
    lemma_pow256();
    lemma_be_round_trip(payload.len(), 4);
    let buf = prefixed(payload) + rest;
    assert(buf.take(4) =~= be_bytes(payload.len(), 4));
    assert(buf.subrange(4, 4 + payload.len() as int) =~= payload);
    assert(buf.skip(4 + payload.len() as int) =~= rest);
}

/// Where the stream is cut into pieces does not matter: what a packet is, and
/// that a length is refused, is settled by the bytes that came so far.
pub proof fn law_pieces_do_not_matter(buf: Seq<u8>, more: Seq<u8>)
    ensures
        (match front(buf) {
            Front::Packet(payload, rest) => front(buf + more) == Front::Packet(
                payload,
                rest + more,
            ),
            Front::Oversized => front(buf + more) == Front::Oversized,
            Front::Partial => true,
        }),
{
    if buf.len() >= 4 {
        assert((buf + more).take(4) =~= buf.take(4));
        let len = be_value(buf.take(4)) as int;
        if len <= MAX_FRAME_LEN && buf.len() >= 4 + len {
            assert((buf + more).subrange(4, 4 + len) =~= buf.subrange(4, 4 + len));
            assert((buf + more).skip(4 + len) =~= buf.skip(4 + len) + more);
        }
    }
}

/// The length goes first, in four bytes, the highest first; the packet follows
/// as it is.
pub proof fn law_length_goes_first(payload: Seq<u8>)
    requires
        payload.len() <= u32::MAX,
    ensures
        prefixed(payload).len() == 4 + payload.len(),
        prefixed(payload)[0] as nat * 0x100_0000 + prefixed(payload)[1] as nat * 0x1_0000
            + prefixed(payload)[2] as nat * 0x100 + prefixed(payload)[3] as nat == payload.len(),
        prefixed(payload).skip(4) == payload,
{
    reveal_with_fuel(be_bytes, 5);
    let n = payload.len();
    let bytes = be_bytes(n, 4);
    assert(bytes.len() == 4);
    assert(bytes[3] == (n % 256) as u8);
    assert(bytes[2] == (n / 256 % 256) as u8);
    assert(bytes[1] == (n / 256 / 256 % 256) as u8);
    assert(bytes[0] == (n / 256 / 256 / 256 % 256) as u8);
    assert(prefixed(payload).skip(4) =~= payload);
}

/// A packet is handed out once all of it is there and no sooner: its length
/// and as many bytes as that says, up to 89600; a longer one is refused as soon
/// as its length is known.
pub proof fn law_packet_waits_for_all_of_it(buf: Seq<u8>)
    requires
        buf.len() >= 4,
    ensures
        ({
            let n = buf[0] as nat * 0x100_0000 + buf[1] as nat * 0x1_0000 + buf[2] as nat * 0x100
                + buf[3] as nat;
            &&& n > 89_600 ==> front(buf) is Oversized
            &&& n <= 89_600 && buf.len() < 4 + n ==> front(buf) is Partial
            &&& n <= 89_600 && buf.len() >= 4 + n ==> front(buf) is Packet && front(
                buf,
            )->Packet_0.len() == n && buf == buf.take(4) + front(buf)->Packet_0 + front(
                buf,
            )->Packet_1
        }),
{
    reveal_with_fuel(be_value, 5);
    let head = buf.take(4);
    assert(head.drop_last().drop_last().drop_last().drop_last().len() == 0);
    assert(head.last() == buf[3]);
    assert(head.drop_last().last() == buf[2]);
    assert(head.drop_last().drop_last().last() == buf[1]);
    assert(head.drop_last().drop_last().drop_last().last() == buf[0]);
    let n = be_value(head) as int;
    if n <= 89_600 && buf.len() >= 4 + n {
        assert(buf =~= head + buf.subrange(4, 4 + n) + buf.skip(4 + n));
    }
}

/// A packet that has come in whole is handed out as it was sent, and what
/// came in behind it is kept. While it is not there more is read, and nothing
/// of what came in is given up.
pub proof fn law_whole_packets_are_handed_out(
    payload: Seq<u8>,
    rest: Seq<u8>,
    part: int,
    after: Seq<u8>,
    r: Result<RecvStep, TransportError>,
)
    requires
        payload.len() <= MAX_FRAME_LEN,
        0 <= part < prefixed(payload).len(),
    ensures
        step_after(prefixed(payload) + rest, after, r) ==> r is Ok && r->Ok_0 is Deliver
            && r->Ok_0->Deliver_0@ == payload && after == rest,
        step_after(prefixed(payload).take(part), after, r) ==> r is Ok && r->Ok_0 is Read && after
            == prefixed(payload).take(part),
{
    law_packet_round_trips(payload, rest);
    law_packet_round_trips(payload, Seq::empty());
    law_length_goes_first(payload);
    if part >= 4 {
        law_packet_waits_for_all_of_it(prefixed(payload).take(part));
        assert(prefixed(payload).take(part).take(4) =~= prefixed(payload).take(4));
    }
}

} // verus!
