//! Packets over UDP, numbered and never sent again.
//!
//! A frame is a byte of flags, the number of the packet in eight bytes, the
//! lowest first, and the packet. A frame without a packet keeps the
//! connection alive.
use vstd::prelude::*;

use crate::model::TransportKind;
use crate::octets::{le_bytes, le_value, lemma_le_round_trip, lemma_pow256, put_le, take_le};
use crate::ratio::{quotient, ratio};
use crate::reading::{Reading, ZERO};
use crate::tunnel::traits::{ConnectionStats, TransportError, TransportErrorView};

verus! {

pub const HEADER_LEN: usize = 9;

/// The lowest bit of the flags.
pub const FLAG_KEEPALIVE: u8 = 0x01;

pub open spec fn frame_bytes(seq: u64, payload: Seq<u8>, keepalive: bool) -> Seq<u8> {
    seq![
        if keepalive {
            FLAG_KEEPALIVE
        } else {
            0
        },
    ] + le_bytes(seq as nat, 8) + payload
}

/// What a frame says: whether it only keeps the connection alive, the number,
/// and the packet.
pub open spec fn frame_contents(buf: Seq<u8>) -> Option<(bool, u64, Seq<u8>)> {
    if buf.len() < HEADER_LEN {
        None
    } else {
        Some(
            (
                buf[0] % 2 == 1,
                le_value(buf.subrange(1, 9)) as u64,
                buf.skip(HEADER_LEN as int),
            ),
        )
    }
}

pub fn encode_frame(seq: u64, payload: &[u8], keepalive: bool) -> (r: Vec<u8>)
    ensures
        r@ == frame_bytes(seq, payload@, keepalive),
{
    let mut buf: Vec<u8> = Vec::new();
    buf.push(
        if keepalive {
            FLAG_KEEPALIVE
        } else {
            0
        },
    );
    put_le(&mut buf, seq);
    buf.extend_from_slice(payload);
    assert(buf@ =~= frame_bytes(seq, payload@, keepalive));
    buf
}

pub fn decode_frame(buf: &[u8]) -> (r: Option<(bool, u64, Vec<u8>)>)
    ensures
        (match r {
            Some((keepalive, seq, payload)) => frame_contents(buf@) == Some(
                (keepalive, seq, payload@),
            ),
            None => frame_contents(buf@) is None,
        }),
{
    if buf.len() < HEADER_LEN {
        return None;
    }
    let keepalive = buf[0] % 2 == 1;
    let seq: u64 = take_le(buf, 1);
    let mut payload: Vec<u8> = Vec::new();
    payload.extend_from_slice(vstd::slice::slice_subrange(buf, HEADER_LEN, buf.len()));
    assert(payload@ =~= buf@.skip(HEADER_LEN as int));
    Some((keepalive, seq, payload))
}

/// What is framed comes out of the frame.
pub proof fn law_frame_round_trips(seq: u64, payload: Seq<u8>, keepalive: bool)
    ensures
        frame_contents(frame_bytes(seq, payload, keepalive)) == Some((keepalive, seq, payload)),
{
    lemma_pow256();
    lemma_le_round_trip(seq as nat, 8);
    let buf = frame_bytes(seq, payload, keepalive);
    assert(buf.subrange(1, 9) =~= le_bytes(seq as nat, 8));
    assert(buf.skip(9) =~= payload);
}

/// What is kept about a connection, besides its socket.
#[derive(Clone, Copy, Debug)]
pub struct UdpTunnel {
    /// The number of the next packet.
    pub next_tx_seq: u64,
    /// When something last came in.
    pub last_rx_ms: Option<u64>,
    pub last_rx_seq: Option<u64>,
    pub tx_packets: u64,
    pub rx_packets: u64,
    pub timeouts: u64,
    pub connected: bool,
}

impl UdpTunnel {
    pub fn opened() -> (r: UdpTunnel)
        ensures
            r == (UdpTunnel {
                next_tx_seq: 1,
                last_rx_ms: None,
                last_rx_seq: None,
                tx_packets: 0,
                rx_packets: 0,
                timeouts: 0,
                connected: true,
            }),
    {
        UdpTunnel {
            next_tx_seq: 1,
            last_rx_ms: None,
            last_rx_seq: None,
            tx_packets: 0,
            rx_packets: 0,
            timeouts: 0,
            connected: true,
        }
    }

    pub fn encode(&self, payload: &[u8], keepalive: bool) -> (r: Vec<u8>)
        ensures
            r@ == frame_bytes(self.next_tx_seq, payload@, keepalive),
    {
        encode_frame(self.next_tx_seq, payload, keepalive)
    }

    pub fn decode(buf: &[u8]) -> (r: Option<(bool, u64, Vec<u8>)>)
        ensures
            (match r {
                Some((keepalive, seq, payload)) => frame_contents(buf@) == Some(
                    (keepalive, seq, payload@),
                ),
                None => frame_contents(buf@) is None,
            }),
    {
        decode_frame(buf)
    }

    /// The frame to send for the packet; an empty packet keeps the connection
    /// alive.
    pub fn outgoing(&self, payload: &[u8]) -> (r: Result<Vec<u8>, TransportError>)
        ensures
            (match r {
                Ok(frame) => self.connected && frame@ == frame_bytes(
                    self.next_tx_seq,
                    payload@,
                    payload@.len() == 0,
                ),
                Err(e) => !self.connected && e@ == TransportErrorView::Closed,
            }),
    {
        if !self.connected {
            return Err(TransportError::Closed);
        }
        Ok(self.encode(payload, payload.len() == 0))
    }

    /// The socket took so many bytes of the frame.
    pub fn note_sent(&mut self, sent: usize)
        requires
            old(self).tx_packets < u64::MAX,
        ensures
            *final(self) == (if sent > 0 {
                UdpTunnel {
                    next_tx_seq: old(self).next_tx_seq.wrapping_add(1),
                    tx_packets: (old(self).tx_packets + 1) as u64,
                    ..*old(self)
                }
            } else {
                *old(self)
            }),
    {
        if sent > 0 {
            self.next_tx_seq = self.next_tx_seq.wrapping_add(1);
            self.tx_packets = self.tx_packets + 1;
        }
    }

    /// A frame came in: its number and its packet, nothing for one that keeps
    /// the connection alive.
    pub fn incoming(&mut self, buf: &[u8], now_ms: u64) -> (r: Result<
        Option<(u64, Vec<u8>)>,
        TransportError,
    >)
        requires
            old(self).rx_packets < u64::MAX,
        ensures
            (match frame_contents(buf@) {
                None => r is Err && r->Err_0@ == TransportErrorView::Failed("malformed envelope"@)
                    && *final(self) == *old(self),
                Some((keepalive, seq, payload)) => {
                    &&& r is Ok
                    &&& keepalive ==> r->Ok_0 is None
                    &&& !keepalive ==> r->Ok_0 is Some && r->Ok_0->Some_0.0 == seq
                        && r->Ok_0->Some_0.1@ == payload
                    &&& *final(self) == UdpTunnel {
                        last_rx_ms: Some(now_ms),
                        last_rx_seq: Some(seq),
                        rx_packets: (old(self).rx_packets + 1) as u64,
                        ..*old(self)
                    }
                },
            }),
    {
        match UdpTunnel::decode(buf) {
            None => Err(TransportError::Failed("malformed envelope".to_owned())),
            Some((keepalive, seq, payload)) => {
                self.last_rx_ms = Some(now_ms);
                self.last_rx_seq = Some(seq);
                self.rx_packets = self.rx_packets + 1;
                if keepalive {
                    Ok(None)
                } else {
                    Ok(Some((seq, payload)))
                }
            },
        }
    }

    /// Nothing came in within the time allowed.
    pub fn note_timeout(&mut self)
        requires
            old(self).timeouts < u64::MAX,
        ensures
            *final(self) == (UdpTunnel {
                timeouts: (old(self).timeouts + 1) as u64,
                ..*old(self)
            }),
    {
        self.timeouts = self.timeouts + 1;
    }

    /// How long ago something last came in, in milliseconds.
    pub fn time_since_last_rx(&self, now_ms: u64) -> (r: Option<u64>)
        ensures
            r == (match self.last_rx_ms {
                Some(at) => Some(
                    if now_ms >= at {
                        (now_ms - at) as u64
                    } else {
                        0
                    },
                ),
                None => None::<u64>,
            }),
    {
        match self.last_rx_ms {
            Some(at) => Some(now_ms.saturating_sub(at)),
            None => None,
        }
    }

    /// The share of waits that were in vain stands for the loss; the round
    /// trip is measured elsewhere.
    pub fn health_snapshot(&self) -> (r: ConnectionStats)
        requires
            self.rx_packets + self.timeouts <= u64::MAX,
        ensures
            r == (ConnectionStats {
                rtt_ms: None,
                jitter_ms: None,
                loss_ratio: if self.rx_packets + self.timeouts == 0 {
                    None
                } else {
                    Some(quotient(self.timeouts, (self.rx_packets + self.timeouts) as u64))
                },
                handshake_ms: Some(Reading { bits: ZERO }),
                reconnects: 0,
            }),
    {
        let waits: u64 = self.rx_packets + self.timeouts;
        let outage = if waits == 0 {
            None
        } else {
            Some(ratio(self.timeouts, waits))
        };
        ConnectionStats {
            rtt_ms: None,
            jitter_ms: None,
            loss_ratio: outage,
            handshake_ms: Some(Reading { bits: ZERO }),
            reconnects: 0,
        }
    }

    pub fn kind(&self) -> (r: TransportKind)
        ensures
            r == TransportKind::Udp,
    {
        TransportKind::Udp
    }

    /// A failure closes the connection.
    pub fn note_failure(&mut self)
        ensures
            *final(self) == (UdpTunnel { connected: false, ..*old(self) }),
    {
        self.connected = false;
    }

    /// A success opens it again.
    pub fn note_success(&mut self)
        ensures
            *final(self) == (UdpTunnel { connected: true, ..*old(self) }),
    {
        self.connected = true;
    }

    pub fn close(&mut self)
        ensures
            *final(self) == (UdpTunnel { connected: false, ..*old(self) }),
    {
        self.connected = false;
    }
}

/// A frame is a byte of flags, the number of the packet in eight bytes, the
/// lowest first, and the packet as it is; only a frame that keeps the
/// connection alive has the lowest flag.
pub proof fn law_frame_is_flags_number_packet(seq: u64, payload: Seq<u8>, keepalive: bool)
    ensures
        ({
            let f = frame_bytes(seq, payload, keepalive);
            &&& f.len() == 9 + payload.len()
            &&& f[0] == (if keepalive {
                1u8
            } else {
                0u8
            })
            &&& f.skip(9) == payload
            &&& seq < 256 ==> f[1] == seq as u8 && f[2] == 0 && f[8] == 0
            &&& seq as nat == f[1] as nat + 256 * le_value(f.subrange(2, 9))
        }),
{
    law_frame_round_trips(seq, payload, keepalive);
    lemma_pow256();
    lemma_le_round_trip(seq as nat, 8);
    let f = frame_bytes(seq, payload, keepalive);
    assert(f.skip(9) =~= payload);
    assert(f.subrange(1, 9) =~= le_bytes(seq as nat, 8));
    assert(f.subrange(1, 9).drop_first() =~= f.subrange(2, 9));
    assert(f.subrange(1, 9)[0] == f[1]);
    reveal_with_fuel(le_bytes, 9);
    if seq < 256 {
        let b = le_bytes(seq as nat, 8);
        assert(b[0] == (seq % 256) as u8);
        assert(b[1] == 0 && b[7] == 0);
        assert(f[2] == f.subrange(1, 9)[1] && f[8] == f.subrange(1, 9)[7]);
    }
}

/// Whatever is too short for a header is no frame, and everything else is one.
pub proof fn law_short_frames_are_refused(buf: Seq<u8>)
    ensures
        frame_contents(buf) is None <==> buf.len() < 9,
{
}

} // verus!
