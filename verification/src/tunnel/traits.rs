//! What every transport offers.
use vstd::prelude::*;

use crate::model::TransportKind;
use crate::reading::{Reading, ZERO};

verus! {

#[derive(Debug)]
pub enum TransportError {
    Handshake(String),
    Failed(String),
    Timeout,
    Closed,
    Unsupported,
    Io(String),
}

pub enum TransportErrorView {
    Handshake(Seq<char>),
    Failed(Seq<char>),
    Timeout,
    Closed,
    Unsupported,
    Io(Seq<char>),
}

impl View for TransportError {
    type V = TransportErrorView;

    open spec fn view(&self) -> TransportErrorView {
        match *self {
            TransportError::Handshake(s) => TransportErrorView::Handshake(s@),
            TransportError::Failed(s) => TransportErrorView::Failed(s@),
            TransportError::Timeout => TransportErrorView::Timeout,
            TransportError::Closed => TransportErrorView::Closed,
            TransportError::Unsupported => TransportErrorView::Unsupported,
            TransportError::Io(s) => TransportErrorView::Io(s@),
        }
    }
}

impl TransportErrorView {
    pub open spec fn message(self) -> Seq<char> {
        match self {
            TransportErrorView::Handshake(s) => "handshake failed: "@ + s,
            TransportErrorView::Failed(s) => "transport failed: "@ + s,
            TransportErrorView::Timeout => "timeout"@,
            TransportErrorView::Closed => "closed"@,
            TransportErrorView::Unsupported =>
                "unsupported in this build: transport feature not enabled"@,
            TransportErrorView::Io(s) => "io: "@ + s,
        }
    }
}

impl TransportError {
    pub fn message(&self) -> (r: String)
        ensures
            r@ == self@.message(),
    {
        match self {
            TransportError::Handshake(s) => prefixed("handshake failed: ", s.as_str()),
            TransportError::Failed(s) => prefixed("transport failed: ", s.as_str()),
            TransportError::Timeout => "timeout".to_owned(),
            TransportError::Closed => "closed".to_owned(),
            TransportError::Unsupported =>
                "unsupported in this build: transport feature not enabled".to_owned(),
            TransportError::Io(s) => prefixed("io: ", s.as_str()),
        }
    }
}

fn prefixed(prefix: &str, s: &str) -> (r: String)
    ensures
        r@ == prefix@ + s@,
{
    let mut r = prefix.to_owned();
    r.append(s);
    r
}

/// Bytes to be sent.
#[derive(Debug)]
pub struct PendingSend {
    pub bytes: Vec<u8>,
    /// Whether the bytes are of no use if they come late.
    pub latency_sensitive: bool,
}

/// Bytes that were received.
#[derive(Debug)]
pub struct RecvResult {
    pub bytes: Vec<u8>,
    /// Their number, where the transport counts.
    pub sequence: Option<u64>,
    pub received_at_ms: u64,
}

/// What a connection knows about itself. What was not measured is missing.
#[derive(Clone, Copy, Debug)]
pub struct ConnectionStats {
    pub rtt_ms: Option<Reading>,
    pub jitter_ms: Option<Reading>,
    pub loss_ratio: Option<Reading>,
    pub handshake_ms: Option<Reading>,
    pub reconnects: u64,
}

impl ConnectionStats {
    /// Nothing was measured.
    pub fn unmeasured() -> (r: ConnectionStats)
        ensures
            r == (ConnectionStats {
                rtt_ms: None,
                jitter_ms: None,
                loss_ratio: None,
                handshake_ms: None,
                reconnects: 0,
            }),
    {
        ConnectionStats {
            rtt_ms: None,
            jitter_ms: None,
            loss_ratio: None,
            handshake_ms: None,
            reconnects: 0,
        }
    }

    /// A stream loses nothing on the way; nothing else was measured.
    pub fn of_stream() -> (r: ConnectionStats)
        ensures
            r == (ConnectionStats {
                rtt_ms: None,
                jitter_ms: None,
                loss_ratio: Some(Reading { bits: ZERO }),
                handshake_ms: None,
                reconnects: 0,
            }),
    {
        ConnectionStats {
            rtt_ms: None,
            jitter_ms: None,
            loss_ratio: Some(Reading { bits: ZERO }),
            handshake_ms: None,
            reconnects: 0,
        }
    }
}

/// A connection over one of the transports.
pub trait Transport {
    fn kind(&self) -> TransportKind;

    fn connect(&mut self, endpoint: &str) -> Result<ConnectionStats, TransportError>;

    fn send(&mut self, frame: PendingSend) -> Result<(), TransportError>;

    /// One packet, if there is one.
    fn recv(&mut self) -> Result<Option<RecvResult>, TransportError>;

    fn note_failure(&mut self, detail: &str);

    fn note_success(&mut self);

    fn close(&mut self);
}

pub trait HasKeepalive {
    fn keepalive(&mut self) -> Result<(), TransportError>;
}

} // verus!
