//! Packets over QUIC streams.
use vstd::prelude::*;

use crate::tunnel::traits::{PendingSend, RecvResult};

verus! {

/// The bytes of a stream: a first byte that tells whether the packet is of no
/// use if it comes late, and the packet.
pub fn tagged(frame: PendingSend) -> (r: Vec<u8>)
    ensures
        r@ == seq![
            if frame.latency_sensitive {
                1u8
            } else {
                0u8
            },
        ] + frame.bytes@,
{
    let mut payload = frame.bytes;
    let mut buf: Vec<u8> = Vec::new();
    buf.push(
        if frame.latency_sensitive {
            1
        } else {
            0
        },
    );
    buf.append(&mut payload);
    assert(buf@ =~= seq![
        if frame.latency_sensitive {
            1u8
        } else {
            0u8
        },
    ] + frame.bytes@);
    buf
}

/// What was received, given how much of the buffer was filled; `None` where
/// the stream had ended or gave nothing.
pub fn received(buf: Vec<u8>, read: Option<usize>) -> (r: Option<RecvResult>)
    requires
        read is Some ==> read->Some_0 <= buf@.len(),
    ensures
        (match read {
            Some(n) => if n > 0 {
                r is Some && r->Some_0.bytes@ == buf@.take(n as int) && r->Some_0.sequence is None
                    && r->Some_0.received_at_ms == 0
            } else {
                r is None
            },
            None => r is None,
        }),
{
    match read {
        Some(n) => {
            if n > 0 {
                let mut bytes = buf;
                bytes.truncate(n);
                assert(bytes@ =~= buf@.take(n as int));
                Some(RecvResult { bytes, sequence: None, received_at_ms: 0 })
            } else {
                None
            }
        },
        None => None,
    }
}

} // verus!
