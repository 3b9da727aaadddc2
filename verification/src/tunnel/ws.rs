//! Packets as binary messages of a WebSocket.
use vstd::prelude::*;

use crate::tunnel::traits::{TransportError, TransportErrorView};

verus! {

/// The address of a WebSocket on the endpoint.
pub fn url(endpoint: &str, path: &str) -> (r: String)
    ensures
        r@ == "ws://"@ + endpoint@ + path@,
{
    let mut r = "ws://".to_owned();
    r.append(endpoint);
    r.append(path);
    r
}

/// What came over the WebSocket.
#[derive(Debug)]
pub enum MessageEvent {
    Binary(Vec<u8>),
    /// A ping, a text, or another message that is no packet.
    Other,
    Broken(String),
    Ended,
}

/// The packet in the message, if it is one.
pub fn packet_in(event: MessageEvent) -> (r: Result<Option<Vec<u8>>, TransportError>)
    ensures
        (match event {
            MessageEvent::Binary(data) => r is Ok && r->Ok_0 == Some(data),
            MessageEvent::Other => r is Ok && r->Ok_0 is None,
            MessageEvent::Broken(detail) => r is Err && r->Err_0@ == TransportErrorView::Failed(
                detail@,
            ),
            MessageEvent::Ended => r is Err && r->Err_0@ == TransportErrorView::Closed,
        }),
{
    match event {
        MessageEvent::Binary(data) => Ok(Some(data)),
        MessageEvent::Other => Ok(None),
        MessageEvent::Broken(detail) => Err(TransportError::Failed(detail)),
        MessageEvent::Ended => Err(TransportError::Closed),
    }
}

} // verus!
