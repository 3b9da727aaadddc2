//! What the transports put on the wire and read from it.
//!
//! The sockets are elsewhere: these are the frames, and the state that a
//! connection keeps between one operation on its socket and the next.
pub mod kcp;
pub mod quic;
pub mod tcp;
pub mod traits;
pub mod udp;
pub mod ws;
