//! What crosses the boundary to callers in other languages: codes, and
//! blocks of bytes.
use vstd::prelude::*;

use crate::model::{NetworkType, TransportKind, VpnState};
use crate::octets::{le_value, pow256};

verus! {

pub const ERR_OK: i32 = 0;

pub const ERR_NULL: i32 = -1;

pub const ERR_PARSE: i32 = -2;

pub const ERR_BAD_TRANSPORT: i32 = -3;

pub const ERR_PANIC: i32 = -4;

pub open spec fn code_of(kind: TransportKind) -> i32 {
    match kind {
        TransportKind::Quic => 0,
        TransportKind::Udp => 1,
        TransportKind::TcpTls => 2,
        TransportKind::Http2 => 3,
        TransportKind::WebSocketTls => 4,
        TransportKind::Direct => 5,
    }
}

/// The transport with the code; no other code stands for one.
pub fn transport_kind(v: i32) -> (r: Option<TransportKind>)
    ensures
        (match r {
            Some(kind) => code_of(kind) == v,
            None => v < 0 || v > 5,
        }),
{
    match v {
        0 => Some(TransportKind::Quic),
        1 => Some(TransportKind::Udp),
        2 => Some(TransportKind::TcpTls),
        3 => Some(TransportKind::Http2),
        4 => Some(TransportKind::WebSocketTls),
        5 => Some(TransportKind::Direct),
        _ => None,
    }
}

pub fn transport_int(t: TransportKind) -> (r: i32)
    ensures
        r == code_of(t),
{
    match t {
        TransportKind::Quic => 0,
        TransportKind::Udp => 1,
        TransportKind::TcpTls => 2,
        TransportKind::Http2 => 3,
        TransportKind::WebSocketTls => 4,
        TransportKind::Direct => 5,
    }
}

/// The network type with the code; any other code is unknown.
pub fn network_type(code: i32) -> (r: NetworkType)
    ensures
        r == (if code == 0 {
            NetworkType::Wifi
        } else if code == 1 {
            NetworkType::FiveG
        } else if code == 2 {
            NetworkType::FourG
        } else if code == 3 {
            NetworkType::ThreeG
        } else if code == 4 {
            NetworkType::Ethernet
        } else {
            NetworkType::Unknown
        }),
{
    match code {
        0 => NetworkType::Wifi,
        1 => NetworkType::FiveG,
        2 => NetworkType::FourG,
        3 => NetworkType::ThreeG,
        4 => NetworkType::Ethernet,
        _ => NetworkType::Unknown,
    }
}

/// The state of the VPN with the code; any other code is disconnected.
pub fn vpn_state(code: i32) -> (r: VpnState)
    ensures
        r == (if code == 1 {
            VpnState::Connecting
        } else if code == 2 {
            VpnState::Connected
        } else {
            VpnState::Disconnected
        }),
{
    match code {
        1 => VpnState::Connecting,
        2 => VpnState::Connected,
        _ => VpnState::Disconnected,
    }
}

/// The message kept for the caller.
pub fn error_text(prefix: &str, detail: &str) -> (r: String)
    ensures
        r@ == prefix@ + ": "@ + detail@,
{
    let mut r = prefix.to_owned();
    r.append(": ");
    r.append(detail);
    r
}

/// As much of the message as fits into a buffer with its closing zero byte,
/// with that byte; nothing fits into an empty buffer.
pub fn error_bytes(message: &[u8], capacity: usize) -> (r: Vec<u8>)
    ensures
        capacity == 0 ==> r@.len() == 0,
        capacity > 0 ==> r@ == message@.take(
            if message@.len() < capacity {
                message@.len() as int
            } else {
                capacity - 1
            },
        ).push(0),
        r@.len() <= capacity,
{
    let mut r: Vec<u8> = Vec::new();
    if capacity == 0 {
        return r;
    }
    let n: usize = if message.len() < capacity {
        message.len()
    } else {
        capacity - 1
    };
    r.extend_from_slice(vstd::slice::slice_subrange(message, 0, n));
    assert(r@ =~= message@.take(n as int));
    r.push(0);
    r
}

/// The four bytes of a length, the lowest first.
pub open spec fn length_bytes(n: nat) -> Seq<u8> {
    crate::octets::le_bytes(n, 4)
}

/// A block for text that the caller gives back: the length of the text with
/// its closing zero byte, the text, and that byte.
pub fn text_block(text: &[u8]) -> (r: Vec<u8>)
    requires
        text@.len() < u32::MAX,
    ensures
        r@ == length_bytes(text@.len() + 1) + text@.push(0),
{
    let len: u32 = text.len() as u32 + 1;
    let a: u32 = len / 256;
    let b: u32 = a / 256;
    let c: u32 = b / 256;
    let mut r: Vec<u8> = Vec::new();
    r.push((len % 256) as u8);
    r.push((a % 256) as u8);
    r.push((b % 256) as u8);
    r.push((c % 256) as u8);
    proof {
        reveal_with_fuel(crate::octets::le_bytes, 5);
        assert(r@ =~= length_bytes(text@.len() + 1));
    }
    r.extend_from_slice(text);
    r.push(0);
    assert(r@ =~= length_bytes(text@.len() + 1) + text@.push(0));
    r
}

/// How long a block is, given the four bytes at its start.
pub fn block_len(header: &[u8]) -> (r: u64)
    requires
        header@.len() == 4,
    ensures
        r == 4 + le_value(header@),
{
    proof {
        reveal_with_fuel(le_value, 5);
        assert(header@.drop_first().len() == 3);
        assert(header@.drop_first().drop_first().len() == 2);
        assert(header@.drop_first().drop_first().drop_first().len() == 1);
        assert(header@.drop_first().drop_first().drop_first().drop_first().len() == 0);
    }
    4 + (header[0] as u64 + 256 * (header[1] as u64 + 256 * (header[2] as u64 + 256 * (
    header[3] as u64))))
}

/// The length at the start of a block is that of the block: giving a block
/// back frees all of it.
pub proof fn law_blocks_are_freed_whole(text: Seq<u8>)
    requires
        text.len() < u32::MAX,
    ensures
        ({
            let block = length_bytes(text.len() + 1) + text.push(0);
            &&& block.len() == 4 + le_value(block.take(4))
            &&& block.subrange(4, 4 + text.len() as int) == text
            &&& block.last() == 0
        }),
{
    crate::octets::lemma_pow256();
    assert(text.len() + 1 < pow256(4));
    crate::octets::lemma_le_round_trip(text.len() + 1, 4);
    let block = length_bytes(text.len() + 1) + text.push(0);
    assert(block.take(4) =~= length_bytes(text.len() + 1));
    assert(block.subrange(4, 4 + text.len() as int) =~= text);
}

/// Each transport has its own code.
pub proof fn law_codes_are_distinct(a: TransportKind, b: TransportKind)
    requires
        code_of(a) == code_of(b),
    ensures
        a == b,
{
}

/// The code of a transport is its place in the order of fallback.
pub proof fn law_codes_follow_the_fallback_order(kind: TransportKind)
    ensures
        0 <= code_of(kind) < crate::model::fallback_order().len(),
        crate::model::fallback_order()[code_of(kind) as int] == kind,
{
}

} // verus!
