//! How packets are framed on each transport.
use radin::octets::{put_le, take_be, take_le, to_be};
use radin::reading::Reading;
use radin::tunnel::kcp::{KcpConfig, KcpSession};
use radin::tunnel::quic::{received, tagged};
use radin::tunnel::tcp::{frame, ReadOutcome, RecvStep, TcpTunnel, MAX_FRAME_LEN};
use radin::tunnel::traits::{ConnectionStats, PendingSend, TransportError};
use radin::tunnel::udp::{decode_frame, encode_frame, UdpTunnel, FLAG_KEEPALIVE, HEADER_LEN};
use radin::tunnel::ws::{packet_in, url, MessageEvent};
use radin::TransportKind;

fn f(x: Reading) -> f64 {
    f64::from_bits(x.bits)
}

#[test]
fn envelope_roundtrips_pure() {
    let frame = encode_frame(1, &[1, 2, 3], false);
    let (keepalive, seq, payload) = decode_frame(&frame).unwrap();
    assert!(!keepalive);
    assert_eq!(seq, 1);
    assert_eq!(payload, vec![1, 2, 3]);
}

#[test]
fn malformed_envelope_rejected() {
    assert!(UdpTunnel::decode(&[0]).is_none());
    assert!(UdpTunnel::decode(&[0x01, 1, 2, 3]).is_none());
}

#[test]
fn keepalive_flag_decodes() {
    let frame = [FLAG_KEEPALIVE, 1, 0, 0, 0, 0, 0, 0, 0];
    let (keepalive, seq, payload) = decode_frame(&frame).unwrap();
    assert!(keepalive);
    assert_eq!(seq, 1);
    assert!(payload.is_empty());
}

#[test]
fn sequence_numbers_are_little_endian() {
    let seq = 0x0102_0304_0506_0708;
    let bytes = encode_frame(seq, &[0xaa], true);
    assert_eq!(bytes, [1, 8, 7, 6, 5, 4, 3, 2, 1, 0xaa]);
    assert_eq!(decode_frame(&bytes), Some((true, seq, vec![0xaa])));
    assert_eq!(decode_frame(&bytes[..HEADER_LEN]), Some((true, seq, vec![])));
    assert_eq!(decode_frame(&bytes[..HEADER_LEN - 1]), None);
}

#[test]
fn a_datagram_goes_out_and_comes_back() {
    let mut client = UdpTunnel::opened();
    let sent = client.outgoing(&[7, 8, 9]).unwrap();
    let (keepalive, seq, payload) = decode_frame(&sent).unwrap();
    assert!(!keepalive);
    assert_eq!((seq, payload), (1, vec![7, 8, 9]));
    client.note_sent(sent.len());
    assert_eq!(client.tx_packets, 1);
    let reply = encode_frame(100, &[4, 5], false);
    let got = client.incoming(&reply, 5_000).unwrap().unwrap();
    assert_eq!(got, (100, vec![4, 5]));
    assert_eq!(client.time_since_last_rx(5_250), Some(250));
    client.note_timeout();
    let stats = client.health_snapshot();
    assert_eq!(stats.loss_ratio.map(f), Some(0.5));
    assert_eq!(client.kind(), TransportKind::Udp);
    client.close();
    assert!(matches!(client.outgoing(&[1]), Err(TransportError::Closed)));
}

#[test]
fn keepalives_are_not_packets() {
    let mut t = UdpTunnel::opened();
    assert_eq!(t.incoming(&encode_frame(3, &[], true), 10).unwrap(), None);
    assert_eq!(t.time_since_last_rx(12), Some(2));
    assert!(UdpTunnel::opened().time_since_last_rx(12).is_none());
}

#[test]
fn stream_frames_come_out_of_pieces() {
    let mut stream = frame(&[1, 2, 3]);
    assert_eq!(stream, [0, 0, 0, 3, 1, 2, 3]);
    stream.extend(frame(&[]));
    stream.extend(frame(&[9]));
    let mut t = TcpTunnel::opened();
    assert!(matches!(t.recv_frame(), Ok(RecvStep::Read)));
    let mut out: Vec<Vec<u8>> = Vec::new();
    for byte in stream {
        let mut step = t.after_read(ReadOutcome::Data(vec![byte])).unwrap();
        while let RecvStep::Deliver(p) = step {
            out.push(p);
            step = t.recv_frame().unwrap();
        }
    }
    assert_eq!(out, vec![vec![1, 2, 3], vec![], vec![9]]);
}

#[test]
fn stream_errors_are_told_apart() {
    let mut t = TcpTunnel::opened();
    assert!(matches!(t.after_read(ReadOutcome::TimedOut), Ok(RecvStep::Idle)));
    assert!(matches!(t.after_read(ReadOutcome::Data(vec![])), Err(TransportError::Closed)));
    let broken = ReadOutcome::Broken("reset".into());
    assert!(matches!(t.after_read(broken), Err(TransportError::Io(m)) if m == "reset"));
    let too_long = (MAX_FRAME_LEN as u32 + 1).to_be_bytes().to_vec();
    match t.after_read(ReadOutcome::Data(too_long)) {
        Err(TransportError::Failed(m)) => assert_eq!(m, "frame length out of range"),
        other => panic!("expected a refusal, got {other:?}"),
    }
}

#[test]
fn quic_packets_carry_their_urgency() {
    let send = |latency_sensitive| PendingSend { bytes: vec![5, 6], latency_sensitive };
    assert_eq!(tagged(send(true)), [1, 5, 6]);
    assert_eq!(tagged(send(false)), [0, 5, 6]);
    assert_eq!(received(vec![1, 2, 3, 0, 0], Some(3)).unwrap().bytes, [1, 2, 3]);
    assert!(received(vec![0; 8], Some(0)).is_none());
    assert!(received(vec![0; 8], None).is_none());
}

#[test]
fn only_binary_messages_are_packets() {
    assert_eq!(url("edge.example:443", "/tunnel"), "ws://edge.example:443/tunnel");
    assert_eq!(packet_in(MessageEvent::Binary(vec![1])).unwrap(), Some(vec![1]));
    assert_eq!(packet_in(MessageEvent::Other).unwrap(), None);
    assert!(matches!(packet_in(MessageEvent::Ended), Err(TransportError::Closed)));
    let broken = packet_in(MessageEvent::Broken("x".into()));
    assert!(matches!(broken, Err(TransportError::Failed(m)) if m == "x"));
}

#[test]
fn transport_errors_say_what_went_wrong() {
    let texts: Vec<String> = [
        TransportError::Handshake("a".into()),
        TransportError::Failed("b".into()),
        TransportError::Timeout,
        TransportError::Closed,
        TransportError::Unsupported,
        TransportError::Io("c".into()),
    ]
    .iter()
    .map(|e| e.message())
    .collect();
    for (i, a) in texts.iter().enumerate() {
        assert!(!a.is_empty());
        assert!(texts[i + 1..].iter().all(|b| a != b));
    }
    assert!(texts[0].ends_with("a") && texts[1].ends_with("b") && texts[5].ends_with("c"));
}

#[test]
fn nothing_is_measured_before_it_is() {
    let s = ConnectionStats::unmeasured();
    assert!(s.rtt_ms.is_none() && s.loss_ratio.is_none() && s.reconnects == 0);
}

#[test]
fn kcp_keeps_its_settings() {
    let session = KcpSession::open(KcpConfig::default());
    assert_eq!(session.config().mtu, KcpConfig::default().mtu);
    assert!(!session.is_measurement_ready());
    assert_eq!(session.version(), KcpSession::open(KcpConfig::default()).version());
}

#[test]
fn numbers_survive_as_bytes() {
    for x in [0u64, 1, 255, 256, 0x0102_0304_0506_0708, u64::MAX] {
        let mut out = vec![9];
        put_le(&mut out, x);
        assert_eq!(out[1..], x.to_le_bytes());
        assert_eq!(take_le(&out, 1), x);
    }
    for x in [0u32, 1, 0x0102_0304, u32::MAX] {
        assert_eq!(to_be(x), x.to_be_bytes());
        assert_eq!(take_be(&to_be(x)), x);
    }
}
