//! Headers, payloads and envelopes, held against the encodings of `bincode`.

use std::collections::HashMap;
use std::time::{Duration as StdDuration, UNIX_EPOCH};

use hivebus::addr::{IpAddr, Ipv4Addr, Ipv6Addr, SocketAddr};
use hivebus::clock::Timestamp;
use hivebus::control::{
    decode_control, encode_control, payload_len, read_request, try_encode_control,
    unknown_tag_reply, ControlOp, ControlReply, EnvelopeError, Request, CONTROL_FRAME_MARKER,
    MAX_CONTROL_PAYLOAD, SOCKET_DIR,
};
use hivebus::frame::{
    encode_frame, next_seq, FrameHeader, MsgType, DISCOVERY_PORT, FRAME_MAGIC, MULTICAST_ADDR,
};
use hivebus::mac::node_id_from_mac;
use hivebus::node::{NodeInfo, NodeState};
use hivebus::payload::{
    AnnouncePayload, GossipEntry, GossipPayload, HeartbeatPayload, LeavePayload, VoteGrantPayload,
    VoteRequestPayload,
};
use hivebus::table::Table;
use hivebus::wire::{from_slice, to_vec};

fn bin<T: serde::Serialize>(v: T) -> Vec<u8> {
    bincode::serde::encode_to_vec(v, bincode::config::standard()).unwrap()
}

fn refusal<T: serde::de::DeserializeOwned>(b: &[u8]) -> String {
    let r: Result<(T, usize), bincode::error::DecodeError> =
        bincode::serde::decode_from_slice(b, bincode::config::standard());
    match r {
        Ok(_) => panic!("not refused"),
        Err(e) => e.to_string(),
    }
}

fn v4(a: u8, b: u8, c: u8, d: u8, port: u16) -> SocketAddr {
    SocketAddr { ip: IpAddr::V4(Ipv4Addr::new(a, b, c, d)), port }
}

fn node(id: u16) -> NodeInfo {
    NodeInfo {
        node_id: id,
        hostname: "näme".to_string(),
        control_addr: v4(10, 42, 0, 11, 7778),
        state: NodeState::Suspect,
        incarnation: 70_000,
        last_seen: Timestamp { secs: 5_000_000_000, nanos: 123_456_789 },
        is_master: true,
    }
}

fn node_bytes(id: u16) -> Vec<u8> {
    let addr = (0u32, [10u8, 42, 0, 11], 7778u16);
    let seen = UNIX_EPOCH + StdDuration::new(5_000_000_000, 123_456_789);
    bin((id, "näme", addr, 1u32, 70_000u32, seen, true))
}

#[test]
fn frame_header_round_trip() {
    let h = FrameHeader::new(MsgType::Announce, 7, 0xBEEF);
    let b = h.to_bytes();
    let h2 = FrameHeader::from_bytes(&b).unwrap();
    assert_eq!(h2.magic, FRAME_MAGIC);
    assert_eq!(h2.msg_type(), Some(MsgType::Announce));
    assert_eq!(h2.seq(), 7);
    assert_eq!(h2.node_id(), 0xBEEF);
}

#[test]
fn node_id_from_mac_stable() {
    let mac = [0x00, 0x11, 0x22, 0x33, 0x44, 0x55];
    assert_eq!(node_id_from_mac(&mac), node_id_from_mac(&mac));
}

#[test]
fn header_bytes_are_exact() {
    assert_eq!(FrameHeader::new(MsgType::Announce, 7, 0xBEEF).to_bytes(), [0xCA, 0x17, 0xBE, 0xEF]);
    // The sequence number keeps its low half only.
    assert_eq!(FrameHeader::new(MsgType::VoteGrant, 0xF3, 2).to_bytes(), [0xCA, 0x63, 0, 2]);
    assert_eq!(DISCOVERY_PORT, 7777);
    assert_eq!(MULTICAST_ADDR, "224.0.133.7");
}

#[test]
fn headers_that_are_refused() {
    assert!(FrameHeader::from_bytes(&[0xCA, 0, 0]).is_none());
    assert!(FrameHeader::from_bytes(&[0xCB, 0, 0, 1]).is_none());
    assert!(FrameHeader::from_bytes(&[]).is_none());
    let h = FrameHeader::from_bytes(&[0xCA, 0x70, 0, 1, 9]).unwrap();
    assert_eq!(h.msg_type(), None);
}

#[test]
fn message_type_numbers() {
    let all = [
        MsgType::Heartbeat,
        MsgType::Announce,
        MsgType::Leave,
        MsgType::Ack,
        MsgType::Gossip,
        MsgType::VoteRequest,
        MsgType::VoteGrant,
    ];
    for (i, t) in all.iter().enumerate() {
        assert_eq!(t.code() as usize, i);
        assert_eq!(*t as u8, t.code());
        assert_eq!(MsgType::from_u8(i as u8), Some(*t));
    }
    assert_eq!(MsgType::from_u8(7), None);
    assert_eq!(MsgType::from_u8(255), None);
}

#[test]
fn sequence_numbers_roll() {
    assert_eq!(next_seq(0), 1);
    assert_eq!(next_seq(14), 15);
    assert_eq!(next_seq(15), 0);
    assert_eq!(next_seq(255), 0);
}

#[test]
fn integers_on_the_wire() {
    for v in [0u64, 1, 250, 251, 255, 256, 65535, 65536, 0xffff_ffff, 0x1_0000_0000, u64::MAX] {
        assert_eq!(to_vec(&v), bin(v));
        assert_eq!(from_slice::<u64>(&bin(v)), Ok(v));
    }
    for v in [0u32, 250, 251, 65535, 65536, u32::MAX] {
        assert_eq!(to_vec(&v), bin(v));
        assert_eq!(from_slice::<u32>(&bin(v)), Ok(v));
    }
    for v in [0u16, 250, 251, u16::MAX] {
        assert_eq!(to_vec(&v), bin(v));
        assert_eq!(from_slice::<u16>(&bin(v)), Ok(v));
    }
    assert_eq!(to_vec(&7u8), bin(7u8));
    assert_eq!(to_vec(&true), bin(true));
    assert_eq!(from_slice::<bool>(&[0]), Ok(false));
    assert_eq!(to_vec(&300u16), vec![251, 44, 1]);
}

#[test]
fn integers_that_are_refused() {
    for b in [&[][..], &[251], &[251, 1], &[252, 1, 2, 3, 4], &[254], &[255]] {
        assert_eq!(from_slice::<u16>(b), Err(refusal::<u16>(b)));
    }
    for b in [&[][..], &[252, 1, 2], &[253, 1, 2, 3, 4, 5, 6, 7, 8], &[254], &[255]] {
        assert_eq!(from_slice::<u32>(b), Err(refusal::<u32>(b)));
    }
    for b in [&[][..], &[253, 1], &[254], &[255]] {
        assert_eq!(from_slice::<u64>(b), Err(refusal::<u64>(b)));
    }
    assert_eq!(from_slice::<u8>(&[]), Err(refusal::<u8>(&[])));
    assert_eq!(from_slice::<bool>(&[]), Err(refusal::<bool>(&[])));
    assert_eq!(from_slice::<bool>(&[2]), Err(refusal::<bool>(&[2])));
}

#[test]
fn texts_on_the_wire() {
    for s in ["", "node1", "näme", "日本", &"x".repeat(300)] {
        let owned = s.to_string();
        assert_eq!(to_vec(&owned), bin(s));
        assert_eq!(from_slice::<String>(&bin(s)), Ok(owned));
    }
}

#[test]
fn texts_that_are_refused() {
    for b in [&[][..], &[5, 65], &[1, 0xff], &[2, 0xc3, 0x28], &[251, 0], &[255]] {
        assert_eq!(from_slice::<String>(b), Err(refusal::<String>(b)));
    }
    // A length far beyond the input.
    let b = [253, 255, 255, 255, 255, 255, 255, 255, 127, 65];
    assert!(from_slice::<String>(&b).is_err());
}

#[test]
fn sequences_options_pairs_and_arrays() {
    let v = vec![1u16, 300, 65535];
    assert_eq!(to_vec(&v), bin(&v));
    assert_eq!(from_slice::<Vec<u16>>(&bin(&v)), Ok(v));
    assert_eq!(from_slice::<Vec<u16>>(&[2, 1]), Err(refusal::<Vec<u16>>(&[2, 1])));
    assert_eq!(from_slice::<Vec<u8>>(&[2, 1]), Err(refusal::<Vec<u8>>(&[2, 1])));
    assert_eq!(from_slice::<Vec<u8>>(&[]), Err(refusal::<Vec<u8>>(&[])));
    assert_eq!(to_vec(&Some(300u16)), bin(Some(300u16)));
    assert_eq!(to_vec(&None::<u16>), bin(None::<u16>));
    assert_eq!(from_slice::<Option<u16>>(&[1, 9]), Ok(Some(9)));
    assert_eq!(from_slice::<Option<u16>>(&[0, 9]), Ok(None));
    assert_eq!(from_slice::<Option<u16>>(&[2]), Err(refusal::<Option<u16>>(&[2])));
    assert_eq!(from_slice::<Option<u16>>(&[]), Err(refusal::<Option<u16>>(&[])));
    assert_eq!(from_slice::<Option<u16>>(&[1]), Err(refusal::<Option<u16>>(&[1])));
    assert_eq!(to_vec(&(7u8, "a".to_string())), bin((7u8, "a")));
    assert_eq!(to_vec(&[1u8, 2, 3, 4, 5, 6]), bin([1u8, 2, 3, 4, 5, 6]));
    assert_eq!(from_slice::<[u8; 6]>(&[1, 2, 3, 4, 5, 6, 7]), Ok([1, 2, 3, 4, 5, 6]));
    assert_eq!(from_slice::<[u8; 6]>(&[1, 2]), Err(refusal::<[u8; 6]>(&[1, 2])));
}

#[test]
fn tables_on_the_wire() {
    let mut t: Table<String, String> = Table::new();
    t.insert("k".to_string(), "v".to_string());
    let mut m = HashMap::new();
    m.insert("k", "v");
    assert_eq!(to_vec(&t), bin(&m));
    // The later value holds where a key comes twice.
    let twice = bin(vec![("a", "1"), ("b", "2"), ("a", "3")]);
    let (real, _): (HashMap<String, String>, usize) =
        bincode::serde::decode_from_slice(&twice, bincode::config::standard()).unwrap();
    let read = from_slice::<Table<String, String>>(&twice).unwrap();
    assert_eq!(read.rows().len(), real.len());
    assert_eq!(read.get(&"a".to_string()), real.get("a"));
    assert_eq!(read.get(&"b".to_string()), real.get("b"));
    assert_eq!(read.get(&"c".to_string()), None);
}

#[test]
fn addresses_on_the_wire() {
    let o4 = [10u8, 42, 0, 11];
    let o6 = [0x20u8, 0x01, 0x0d, 0xb8, 0, 0, 0, 0, 0, 0, 0, 0, 0, 0, 0, 1];
    let a4 = IpAddr::V4(Ipv4Addr::new(10, 42, 0, 11));
    let a6 = IpAddr::V6(Ipv6Addr { bits: u128::from_be_bytes(o6) });
    assert_eq!(to_vec(&Ipv4Addr::new(10, 42, 0, 11)), bin(o4));
    assert_eq!(to_vec(&a4), bin((0u32, o4)));
    assert_eq!(to_vec(&a6), bin((1u32, o6)));
    assert_eq!(from_slice::<IpAddr>(&bin((1u32, o6))), Ok(a6));
    assert_eq!(from_slice::<IpAddr>(&bin((0u32, o4))), Ok(a4));
    let s4 = SocketAddr { ip: a4, port: 7778 };
    let s6 = SocketAddr { ip: a6, port: 1 };
    assert_eq!(to_vec(&s4), bin((0u32, o4, 7778u16)));
    assert_eq!(to_vec(&s6), bin((1u32, o6, 1u16)));
    assert_eq!(from_slice::<SocketAddr>(&to_vec(&s6)), Ok(s6));
    for b in [&[][..], &[0, 1, 2], &[0, 1, 2, 3, 4, 251]] {
        assert_eq!(from_slice::<SocketAddr>(b), Err(refusal::<(u32, [u8; 4], u16)>(b)));
    }
    assert_eq!(from_slice::<SocketAddr>(&[1, 1]), Err(refusal::<(u32, [u8; 16], u16)>(&[1, 1])));
    // The wording is that of serde's own enumerations.
    let real = refusal::<Result<u8, u8>>(&[2]).replace("`Ok` or `Err`", "`V4` or `V6`");
    assert_eq!(from_slice::<IpAddr>(&[2]), Err(real.clone()));
    assert_eq!(from_slice::<SocketAddr>(&[2]), Err(real));
}

#[test]
fn octets_of_an_address() {
    let a = Ipv4Addr::new(255, 255, 255, 0);
    assert_eq!(a.bits, 0xffff_ff00);
    assert_eq!(a.octets(), vec![255, 255, 255, 0]);
}

#[test]
fn times_on_the_wire() {
    let t = Timestamp { secs: 1_700_000_000, nanos: 999_999_999 };
    let real = UNIX_EPOCH + StdDuration::new(1_700_000_000, 999_999_999);
    assert_eq!(to_vec(&t), bin(real));
    assert_eq!(from_slice::<Timestamp>(&bin(real)), Ok(t));
    // More than a second of nanoseconds is carried over.
    let odd = bin((7u64, 2_500_000_000u32));
    assert_eq!(from_slice::<Timestamp>(&odd), Ok(Timestamp { secs: 9, nanos: 500_000_000 }));
    let (real, _): (std::time::SystemTime, usize) =
        bincode::serde::decode_from_slice(&odd, bincode::config::standard()).unwrap();
    assert_eq!(real, UNIX_EPOCH + StdDuration::new(9, 500_000_000));
    for b in [
        bin((u64::MAX, 1_000_000_000u32)),
        bin((u64::MAX, 0u32)),
        bin((i64::MAX as u64, 1_000_000_000u32)),
        bin((5u64,)),
    ] {
        assert_eq!(from_slice::<Timestamp>(&b), Err(refusal::<std::time::SystemTime>(&b)));
    }
}

#[test]
fn payloads_on_the_wire() {
    let hb = HeartbeatPayload { incarnation: 70_000, epoch_ms: 1_700_000_000_000 };
    assert_eq!(to_vec(&hb), bin((70_000u32, 1_700_000_000_000u64)));
    assert_eq!(from_slice::<HeartbeatPayload>(&to_vec(&hb)), Ok(hb));
    let an = AnnouncePayload {
        incarnation: 3,
        hostname: "node1".to_string(),
        control_addr: v4(10, 42, 0, 11, 7778),
        version: "0.1.0".to_string(),
    };
    let addr = (0u32, [10u8, 42, 0, 11], 7778u16);
    assert_eq!(to_vec(&an), bin((3u32, "node1", addr, "0.1.0")));
    let back = from_slice::<AnnouncePayload>(&to_vec(&an)).unwrap();
    assert_eq!(back.hostname, "node1");
    assert_eq!(back.control_addr, v4(10, 42, 0, 11, 7778));
    let lv = LeavePayload { incarnation: 3, reason: "bye".to_string() };
    assert_eq!(to_vec(&lv), bin((3u32, "bye")));
    assert_eq!(from_slice::<LeavePayload>(&to_vec(&lv)).unwrap().reason, "bye");
    let e = GossipEntry { node_id: 300, incarnation: 1, state: NodeState::Dead, epoch_ms: 2 };
    let go = GossipPayload { entries: vec![e, e] };
    assert_eq!(to_vec(&go), bin(vec![(300u16, 1u32, 2u32, 2u64), (300, 1, 2, 2)]));
    assert_eq!(from_slice::<GossipPayload>(&to_vec(&go)).unwrap().entries, vec![e, e]);
    let vr = VoteRequestPayload { term: 1, candidate_id: 2, last_log_index: 3, last_log_term: 4 };
    assert_eq!(to_vec(&vr), bin((1u64, 2u16, 3u64, 4u64)));
    assert_eq!(from_slice::<VoteRequestPayload>(&to_vec(&vr)), Ok(vr));
    let vg = VoteGrantPayload { term: 9, granted: true };
    assert_eq!(to_vec(&vg), bin((9u64, true)));
    assert_eq!(from_slice::<VoteGrantPayload>(&to_vec(&vg)), Ok(vg));
}

#[test]
fn nodes_on_the_wire() {
    assert_eq!(to_vec(&node(9)), node_bytes(9));
    let back = from_slice::<NodeInfo>(&node_bytes(9)).unwrap();
    assert_eq!(to_vec(&back), node_bytes(9));
    assert_eq!(back.state, NodeState::Suspect);
    let bad = from_slice::<NodeState>(&[3]).unwrap_err();
    assert!(bad.contains("variant index 0 <= i < 3"), "{}", bad);
}

#[test]
fn requests_on_the_wire() {
    assert_eq!(to_vec(&ControlOp::Ping), vec![0]);
    assert_eq!(to_vec(&ControlOp::GetNodes), vec![1]);
    assert_eq!(to_vec(&ControlOp::GetMaster), vec![2]);
    assert_eq!(to_vec(&ControlOp::StepDown), vec![3]);
    assert_eq!(to_vec(&ControlOp::Shutdown), vec![4]);
    let c = ControlOp::Custom { tag: "t".to_string(), payload: vec![1, 2] };
    assert_eq!(to_vec(&c), bin((5u32, "t", vec![1u8, 2])));
    for op in [
        ControlOp::Ping,
        ControlOp::GetNodes,
        ControlOp::GetMaster,
        ControlOp::StepDown,
        ControlOp::Shutdown,
        c,
    ] {
        let b = to_vec(&op);
        assert_eq!(to_vec(&decode_control::<ControlOp>(&b).unwrap()), b);
    }
    let text = decode_control::<ControlOp>(&[6]).unwrap_err();
    assert!(text.contains("invalid value: integer `6`, expected variant index 0 <= i < 6"), "{}", text);
    // The wording is that of serde's own enumerations.
    let real = refusal::<Result<u8, u8>>(&[6]);
    assert_eq!(real.replace("`Ok` or `Err`", "variant index 0 <= i < 6"), text);
}

#[test]
fn replies_on_the_wire() {
    assert_eq!(to_vec(&ControlReply::Done), vec![0]);
    let e = ControlReply::Error { message: "no".to_string() };
    assert_eq!(to_vec(&e), bin((1u32, "no")));
    let n = ControlReply::Nodes(vec![node(1), node(2)]);
    let mut expected = bin((2u32, 2u64));
    expected.extend(node_bytes(1));
    expected.extend(node_bytes(2));
    assert_eq!(to_vec(&n), expected);
    let m = ControlReply::Master(Some(node(5)));
    let mut expected = bin((3u32, true));
    expected.extend(node_bytes(5));
    assert_eq!(to_vec(&m), expected);
    assert_eq!(to_vec(&ControlReply::Master(None)), vec![3, 0]);
    let d = ControlReply::Data { tag: "x".to_string(), payload: vec![9] };
    assert_eq!(to_vec(&d), bin((4u32, "x", vec![9u8])));
    for r in [ControlReply::Done, e, n, m, ControlReply::Master(None), d] {
        let b = to_vec(&r);
        assert_eq!(to_vec(&decode_control::<ControlReply>(&b).unwrap()), b);
    }
    assert!(decode_control::<ControlReply>(&[5]).unwrap_err().contains("0 <= i < 5"));
}

#[test]
fn envelopes() {
    let sent = encode_control(&ControlOp::Ping).unwrap();
    assert_eq!(sent, vec![1, 0, 1, 0]);
    assert_eq!(payload_len([sent[0], sent[1], sent[2]]), Ok(1));
    assert!(matches!(decode_control::<ControlOp>(&sent[3..]), Ok(ControlOp::Ping)));
    assert_eq!(CONTROL_FRAME_MARKER, 1);
    assert_eq!(MAX_CONTROL_PAYLOAD, 61440);
    assert_eq!(SOCKET_DIR, "/var/run/hivebus");
}

#[test]
fn envelopes_that_are_refused() {
    assert_eq!(payload_len([2, 0, 1]), Err(EnvelopeError::Marker(2)));
    assert_eq!(payload_len([1, 0xf0, 0]), Ok(61440));
    assert_eq!(payload_len([1, 0xf0, 1]), Err(EnvelopeError::TooLong(61441)));
    assert_eq!(EnvelopeError::Marker(2).message(), "invalid control frame marker: 2");
    assert_eq!(EnvelopeError::TooLong(61441).message(), "control reply too large: 61441 bytes");
}

#[test]
fn envelopes_hold_65535_bytes() {
    // An encoded custom request of exactly the largest length, and one more.
    let fits = ControlOp::Custom { tag: String::new(), payload: vec![7; 65535 - 5] };
    let out = try_encode_control(&fits).unwrap().unwrap();
    assert_eq!(out.len(), 3 + 65535);
    assert_eq!(&out[..3], &[1, 0xff, 0xff]);
    let over = ControlOp::Custom { tag: String::new(), payload: vec![7; 65535 - 4] };
    assert!(try_encode_control(&over).is_none());
}

#[test]
fn bytes_behind_a_message_are_ignored() {
    let mut b = to_vec(&ControlOp::GetMaster);
    b.push(99);
    assert!(matches!(decode_control::<ControlOp>(&b), Ok(ControlOp::GetMaster)));
}

#[test]
fn requests_are_sorted_out() {
    assert!(matches!(read_request(&[0]), Request::Reply(ControlReply::Done)));
    assert!(matches!(read_request(&[4]), Request::Exit));
    for op in [1u8, 2, 3] {
        match read_request(&[op]) {
            Request::Reply(ControlReply::Error { message }) => assert_eq!(message, "unsupported op"),
            _ => panic!("not refused"),
        }
    }
    match read_request(&[9]) {
        Request::Reply(ControlReply::Error { message }) => {
            assert_eq!(message, decode_control::<ControlOp>(&[9]).unwrap_err())
        }
        _ => panic!("not refused"),
    }
    let c = ControlOp::Custom { tag: "t".to_string(), payload: vec![1] };
    match read_request(&to_vec(&c)) {
        Request::Custom { tag, payload } => {
            assert_eq!(tag, "t");
            assert_eq!(payload, vec![1]);
        }
        _ => panic!("not passed on"),
    }
    match unknown_tag_reply("zap") {
        ControlReply::Error { message } => assert_eq!(message, "unknown tag: zap"),
        _ => panic!("not refused"),
    }
}

#[test]
fn frames_are_limited() {
    let header = FrameHeader::new(MsgType::Leave, 0, 1);
    // 4 bytes of header, 1 of incarnation, 3 of length, the rest is text.
    let fits = LeavePayload { incarnation: 0, reason: "x".repeat(500) };
    let buf = encode_frame(header, &fits).unwrap();
    assert_eq!(buf.len(), 508);
    assert_eq!(&buf[..4], &header.to_bytes());
    assert_eq!(&buf[4..], &to_vec(&fits)[..]);
    let over = LeavePayload { incarnation: 0, reason: "x".repeat(501) };
    assert_eq!(
        encode_frame(header, &over),
        Err("discovery frame too large: 509 bytes".to_string())
    );
}
