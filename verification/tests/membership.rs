//! The membership table and the daemon around it.

use hivebus::addr::{IpAddr, Ipv4Addr, SocketAddr};
use hivebus::bus::{
    announce_frame, answer, answer_at, control_addr, default_dead_secs, default_hb_interval,
    default_suspect_misses, first_incarnation, gossip_round, heartbeat_frame, leave_frame,
    local_node_info,
    suspect_threshold,
};
use hivebus::clock::{epoch_ms, Duration, Timestamp};
use hivebus::control::{
    encode_control, try_encode_control, ControlOp, ControlReply, CONTROL_FRAME_MARKER,
};
use hivebus::frame::{encode_frame, next_seq, FrameHeader, MsgType};
use hivebus::membership::{Event, Members};
use hivebus::node::{NodeInfo, NodeState};
use hivebus::payload::{AnnouncePayload, GossipEntry, GossipPayload, LeavePayload};
use hivebus::wire::to_vec;

fn addr(last: u8) -> SocketAddr {
    SocketAddr { ip: IpAddr::V4(Ipv4Addr::new(10, 42, 0, last)), port: 7777 }
}

fn at(ms: u64) -> Timestamp {
    Timestamp { secs: 1_000_000 + (ms / 1000) as i64, nanos: (ms % 1000) as u32 * 1_000_000 }
}

fn announce(id: u16, host: &str, last: u8) -> Vec<u8> {
    let p = AnnouncePayload {
        incarnation: 1,
        hostname: host.to_string(),
        control_addr: addr(last),
        version: "1".to_string(),
    };
    announce_frame(id, 0, &p).unwrap()
}

fn leave(id: u16) -> Vec<u8> {
    let p = LeavePayload { incarnation: 1, reason: "maintenance".to_string() };
    encode_frame(FrameHeader::new(MsgType::Leave, 0, id), &p).unwrap()
}

fn gossip(id: u16, entries: Vec<GossipEntry>) -> Vec<u8> {
    encode_frame(FrameHeader::new(MsgType::Gossip, 0, id), &GossipPayload { entries }).unwrap()
}

fn entry(id: u16, incarnation: u32, state: NodeState) -> GossipEntry {
    GossipEntry { node_id: id, incarnation, state, epoch_ms: 0 }
}

const SUSPECT: Duration = Duration { nanos: 450_000_000 };
const DEAD: Duration = Duration { nanos: 30_000_000_000 };

#[test]
fn heartbeat_enters_a_node() {
    let mut m = Members::new(5);
    let e = m.receive_at(&heartbeat_frame(0x0a, 3, 77, 1), addr(1), at(0));
    assert!(matches!(e, Event::Quiet));
    let n = m.get(0x0a).unwrap();
    assert_eq!(n.hostname, "node-0x000a");
    assert_eq!(n.control_addr, addr(1));
    assert_eq!(n.state, NodeState::Alive);
    assert_eq!(n.incarnation, 77);
    assert_eq!(n.last_seen, at(0));
    assert!(!n.is_master);
    assert_eq!(m.rows().len(), 1);
}

#[test]
fn heartbeat_refreshes_a_node() {
    let mut m = Members::new(5);
    m.receive_at(&announce(2, "two", 2), addr(1), at(0));
    m.receive_at(&leave(2), addr(1), at(10));
    assert_eq!(m.get(2).unwrap().state, NodeState::Dead);
    m.receive_at(&heartbeat_frame(2, 0, 9, 1), addr(9), at(20));
    let n = m.get(2).unwrap();
    assert_eq!(n.hostname, "two");
    assert_eq!(n.control_addr, addr(2));
    assert_eq!(n.state, NodeState::Alive);
    assert_eq!(n.incarnation, 9);
    assert_eq!(n.last_seen, at(20));
}

#[test]
fn announcement_enters_and_replaces() {
    let mut m = Members::new(5);
    match m.receive_at(&announce(2, "two", 2), addr(1), at(0)) {
        Event::Announced { node_id, hostname, control_addr, replaced } => {
            assert_eq!(node_id, 2);
            assert_eq!(hostname, "two");
            assert_eq!(control_addr, addr(2));
            assert!(replaced.is_none());
        }
        _ => panic!("not announced"),
    }
    // The same again is no conflict.
    match m.receive_at(&announce(2, "two", 2), addr(1), at(5)) {
        Event::Announced { replaced, .. } => assert!(replaced.is_none()),
        _ => panic!("not announced"),
    }
    // Another host under the same number is reported and replaces the first.
    match m.receive_at(&announce(2, "other", 3), addr(1), at(9)) {
        Event::Announced { replaced, .. } => {
            assert_eq!(replaced, Some(("two".to_string(), addr(2))))
        }
        _ => panic!("not announced"),
    }
    assert_eq!(m.rows().len(), 1);
    assert_eq!(m.get(2).unwrap().hostname, "other");
}

#[test]
fn farewell_buries_a_known_node() {
    let mut m = Members::new(5);
    match m.receive_at(&leave(2), addr(1), at(0)) {
        Event::Leaving { node_id, reason } => {
            assert_eq!((node_id, reason.as_str()), (2, "maintenance"))
        }
        _ => panic!("not leaving"),
    }
    assert!(m.get(2).is_none());
    m.receive_at(&announce(2, "two", 2), addr(1), at(0));
    m.receive_at(&leave(2), addr(1), at(7));
    let n = m.get(2).unwrap();
    assert_eq!(n.state, NodeState::Dead);
    assert_eq!(n.last_seen, at(0));
}

#[test]
fn gossip_adds_and_updates() {
    let mut m = Members::new(5);
    m.receive_at(&heartbeat_frame(2, 0, 10, 1), addr(2), at(0));
    let frame = gossip(
        3,
        vec![
            entry(2, 9, NodeState::Dead),
            entry(5, 99, NodeState::Dead),
            entry(7, 4, NodeState::Suspect),
        ],
    );
    m.receive_at(&frame, addr(3), at(50));
    // Older than what is known: nothing changes.
    assert_eq!(m.get(2).unwrap().state, NodeState::Alive);
    // The node itself never enters.
    assert!(m.get(5).is_none());
    let n = m.get(7).unwrap();
    assert_eq!(n.hostname, "node-0x0007");
    assert_eq!(n.state, NodeState::Suspect);
    assert_eq!(n.control_addr, addr(3));
    assert_eq!(n.last_seen, at(50));
    // The same incarnation counts, and leaves the time of the last sign alone.
    m.receive_at(&gossip(3, vec![entry(2, 10, NodeState::Suspect)]), addr(3), at(60));
    let n = m.get(2).unwrap();
    assert_eq!(n.state, NodeState::Suspect);
    assert_eq!(n.incarnation, 10);
    assert_eq!(n.last_seen, at(0));
}

#[test]
fn frames_that_change_nothing() {
    let mut m = Members::new(5);
    assert!(matches!(m.receive_at(&[1, 2, 3], addr(1), at(0)), Event::InvalidFrame));
    assert!(matches!(m.receive_at(&[0xCA, 0x70, 0, 1], addr(1), at(0)), Event::UnknownType));
    // Its own frames, even of an unknown type.
    assert!(matches!(m.receive_at(&heartbeat_frame(5, 0, 1, 1), addr(1), at(0)), Event::Quiet));
    assert!(matches!(m.receive_at(&[0xCA, 0x70, 0, 5], addr(1), at(0)), Event::Quiet));
    // Acknowledgements and votes.
    for t in [0x30u8, 0x50, 0x60] {
        assert!(matches!(m.receive_at(&[0xCA, t, 0, 1], addr(1), at(0)), Event::Quiet));
    }
    // Payloads that are cut short.
    for t in [0x00u8, 0x10, 0x20, 0x40] {
        assert!(matches!(m.receive_at(&[0xCA, t, 0, 1], addr(1), at(0)), Event::Quiet));
    }
    assert!(m.rows().is_empty());
}

#[test]
fn silence_makes_suspects_and_dead() {
    let mut m = Members::new(5);
    m.receive_at(&heartbeat_frame(2, 0, 1, 1), addr(2), at(0));
    m.detect_failures_at(at(450), SUSPECT, DEAD);
    assert_eq!(m.get(2).unwrap().state, NodeState::Alive);
    m.detect_failures_at(at(451), SUSPECT, DEAD);
    assert_eq!(m.get(2).unwrap().state, NodeState::Suspect);
    m.detect_failures_at(at(30_000), SUSPECT, DEAD);
    assert_eq!(m.get(2).unwrap().state, NodeState::Suspect);
    m.detect_failures_at(at(30_001), SUSPECT, DEAD);
    assert_eq!(m.get(2).unwrap().state, NodeState::Dead);
    m.detect_failures_at(at(299_999), SUSPECT, DEAD);
    assert_eq!(m.rows().len(), 1);
    m.detect_failures_at(at(300_000), SUSPECT, DEAD);
    assert!(m.rows().is_empty());
}

#[test]
fn a_node_from_the_future_is_forgotten() {
    let mut m = Members::new(5);
    m.receive_at(&heartbeat_frame(2, 0, 1, 1), addr(2), at(1000));
    m.detect_failures_at(at(999), SUSPECT, DEAD);
    assert!(m.rows().is_empty());
}

#[test]
fn lowest_alive_node_is_master() {
    let mut m = Members::new(5);
    assert_eq!(m.master_from(), Some(5));
    m.receive_at(&heartbeat_frame(9, 0, 1, 1), addr(9), at(0));
    m.receive_at(&heartbeat_frame(2, 0, 1, 1), addr(2), at(0));
    m.receive_at(&heartbeat_frame(3, 0, 1, 1), addr(3), at(0));
    assert_eq!(m.master_from(), Some(2));
    m.detect_failures_at(at(100), SUSPECT, DEAD);
    let flags: Vec<(u16, bool)> = m.rows().iter().map(|(id, n)| (*id, n.is_master)).collect();
    assert_eq!(flags, vec![(9, false), (2, true), (3, false)]);
    m.receive_at(&leave(2), addr(2), at(100));
    assert_eq!(m.master_from(), Some(3));
    m.receive_at(&leave(3), addr(3), at(100));
    assert_eq!(m.master_from(), Some(5));
    m.detect_failures_at(at(110), SUSPECT, DEAD);
    assert!(m.rows().iter().all(|(_, n)| !n.is_master));
}

#[test]
fn masters_of_two_nodes_agree() {
    let mut a = Members::new(5);
    let mut b = Members::new(3);
    a.receive_at(&heartbeat_frame(3, 0, 1, 1), addr(3), at(0));
    a.receive_at(&heartbeat_frame(8, 0, 1, 1), addr(8), at(0));
    b.receive_at(&heartbeat_frame(8, 0, 1, 1), addr(8), at(0));
    b.receive_at(&heartbeat_frame(5, 0, 1, 1), addr(5), at(0));
    assert_eq!(a.master_from(), b.master_from());
    assert_eq!(a.master_from(), Some(3));
}

#[test]
fn the_clock_is_read() {
    let mut m = Members::new(5);
    m.receive(&heartbeat_frame(2, 0, 1, 1), addr(2));
    let seen = m.get(2).unwrap().last_seen;
    let now = std::time::SystemTime::now()
        .duration_since(std::time::UNIX_EPOCH)
        .unwrap();
    let secs = now.as_secs() as i64;
    assert!(seen.secs <= secs && secs - seen.secs < 60);
    assert!(seen.nanos < 1_000_000_000);
    m.detect_failures(Duration::from_secs(60), DEAD);
    assert_eq!(m.get(2).unwrap().state, NodeState::Alive);
    let ms = epoch_ms();
    assert!(ms >= now.as_millis() as u64 && ms < now.as_millis() as u64 + 60_000);
    assert!(!m.get(2).unwrap().is_timed_out(Duration::from_secs(60)));
}

#[test]
fn time_outs() {
    let n = local_node_info(1, "n", addr(1), 1, at(1000), false);
    assert!(!n.is_timed_out_at(at(1500), Duration::from_millis(500)));
    assert!(n.is_timed_out_at(at(1501), Duration::from_millis(500)));
    assert!(n.is_timed_out_at(at(999), Duration::from_secs(1_000_000)));
}

#[test]
fn settings() {
    assert_eq!(default_hb_interval(), 150);
    assert_eq!(default_suspect_misses(), 3);
    assert_eq!(default_dead_secs(), 30);
    let d = suspect_threshold(default_hb_interval(), default_suspect_misses()).unwrap();
    assert_eq!(d, Duration::from_millis(450));
    assert!(suspect_threshold(u64::MAX, 2).is_none());
    assert_eq!(
        control_addr(Ipv4Addr::new(10, 42, 0, 11)),
        SocketAddr { ip: IpAddr::V4(Ipv4Addr::new(10, 42, 0, 11)), port: 7778 }
    );
    assert_eq!(first_incarnation(0x1_2345_6789), 0x2345_6789);
    assert_eq!(Timestamp { secs: 2, nanos: 3_999_999 }.millis(), 2003);
    assert_eq!(Duration::from_secs(3).as_secs(), 3);
}

#[test]
fn heartbeat_frame_bytes() {
    assert_eq!(heartbeat_frame(0x0102, 7, 5, 200), vec![0xCA, 0x07, 1, 2, 5, 200]);
}

#[test]
fn gossip_is_sent_and_taken_in() {
    let mut a = Members::new(1);
    let (none, seq) = gossip_round(&a, 15, 7);
    assert!(none.is_none());
    assert_eq!(seq, 15);
    a.receive_at(&heartbeat_frame(2, 0, 10, 1), addr(2), at(0));
    a.receive_at(&heartbeat_frame(3, 0, 11, 1), addr(3), at(0));
    let (sent, seq) = gossip_round(&a, 15, 7);
    assert_eq!(seq, 0);
    let sent = sent.unwrap();
    assert_eq!(sent, vec![0xCA, 0x4F, 0, 1, 2, 2, 10, 0, 7, 3, 11, 0, 7]);
    let mut b = Members::new(2);
    b.receive_at(&sent, addr(1), at(5));
    assert!(b.get(2).is_none());
    assert_eq!(b.get(3).unwrap().incarnation, 11);
    // Too many nodes for one frame: nothing is sent, the number goes on.
    for id in 10..200u16 {
        a.receive_at(&heartbeat_frame(id, 0, 1, 1), addr(3), at(0));
    }
    let (sent, seq) = gossip_round(&a, 3, 7);
    assert!(sent.is_none());
    assert_eq!(seq, 4);
}

#[test]
fn farewells() {
    let p = LeavePayload { incarnation: 1, reason: "shutdown".to_string() };
    let sent = leave_frame(0x0102, 7, &p).unwrap();
    let mut expected = vec![0xCA, 0x27, 1, 2, 1, 8];
    expected.extend_from_slice(b"shutdown");
    assert_eq!(sent, expected);
    let mut m = Members::new(5);
    m.receive_at(&heartbeat_frame(0x0102, 0, 1, 1), addr(2), at(0));
    let e = m.receive_at(&sent, addr(2), at(1));
    assert!(matches!(e, Event::Leaving { node_id: 0x0102, .. }));
    assert_eq!(m.get(0x0102).unwrap().state, NodeState::Dead);
    let long = LeavePayload { incarnation: 1, reason: "x".repeat(600) };
    assert!(leave_frame(1, 0, &long).unwrap_err().starts_with("discovery frame too large: "));
}

#[test]
fn announcements_can_be_too_long() {
    let p = AnnouncePayload {
        incarnation: 1,
        hostname: "h".repeat(600),
        control_addr: addr(1),
        version: "1".to_string(),
    };
    assert!(announce_frame(1, 0, &p).unwrap_err().starts_with("discovery frame too large: "));
}

fn ask(m: &mut Members, op: &ControlOp) -> Option<ControlReply> {
    answer_at(m, "me", addr(5), 42, at(500), &to_vec(op))
}

fn ids(reply: Option<ControlReply>) -> Vec<NodeInfo> {
    match reply {
        Some(ControlReply::Nodes(nodes)) => nodes,
        _ => panic!("no nodes"),
    }
}

#[test]
fn answers() {
    let mut m = Members::new(5);
    assert!(matches!(ask(&mut m, &ControlOp::Ping), Some(ControlReply::Done)));
    assert!(ask(&mut m, &ControlOp::Shutdown).is_none());
    match ask(&mut m, &ControlOp::Custom { tag: "x".to_string(), payload: vec![] }) {
        Some(ControlReply::Error { message }) => assert_eq!(message, "unsupported op"),
        _ => panic!("not refused"),
    }
    match answer_at(&mut m, "me", addr(5), 42, at(500), &[77]) {
        Some(ControlReply::Error { message }) => {
            assert_eq!(message, hivebus::control::decode_control::<ControlOp>(&[77]).unwrap_err())
        }
        _ => panic!("not refused"),
    }
    // Alone, the node is the master.
    match ask(&mut m, &ControlOp::GetMaster) {
        Some(ControlReply::Master(Some(n))) => {
            assert_eq!(n.node_id, 5);
            assert_eq!(n.hostname, "me");
            assert_eq!(n.incarnation, 42);
            assert_eq!(n.last_seen, at(500));
            assert!(n.is_master);
        }
        _ => panic!("no master"),
    }
    m.receive_at(&heartbeat_frame(9, 0, 1, 1), addr(9), at(0));
    m.receive_at(&heartbeat_frame(2, 0, 1, 1), addr(2), at(0));
    m.receive_at(&heartbeat_frame(7, 0, 1, 1), addr(7), at(0));
    let nodes = ids(ask(&mut m, &ControlOp::GetNodes));
    assert_eq!(nodes.iter().map(|n| n.node_id).collect::<Vec<_>>(), vec![2, 5, 7, 9]);
    assert!(!nodes[1].is_master);
    assert_eq!(nodes[1].state, NodeState::Alive);
    match ask(&mut m, &ControlOp::GetMaster) {
        Some(ControlReply::Master(Some(n))) => assert_eq!(n.node_id, 2),
        _ => panic!("no master"),
    }
    m.receive_at(&leave(2), addr(2), at(0));
    let nodes = ids(ask(&mut m, &ControlOp::GetNodes));
    assert!(nodes[1].is_master);
    assert_eq!(nodes[0].state, NodeState::Dead);
}

#[test]
fn stepping_down() {
    let mut m = Members::new(5);
    assert_eq!(m.master_from(), Some(5));
    // Alone, the node leaves no master behind.
    assert!(matches!(ask(&mut m, &ControlOp::StepDown), Some(ControlReply::Done)));
    assert_eq!(m.master_from(), None);
    assert!(matches!(ask(&mut m, &ControlOp::GetMaster), Some(ControlReply::Master(None))));
    assert!(!ids(ask(&mut m, &ControlOp::GetNodes))[0].is_master);
    // The next one is the master, though its number is higher.
    m.receive_at(&heartbeat_frame(9, 0, 1, 1), addr(9), at(0));
    m.receive_at(&heartbeat_frame(7, 0, 1, 1), addr(7), at(0));
    assert_eq!(m.master_from(), Some(7));
    match ask(&mut m, &ControlOp::GetMaster) {
        Some(ControlReply::Master(Some(n))) => assert_eq!(n.node_id, 7),
        _ => panic!("no master"),
    }
    m.detect_failures_at(at(100), SUSPECT, DEAD);
    let nodes = ids(ask(&mut m, &ControlOp::GetNodes));
    let shown: Vec<(u16, bool)> = nodes.iter().map(|n| (n.node_id, n.is_master)).collect();
    assert_eq!(shown, vec![(5, false), (7, true), (9, false)]);
    // It stays that way, also when it is told again and the others are gone.
    assert!(matches!(ask(&mut m, &ControlOp::StepDown), Some(ControlReply::Done)));
    m.detect_failures_at(at(400_000), SUSPECT, DEAD);
    assert!(m.rows().is_empty());
    assert_eq!(m.master_from(), None);
    assert_eq!(Members::new(5).master_from(), Some(5));
}

#[test]
fn one_that_is_not_the_master_steps_down() {
    let mut m = Members::new(5);
    m.receive_at(&heartbeat_frame(2, 0, 1, 1), addr(2), at(0));
    m.step_down();
    assert_eq!(m.master_from(), Some(2));
    m.receive_at(&leave(2), addr(2), at(1));
    assert_eq!(m.master_from(), None);
}

#[test]
fn datagrams_remove_nobody() {
    let mut m = Members::new(5);
    for id in [2, 3] {
        m.receive_at(&heartbeat_frame(id, 0, 1, 1), addr(2), at(0));
    }
    for data in [leave(2), announce(2, "x", 1), gossip(3, vec![entry(2, 9, NodeState::Dead)])] {
        m.receive_at(&data, addr(2), at(0));
        assert_eq!(m.rows().len(), 2);
    }
}

#[test]
fn heartbeats_count_modulo_sixteen() {
    let mut seq = 0;
    for k in 0..40u8 {
        assert_eq!(heartbeat_frame(1, seq, 1, 1)[1], k % 16);
        seq = next_seq(seq);
    }
}

#[test]
fn times_before_the_epoch() {
    let early = Timestamp::from_offset(true, 10, 250_000_000);
    assert_eq!(early, Timestamp { secs: -11, nanos: 750_000_000 });
    assert_eq!(Timestamp::from_offset(true, 3, 0), Timestamp { secs: -3, nanos: 0 });
    assert_eq!(Timestamp::from_offset(false, 3, 4), Timestamp { secs: 3, nanos: 4 });
    let (most, last) = (u64::MAX, 999_999_999);
    assert_eq!(Timestamp::from_offset(false, most, last), Timestamp { secs: i64::MAX, nanos: last });
    assert_eq!(Timestamp::from_offset(true, most, last), Timestamp { secs: i64::MIN, nanos: 0 });
    assert_eq!(early.millis(), 0);
    let later = Timestamp { secs: 1, nanos: 0 };
    assert_eq!(later.since(early), Some(Duration::from_millis(11_250)));
    assert_eq!(early.since(later), None);
    // Nodes come and go as ever, but no reply that shows such a time is sent.
    let mut m = Members::new(5);
    m.receive_at(&heartbeat_frame(2, 0, 1, 1), addr(2), early);
    m.detect_failures_at(Timestamp { secs: -10, nanos: 0 }, Duration::from_millis(200), DEAD);
    assert_eq!(m.get(2).unwrap().state, NodeState::Suspect);
    let real = std::time::UNIX_EPOCH - std::time::Duration::from_secs(1);
    let refusal = bincode::serde::encode_to_vec(real, bincode::config::standard())
        .unwrap_err()
        .to_string();
    let nodes = ask(&mut m, &ControlOp::GetNodes).unwrap();
    assert_eq!(encode_control(&nodes), Err(refusal.clone()));
    assert_eq!(try_encode_control(&nodes), Some(Err(refusal.clone())));
    let master = ControlReply::Master(m.get(2));
    assert_eq!(encode_control(&master), Err(refusal.clone()));
    assert_eq!(encode_control(&early), Err(refusal.clone()));
    assert_eq!(encode_control(&(7u8, Some(early))), Err(refusal.clone()));
    let header = FrameHeader::new(MsgType::Gossip, 0, 1);
    assert_eq!(encode_frame(header, &early), Err(refusal));
    let done = ControlReply::Done;
    assert_eq!(encode_control(&done), Ok(vec![CONTROL_FRAME_MARKER, 0, 1, 0]));
    assert_eq!(try_encode_control(&done), Some(encode_control(&done)));
    let long = ControlReply::Data { tag: String::new(), payload: vec![0; 65_536] };
    assert_eq!(try_encode_control(&long), None);
}

#[test]
fn answers_by_the_clock() {
    let mut m = Members::new(5);
    assert_eq!(m.self_id(), 5);
    let nodes = ids(answer(&mut m, "me", addr(5), 42, &to_vec(&ControlOp::GetNodes)));
    assert_eq!(nodes.len(), 1);
    assert!(nodes[0].last_seen.secs > 1_600_000_000);
}
