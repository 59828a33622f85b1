//! The DHCP and TFTP servers.

use hivebus::addr::{IpAddr, Ipv4Addr, SocketAddr};
use hivebus::boot::{BootEntry, BootTable, PxeConfig, ScriptFile};
use hivebus::bus::announce_frame;
use hivebus::clock::Timestamp;
use hivebus::dhcp::{
    allocate_ip, build_dhcp_reply, dhcp_packet, message_type, DhcpAction, Lease, LeaseTable,
};
use hivebus::membership::Members;
use hivebus::table::Table;
use hivebus::tftp::{
    answer_of, build_tftp_data, build_tftp_error, not_found_packet, parse_tftp_rrq,
    read_failed_packet, tftp_file, tftp_packet, Answer, Progress, TftpAction, Transfer,
};

const MAC: [u8; 6] = [0x08, 0x00, 0x27, 0xab, 0xcd, 0xef];
const MAC2: [u8; 6] = [0x08, 0x00, 0x27, 0, 0, 1];

fn ip(last: u8) -> Ipv4Addr {
    Ipv4Addr::new(10, 42, 0, last)
}

fn config() -> PxeConfig {
    PxeConfig {
        server_ip: ip(11),
        pool_start: ip(100),
        pool_end: ip(102),
        subnet_mask: Ipv4Addr::new(255, 255, 255, 0),
        gateway: None,
        tftp_root: "/srv".to_string(),
        boot_file: "ipxe.efi".to_string(),
        seed_url: None,
        lease_secs: 3600,
    }
}

fn entry(fixed: Option<Ipv4Addr>, script: Option<&str>) -> BootEntry {
    BootEntry {
        hostname: "web1".to_string(),
        ip: fixed,
        ipxe_script: script.map(|s| s.to_string()),
        tags: Table::new(),
    }
}

fn request(mac: [u8; 6], kind: u8, flags: u8) -> Vec<u8> {
    let mut p = vec![0u8; 236];
    p[0] = 1;
    p[4..8].copy_from_slice(&[1, 2, 3, 4]);
    p[10] = flags;
    p[28..34].copy_from_slice(&mac);
    p.extend_from_slice(&[99, 130, 83, 99, 0, 12, 1, 65, 53, 1, kind, 255]);
    p
}

fn offered(a: &DhcpAction) -> [u8; 4] {
    match a {
        DhcpAction::Reply { packet, .. } => [packet[16], packet[17], packet[18], packet[19]],
        _ => panic!("no reply"),
    }
}

#[test]
fn message_types() {
    assert_eq!(message_type(&[]), Some(0));
    assert_eq!(message_type(&[53, 1, 1, 255]), Some(1));
    assert_eq!(message_type(&[0, 0, 53, 1, 3]), Some(3));
    assert_eq!(message_type(&[12, 2, 53, 1, 53, 1, 3]), Some(3));
    // Behind the end nothing counts; of two the last holds.
    assert_eq!(message_type(&[255, 53, 1, 1]), Some(0));
    assert_eq!(message_type(&[53, 1, 1, 53, 1, 3]), Some(3));
    // An option without length, one that runs over the end, one without value.
    assert_eq!(message_type(&[53, 1, 1, 12]), Some(1));
    assert_eq!(message_type(&[53, 9, 1]), Some(1));
    assert_eq!(message_type(&[53, 0, 12, 0]), Some(0));
    // The value itself is missing.
    assert_eq!(message_type(&[53, 1]), None);
}

#[test]
fn addresses_are_handed_out() {
    let cfg = config();
    let mut boots: BootTable = Table::new();
    let mut leases: LeaseTable = Table::new();
    let get = |b: &BootTable, l: &mut LeaseTable, m: &[u8; 6]| {
        allocate_ip(m, b, l, cfg.pool_start, cfg.pool_end, 60, 1000)
    };
    assert_eq!(get(&boots, &mut leases, &MAC), Some(ip(100)));
    // An address from the pool is not lent yet.
    assert!(leases.get(&MAC).is_none());
    leases.insert(MAC2, Lease { ip: ip(100), expires: 0 });
    assert_eq!(get(&boots, &mut leases, &MAC), Some(ip(101)));
    assert_eq!(get(&boots, &mut leases, &MAC2), Some(ip(100)));
    // A lease begins anew.
    assert_eq!(leases.get(&MAC2), Some(&Lease { ip: ip(100), expires: 1060 }));
    leases.insert([1; 6], Lease { ip: ip(102), expires: 0 });
    assert_eq!(get(&boots, &mut leases, &MAC), Some(ip(101)));
    leases.insert([2; 6], Lease { ip: ip(101), expires: 0 });
    assert_eq!(get(&boots, &mut leases, &MAC), None);
    boots.insert(MAC, entry(Some(ip(7)), None));
    leases.insert(MAC, Lease { ip: ip(100), expires: 5 });
    assert_eq!(get(&boots, &mut leases, &MAC), Some(ip(7)));
    assert_eq!(leases.get(&MAC), Some(&Lease { ip: ip(100), expires: 5 }));
    assert_eq!(leases.get(&[1; 6]), Some(&Lease { ip: ip(102), expires: 0 }));
    boots.insert(MAC2, entry(None, None));
    assert_eq!(get(&boots, &mut leases, &MAC2), Some(ip(100)));
}

#[test]
fn the_whole_address_space_as_pool() {
    let boots: BootTable = Table::new();
    let mut leases: LeaseTable = Table::new();
    let last = Ipv4Addr { bits: u32::MAX };
    assert_eq!(allocate_ip(&MAC, &boots, &mut leases, last, last, 60, 0), Some(last));
    leases.insert(MAC2, Lease { ip: last, expires: 0 });
    assert_eq!(allocate_ip(&MAC, &boots, &mut leases, last, last, 60, 0), None);
}

#[test]
fn reply_bytes() {
    let chaddr: Vec<u8> = (1..=16).collect();
    let p = build_dhcp_reply(
        2,
        0x01020304,
        &chaddr,
        ip(100),
        ip(11),
        Ipv4Addr::new(255, 255, 255, 0),
        Some(ip(1)),
        3600,
        "boot",
    );
    let mut e = vec![0u8; 236];
    e[..8].copy_from_slice(&[2, 1, 6, 0, 1, 2, 3, 4]);
    e[16..20].copy_from_slice(&[10, 42, 0, 100]);
    e[20..24].copy_from_slice(&[10, 42, 0, 11]);
    e[28..44].copy_from_slice(&chaddr);
    e[108..112].copy_from_slice(b"boot");
    e.extend_from_slice(&[99, 130, 83, 99]);
    e.extend_from_slice(&[53, 1, 2]);
    e.extend_from_slice(&[54, 4, 10, 42, 0, 11]);
    e.extend_from_slice(&[1, 4, 255, 255, 255, 0]);
    e.extend_from_slice(&[3, 4, 10, 42, 0, 1]);
    e.extend_from_slice(&[51, 4, 0, 0, 14, 16]);
    e.extend_from_slice(&[66, 4, 10, 42, 0, 11]);
    e.extend_from_slice(&[67, 4]);
    e.extend_from_slice(b"boot");
    e.push(255);
    assert_eq!(p, e);
    assert_eq!(message_type(&p[240..]), Some(2));
}

#[test]
fn reply_cuts_and_pads() {
    let mask = Ipv4Addr::new(255, 255, 255, 0);
    let long = "é".repeat(100);
    let p = build_dhcp_reply(5, 0, &[9, 9], ip(1), ip(2), mask, None, 1, &long);
    assert_eq!(&p[28..32], &[9, 9, 0, 0]);
    assert_eq!(&p[108..235], &long.as_bytes()[..127]);
    assert_eq!(p[235], 0);
    let opts = &p[240..];
    assert_eq!(&opts[27..29], &[67, 127]);
    assert_eq!(opts.len(), 29 + 127 + 1);
    let q = build_dhcp_reply(5, 0, &[7; 20], ip(1), ip(2), mask, None, 1, "");
    assert_eq!(&q[28..44], &[7; 16]);
    assert_eq!(&q[44..46], &[0, 0]);
}

#[test]
fn discovery_and_request() {
    let cfg = config();
    let mut boots: BootTable = Table::new();
    let mut leases: LeaseTable = Table::new();
    let a = dhcp_packet(&cfg, &mut boots, &mut leases, &request(MAC, 1, 0x80), 10);
    match &a {
        DhcpAction::Reply { mac, msg_type, discovered, script, packet, target, registration } => {
            assert_eq!(*mac, MAC);
            assert_eq!(*msg_type, 1);
            assert!(*discovered);
            match script {
                ScriptFile::File { path, .. } => {
                    assert_eq!(path, "/srv/scripts/08:00:27:ab:cd:ef.ipxe");
                    // The node is told to boot what was written for it.
                    let name = String::from_utf8(packet[108..138].to_vec()).unwrap();
                    assert_eq!(&tftp_file("/srv", &name).unwrap(), path);
                }
                _ => panic!("no script"),
            }
            assert_eq!(&packet[4..8], &[1, 2, 3, 4]);
            assert_eq!(&packet[28..34], &MAC);
            assert_eq!(message_type(&packet[240..]), Some(2));
            let all = SocketAddr { ip: IpAddr::V4(Ipv4Addr::new(255, 255, 255, 255)), port: 68 };
            assert_eq!(*target, all);
            // New hardware is registered with the cluster.
            let (id, announced) = registration.as_ref().unwrap();
            assert_eq!(*id, 0xe244);
            assert_eq!(announced.incarnation, 0);
            assert_eq!(announced.hostname, "node-08:00:27:ab:cd:ef");
            let at = SocketAddr { ip: IpAddr::V4(ip(100)), port: 7778 };
            assert_eq!(announced.control_addr, at);
            assert_eq!(announced.version, "");
            let mut m = Members::new(1);
            let frame = announce_frame(*id, 0, announced).unwrap();
            m.receive_at(&frame, at, Timestamp { secs: 1, nanos: 0 });
            assert_eq!(m.get(*id).unwrap().hostname, announced.hostname);
        }
        _ => panic!("no reply"),
    }
    assert_eq!(offered(&a), [10, 42, 0, 100]);
    assert_eq!(leases.get(&MAC), Some(&Lease { ip: ip(100), expires: 3610 }));
    // Asking again gives the same address, straight to it.
    let b = dhcp_packet(&cfg, &mut boots, &mut leases, &request(MAC, 3, 0x7f), 20);
    assert_eq!(offered(&b), [10, 42, 0, 100]);
    match b {
        DhcpAction::Reply { discovered, packet, target, registration, .. } => {
            assert!(!discovered);
            assert!(registration.is_none());
            assert_eq!(message_type(&packet[240..]), Some(5));
            assert_eq!(target, SocketAddr { ip: IpAddr::V4(ip(100)), port: 68 });
        }
        _ => panic!("no reply"),
    }
    assert_eq!(leases.get(&MAC), Some(&Lease { ip: ip(100), expires: 3620 }));
    assert_eq!(boots.rows().len(), 1);
    assert_eq!(leases.rows().len(), 1);
    // Another node gets another address.
    let c = dhcp_packet(&cfg, &mut boots, &mut leases, &request(MAC2, 1, 0), 30);
    assert_eq!(offered(&c), [10, 42, 0, 101]);
}

#[test]
fn entries_decide() {
    let cfg = config();
    let mut boots: BootTable = Table::new();
    let mut leases: LeaseTable = Table::new();
    boots.insert(MAC, entry(Some(ip(7)), None));
    let a = dhcp_packet(&cfg, &mut boots, &mut leases, &request(MAC, 1, 0), 0);
    assert_eq!(offered(&a), [10, 42, 0, 7]);
    match a {
        DhcpAction::Reply { script, packet, discovered, .. } => {
            assert!(!discovered);
            assert!(matches!(script, ScriptFile::Nothing));
            assert_eq!(&packet[108..117], b"ipxe.efi\0");
        }
        _ => panic!("no reply"),
    }
    boots.insert(MAC2, entry(None, Some("../x")));
    match dhcp_packet(&cfg, &mut boots, &mut leases, &request(MAC2, 1, 0), 0) {
        DhcpAction::Reply { script, packet, .. } => {
            assert!(matches!(script, ScriptFile::InvalidPath));
            assert_eq!(&packet[108..113], b"../x\0");
        }
        _ => panic!("no reply"),
    }
}

#[test]
fn the_pool_is_shared_out() {
    let cfg = config();
    let mut boots: BootTable = Table::new();
    let mut leases: LeaseTable = Table::new();
    for round in 0..3u8 {
        for client in 0..5u8 {
            let kind = if round == 0 { 1 } else { 3 };
            let data = request([client; 6], kind, client ^ round);
            dhcp_packet(&cfg, &mut boots, &mut leases, &data, u64::from(round));
        }
    }
    // Whoever has an address keeps it.
    for client in 0..3u8 {
        assert_eq!(leases.get(&[client; 6]), Some(&Lease { ip: ip(100 + client), expires: 3602 }));
    }
    let lent: Vec<Ipv4Addr> = leases.rows().iter().map(|(_, l)| l.ip).collect();
    assert_eq!(lent, vec![ip(100), ip(101), ip(102)]);
    assert_eq!(boots.rows().len(), 5);
}

#[test]
fn an_exhausted_pool() {
    let mut cfg = config();
    cfg.pool_end = ip(100);
    let mut boots: BootTable = Table::new();
    let mut leases: LeaseTable = Table::new();
    dhcp_packet(&cfg, &mut boots, &mut leases, &request(MAC, 1, 0), 0);
    match dhcp_packet(&cfg, &mut boots, &mut leases, &request(MAC2, 1, 0), 0) {
        DhcpAction::Exhausted { mac, discovered, script, .. } => {
            assert_eq!(mac, MAC2);
            assert!(discovered);
            assert!(matches!(script, ScriptFile::File { .. }));
        }
        _ => panic!("not exhausted"),
    }
    assert_eq!(boots.rows().len(), 2);
    assert_eq!(leases.rows().len(), 1);
}

#[test]
fn packets_that_are_ignored() {
    let cfg = config();
    let mut boots: BootTable = Table::new();
    let mut leases: LeaseTable = Table::new();
    let good = request(MAC, 1, 0);
    let mut bad = good.clone();
    bad[239] = 98;
    for p in [&good[..239], &bad[..], &request(MAC, 2, 0)[..], &good[..240]] {
        let a = dhcp_packet(&cfg, &mut boots, &mut leases, p, 0);
        assert!(matches!(a, DhcpAction::Ignore));
    }
    let mut cut = good[..240].to_vec();
    cut.extend_from_slice(&[53, 1]);
    let a = dhcp_packet(&cfg, &mut boots, &mut leases, &cut, 0);
    assert!(matches!(a, DhcpAction::Truncated));
    assert!(boots.rows().is_empty());
    assert!(leases.rows().is_empty());
}

#[test]
fn read_requests() {
    let ok = parse_tftp_rrq(b"\0\x01scripts/a.ipxe\0OcTet\0").unwrap();
    assert_eq!(ok, ("scripts/a.ipxe".to_string(), "octet".to_string()));
    let ok = parse_tftp_rrq(b"\0\x01\0\0").unwrap();
    assert_eq!(ok, (String::new(), String::new()));
    let ok = parse_tftp_rrq("\0\u{1}ä\0ÄÖZ\0blksize\0".as_bytes()).unwrap();
    assert_eq!(ok, ("ä".to_string(), "ÄÖz".to_string()));
    for p in [
        &b"\0\x01a"[..],
        b"\0\x02a\0octet\0",
        b"\x01\x01a\0octet\0",
        b"\0\x01a\0octet",
        b"\0\x01aoctet",
        b"\0\x01\xff\0octet\0",
        b"\0\x01a\0\xff\0",
    ] {
        assert!(parse_tftp_rrq(p).is_none());
    }
}

#[test]
fn packets_of_the_file_service() {
    assert_eq!(build_tftp_data(0x0102, &[7, 8]), vec![0, 3, 1, 2, 7, 8]);
    assert_eq!(build_tftp_data(1, &[]), vec![0, 3, 0, 1]);
    assert_eq!(build_tftp_error(2, "no"), vec![0, 5, 0, 2, b'n', b'o', 0]);
    assert_eq!(not_found_packet(), build_tftp_error(1, "file not found"));
    assert_eq!(read_failed_packet(), build_tftp_error(0, "read failed"));
}

#[test]
fn decisions_of_the_file_service() {
    match tftp_packet(b"\0\x01f\0NETASCII\0") {
        TftpAction::Serve(name) => assert_eq!(name, "f"),
        _ => panic!("refused"),
    }
    match tftp_packet(b"\0\x01f\0mail\0") {
        TftpAction::Refuse(p) => assert_eq!(p, build_tftp_error(0, "unsupported transfer mode")),
        _ => panic!("served"),
    }
    match tftp_packet(b"\0\x02f\0octet\0") {
        TftpAction::Refuse(p) => assert_eq!(p, build_tftp_error(4, "unsupported operation")),
        _ => panic!("served"),
    }
    assert_eq!(tftp_file("/srv", "a/b"), Ok("/srv/a/b".to_string()));
    assert_eq!(tftp_file("/srv", "../b"), Err(build_tftp_error(2, "invalid path")));
}

fn ack(block: u16) -> Answer {
    let b = block.to_be_bytes();
    Answer::FromClient { b0: 0, b1: 4, b2: b[0], b3: b[1] }
}

#[test]
fn a_file_is_delivered() {
    let file: Vec<u8> = (0..1024u32).map(|i| i as u8).collect();
    let mut got = Vec::new();
    let mut pieces = vec![&file[..512], &file[512..1024], &file[1024..]].into_iter();
    let mut t = Transfer::start(pieces.next().unwrap());
    let mut blocks = 0u16;
    loop {
        blocks += 1;
        assert_eq!(t.block(), blocks);
        assert_eq!(&t.packet()[..4], &[0, 3, 0, blocks as u8]);
        got.extend_from_slice(&t.packet()[4..]);
        match t.answered(ack(blocks)) {
            Progress::ReadOn => t.next(pieces.next().unwrap()),
            Progress::Complete => break,
            _ => panic!("stuck"),
        }
    }
    assert_eq!(blocks, 3);
    assert_eq!(got, file);
}

#[test]
fn a_silent_client_is_given_up() {
    let mut t = Transfer::start(&[1, 2]);
    for a in [Answer::Nothing, ack(2), Answer::FromClient { b0: 0, b1: 3, b2: 0, b3: 1 }] {
        assert_eq!(t.answered(a), Progress::SendAgain);
    }
    assert_eq!(t.answered(Answer::Nothing), Progress::SendAgain);
    assert_eq!(t.answered(Answer::Nothing), Progress::GivenUp);
    // An answer in time goes on, and the next block starts afresh.
    let mut t = Transfer::start(&[0; 512]);
    for _ in 0..4 {
        assert_eq!(t.answered(Answer::Nothing), Progress::SendAgain);
    }
    assert_eq!(t.answered(ack(1)), Progress::ReadOn);
    t.next(&[]);
    assert_eq!(t.packet(), &vec![0, 3, 0, 2]);
    for _ in 0..4 {
        assert_eq!(t.answered(Answer::Nothing), Progress::SendAgain);
    }
    assert_eq!(t.answered(ack(2)), Progress::Complete);
}

#[test]
fn block_numbers_wrap() {
    let mut t = Transfer::start(&[0; 512]);
    for _ in 0..65535u32 {
        t.next(&[]);
    }
    assert_eq!(t.block(), 0);
    t.next(&[]);
    assert_eq!(t.block(), 1);
}

#[test]
fn what_counts_as_an_answer() {
    let client = SocketAddr { ip: IpAddr::V4(ip(100)), port: 2000 };
    let other = SocketAddr { port: 2001, ..client };
    let b = [0, 4, 1, 2];
    let heard = Answer::FromClient { b0: 0, b1: 4, b2: 1, b3: 2 };
    assert_eq!(answer_of(4, b, client, client), heard);
    assert_eq!(answer_of(4, b, other, client), Answer::Nothing);
    assert_eq!(answer_of(3, b, client, client), Answer::Nothing);
    assert_eq!(answer_of(5, b, client, client), Answer::Nothing);
}
