//! The gateway, network, image and workload daemons, and the inspector.

use hivebus::addr::{IpAddr, Ipv4Addr, SocketAddr};
use hivebus::clock::{Duration, Timestamp};
use hivebus::control::{ControlOp, ControlReply};
use hivebus::hivectl::{
    age_text, alive_count, centered_margin, command_for, header_line, last_seen_text,
    master_label, master_reply, nodes_reply, nodes_text, refresh_due, row_cells, span_text,
    state_text, App, Command, Key, NodesReply, DEFAULT_SOCKET,
};
use hivebus::imager::{
    build_request, create_qcow2, default_chunk_port, default_store_dir, handle_image_cmd,
    image_request, Catalog, ChunkCmd, ImageEntry, ImageHasher, ImageKind, ImagerConfig, CHUNK_SIZE,
};
use hivebus::netgate::{
    default_dns_addr, default_domain, gate_request, DnsRecord, GateAction, ProxyRule,
};
use hivebus::netop::{
    default_reconcile_secs, netop_request, DesiredState, IfaceKind, IfaceSpec, NetopConfig, NftRule,
};
use hivebus::node::{NodeInfo, NodeState};
use hivebus::orchestrator::{
    create_container, handle_command, upkeep_reply, virt_request, vm_reply, OrchestratorConfig,
    Upkeep, VirtAction, VirtKind, WorkloadSpec, WorkloadStatus,
};
use hivebus::table::Table;
use hivebus::wire::{from_slice, to_vec};

fn bin<T: serde::Serialize>(v: T) -> Vec<u8> {
    bincode::serde::encode_to_vec(v, bincode::config::standard()).unwrap()
}

fn custom(tag: &str, payload: Vec<u8>) -> Vec<u8> {
    to_vec(&ControlOp::Custom { tag: tag.to_string(), payload })
}

fn error_of(r: Option<ControlReply>) -> String {
    match r {
        Some(ControlReply::Error { message }) => message,
        _ => panic!("not refused"),
    }
}

fn gate_error_of(a: GateAction) -> String {
    match a {
        GateAction::Reply(r) => error_of(Some(r)),
        _ => panic!("not refused"),
    }
}

fn sock(last: u8, port: u16) -> SocketAddr {
    SocketAddr { ip: IpAddr::V4(Ipv4Addr::new(10, 42, 0, last)), port }
}

// The gateway.

#[test]
fn records_are_stored_and_deleted() {
    let mut records: Table<String, DnsRecord> = Table::new();
    let mut rules: Vec<ProxyRule> = Vec::new();
    let rec = |name: &str, ttl: u32| DnsRecord {
        name: name.to_string(),
        ttl,
        addr: IpAddr::V4(Ipv4Addr::new(10, 42, 0, 1)),
    };
    let ip = (0u32, [10u8, 42, 0, 1]);
    assert_eq!(to_vec(&rec("a.cluster", 60)), bin(("a.cluster", 60u32, ip)));
    for r in [rec("a", 1), rec("b", 2), rec("a", 3)] {
        let a = gate_request(&mut records, &mut rules, &custom("dns.upsert", to_vec(&r)));
        assert!(matches!(a, GateAction::Reply(ControlReply::Done)));
    }
    assert_eq!(records.rows().len(), 2);
    assert_eq!(records.get(&"a".to_string()).unwrap().ttl, 3);
    let a = gate_request(&mut records, &mut rules, &custom("dns.delete", b"a".to_vec()));
    assert!(matches!(a, GateAction::Reply(ControlReply::Done)));
    assert!(records.get(&"a".to_string()).is_none());
    assert_eq!(records.get(&"b".to_string()).unwrap().ttl, 2);
    // Names that are not there, and bytes that are no name.
    for name in [b"zz".to_vec(), vec![0xff]] {
        let a = gate_request(&mut records, &mut rules, &custom("dns.delete", name));
        assert!(matches!(a, GateAction::Reply(ControlReply::Done)));
    }
    assert_eq!(records.rows().len(), 1);
}

#[test]
fn rules_are_added() {
    let mut records: Table<String, DnsRecord> = Table::new();
    let mut rules: Vec<ProxyRule> = Vec::new();
    let rule = ProxyRule { id: "web".to_string(), listen: sock(1, 80), target: sock(2, 8080) };
    let plain = |last: u8, port: u16| (0u32, [10u8, 42, 0, last], port);
    assert_eq!(to_vec(&rule), bin(("web", plain(1, 80), plain(2, 8080))));
    match gate_request(&mut records, &mut rules, &custom("proxy.add", to_vec(&rule))) {
        GateAction::Forward(r) => {
            assert_eq!(r.id, "web");
            assert_eq!(r.listen, sock(1, 80));
            assert_eq!(r.target, sock(2, 8080));
        }
        _ => panic!("not added"),
    }
    assert_eq!(rules.len(), 1);
    assert_eq!(rules[0].target, sock(2, 8080));
}

#[test]
fn gate_requests_that_are_refused() {
    let mut records: Table<String, DnsRecord> = Table::new();
    let mut rules: Vec<ProxyRule> = Vec::new();
    let mut ask = |b: Vec<u8>| gate_request(&mut records, &mut rules, &b);
    let expected = from_slice::<DnsRecord>(&[9]).unwrap_err();
    assert_eq!(gate_error_of(ask(custom("dns.upsert", vec![9]))), expected);
    let expected = from_slice::<ProxyRule>(&[]).unwrap_err();
    assert_eq!(gate_error_of(ask(custom("proxy.add", vec![]))), expected);
    assert_eq!(gate_error_of(ask(custom("dns", vec![]))), "unknown tag: dns");
    assert_eq!(gate_error_of(ask(to_vec(&ControlOp::GetNodes))), "unsupported op");
    assert!(matches!(ask(to_vec(&ControlOp::Shutdown)), GateAction::Exit));
    assert!(rules.is_empty());
    assert_eq!(default_dns_addr(), SocketAddr { ip: IpAddr::V4(Ipv4Addr { bits: 0 }), port: 5353 });
    assert_eq!(default_domain(), "cluster.internal");
}

// The network daemon.

fn desired() -> DesiredState {
    let kinds = vec![
        IfaceKind::Veth { peer: "v1".to_string() },
        IfaceKind::Bridge,
        IfaceKind::Tun { tap: true },
        IfaceKind::Vxlan { vni: 7, remote: Ipv4Addr::new(10, 42, 0, 2) },
    ];
    let interfaces = kinds
        .into_iter()
        .map(|kind| IfaceSpec {
            name: "if".to_string(),
            kind,
            addresses: vec![IpAddr::V4(Ipv4Addr::new(10, 0, 0, 1))],
            up: true,
        })
        .collect();
    DesiredState { interfaces, nft_rules: vec![NftRule { json: "{}".to_string() }] }
}

#[test]
fn desired_state_on_the_wire() {
    let ip = (0u32, [10u8, 0, 0, 1]);
    let mut expected = bin(4u64);
    expected.extend(bin(("if", (0u32, "v1"), vec![ip], true)));
    expected.extend(bin(("if", 1u32, vec![ip], true)));
    expected.extend(bin(("if", (2u32, true), vec![ip], true)));
    let remote = [10u8, 42, 0, 2];
    expected.extend(bin(("if", (3u32, 7u32, remote), vec![ip], true)));
    expected.extend(bin(vec!["{}"]));
    assert_eq!(to_vec(&desired()), expected);
    assert_eq!(to_vec(&from_slice::<DesiredState>(&expected).unwrap()), expected);
    assert!(from_slice::<IfaceKind>(&[4]).unwrap_err().contains("0 <= i < 4"));
}

#[test]
fn desired_state_is_set() {
    let mut state = DesiredState::default();
    assert!(state.interfaces.is_empty() && state.nft_rules.is_empty());
    let r = netop_request(&mut state, &custom("state.set", to_vec(&desired())));
    assert!(matches!(r, Some(ControlReply::Done)));
    assert_eq!(to_vec(&state), to_vec(&desired()));
    // A refused request leaves it alone.
    let r = netop_request(&mut state, &custom("state.set", vec![3, 1]));
    assert_eq!(error_of(r), from_slice::<DesiredState>(&[3, 1]).unwrap_err());
    let r = netop_request(&mut state, &custom("state.get", vec![]));
    assert_eq!(error_of(r), "unknown tag: state.get");
    assert!(netop_request(&mut state, &to_vec(&ControlOp::Shutdown)).is_none());
    assert_eq!(to_vec(&state), to_vec(&desired()));
    assert_eq!(default_reconcile_secs(), 5);
    assert_eq!(NetopConfig::default().reconcile_secs, 5);
}

// The image daemon.

fn image(id: &str) -> ImageEntry {
    ImageEntry {
        id: id.to_string(),
        kind: ImageKind::Container,
        blake3: "00".to_string(),
        sha256: Some("11".to_string()),
        size_bytes: 70_000,
        path: "/p".to_string(),
    }
}

#[test]
fn images_are_listed() {
    let mut catalog: Catalog = Table::new();
    catalog.insert("a".to_string(), image("a"));
    catalog.insert("b".to_string(), image("b"));
    match image_request(&catalog, &custom("image.list", vec![])) {
        Some(ControlReply::Data { tag, payload }) => {
            assert_eq!(tag, "image.list");
            let one = |id: &str| (id.to_string(), 2u32, "00", Some("11"), 70_000u64, "/p");
            assert_eq!(payload, bin(vec![one("a"), one("b")]));
            let back = from_slice::<Vec<ImageEntry>>(&payload).unwrap();
            assert_eq!(back[1].id, "b");
            assert_eq!(back[1].kind, ImageKind::Container);
        }
        _ => panic!("no list"),
    }
}

#[test]
fn image_requests() {
    let catalog: Catalog = Table::new();
    for tag in ["image.create_kvm", "image.push"] {
        assert!(matches!(handle_image_cmd(tag, &catalog), ControlReply::Done));
    }
    assert_eq!(error_of(Some(handle_image_cmd("image.x", &catalog))), "unknown tag: image.x");
    assert_eq!(error_of(image_request(&catalog, &custom("x", vec![]))), "unknown tag: x");
    assert_eq!(error_of(image_request(&catalog, &to_vec(&ControlOp::StepDown))), "unsupported op");
    assert!(image_request(&catalog, &to_vec(&ControlOp::Shutdown)).is_none());
    assert!(from_slice::<ImageKind>(&[3]).unwrap_err().contains("0 <= i < 3"));
    assert_eq!(default_store_dir(), "/var/lib/hivebus/images");
    assert_eq!(default_chunk_port(), 7779);
    let cfg = ImagerConfig::default();
    assert_eq!((cfg.store_dir.as_str(), cfg.chunk_port), ("/var/lib/hivebus/images", 7779));
}

#[test]
fn chunk_requests() {
    let digest = [0xab; 32];
    let mut expected = vec![0x01, 0, 0, 1, 2];
    expected.extend_from_slice(&digest);
    expected.extend_from_slice(&[0, 0, 0, 0]);
    assert_eq!(build_request(258, &digest), expected);
    let codes: Vec<u8> = [ChunkCmd::Request, ChunkCmd::Send, ChunkCmd::List, ChunkCmd::Nack]
        .iter()
        .map(|c| c.code())
        .collect();
    assert_eq!(codes, vec![1, 2, 3, 4]);
    assert_eq!(CHUNK_SIZE, 65536);
}

#[test]
fn disk_images_are_created() {
    let (path, args) = create_qcow2("/var/images", "vm1", 20);
    assert_eq!(path, "/var/images/vm1.qcow2");
    assert_eq!(args, vec!["create", "-f", "qcow2", "/var/images/vm1.qcow2", "20G"]);
    for (dir, id) in [("/a/", "x"), ("", "x"), ("/a", "/x"), ("/a", ""), ("/a", "../x")] {
        let expected = std::path::PathBuf::from(dir).join(format!("{}.qcow2", id));
        assert_eq!(create_qcow2(dir, id, 1).0, expected.to_string_lossy());
    }
}

#[test]
fn digests_of_images() {
    let empty = ImageHasher::new();
    assert_eq!(
        empty.hex(),
        "af1349b9f5f9a1a6a0404dea36dcc9499bcb25c9adc112b7cc9a93cae41f3262"
    );
    let data: Vec<u8> = (0..200_000u32).map(|i| (i % 251) as u8).collect();
    let mut h = ImageHasher::new();
    for piece in data.chunks(CHUNK_SIZE) {
        assert!(h.absorb(piece));
    }
    assert_eq!(h.hex(), blake3::hash(&data).to_hex().to_string());
    assert_eq!(h.hex().len(), 64);
    assert!(h.hex().chars().all(|c| matches!(c, '0'..='9' | 'a'..='f')));
}

// The workload daemon.

fn workload() -> WorkloadSpec {
    WorkloadSpec {
        id: "w1".to_string(),
        kind: VirtKind::Lxc,
        image: "debian".to_string(),
        cpus: 2,
        memory_mb: 512,
        extra: vec![("k".to_string(), "v".to_string())],
    }
}

#[test]
fn workloads_on_the_wire() {
    let expected = bin(("w1", 1u32, "debian", 2u32, 512u64, vec![("k", "v")]));
    assert_eq!(to_vec(&workload()), expected);
    let back = from_slice::<WorkloadSpec>(&expected).unwrap();
    assert_eq!(back.extra, vec![("k".to_string(), "v".to_string())]);
    assert_eq!(back.kind, VirtKind::Lxc);
}

#[test]
fn workload_requests() {
    match virt_request(&custom("vm.create", to_vec(&workload()))) {
        VirtAction::CreateVm { id, memory_mb } => {
            assert_eq!(id, "w1");
            assert_eq!(memory_mb, 512);
        }
        _ => panic!("not created"),
    }
    let a = virt_request(&custom("lxc.create", to_vec(&workload())));
    assert!(matches!(a, VirtAction::Reply(ControlReply::Done)));
    match virt_request(&custom("ct.create", to_vec(&workload()))) {
        VirtAction::CreateCt { id, image } => {
            assert_eq!(id, "w1");
            assert_eq!(image, workload().image);
        }
        _ => panic!("not created"),
    }
    for tag in ["vm.create", "lxc.create", "ct.create"] {
        match handle_command(tag, &[1]) {
            VirtAction::Reply(ControlReply::Error { message }) => {
                assert_eq!(message, "invalid payload")
            }
            _ => panic!("not refused"),
        }
    }
    for tag in ["ct.pause", "vm", "", "vm.create "] {
        match handle_command(tag, &[]) {
            VirtAction::Reply(r) => assert_eq!(error_of(Some(r)), format!("unknown tag: {tag}")),
            _ => panic!("not refused"),
        }
    }
    assert!(matches!(virt_request(&to_vec(&ControlOp::Shutdown)), VirtAction::Exit));
    assert!(matches!(virt_request(&[0]), VirtAction::Reply(ControlReply::Done)));
    assert_eq!(create_container("a", "b"), Ok(()));
    assert!(matches!(vm_reply(Ok(())), ControlReply::Done));
    assert_eq!(error_of(Some(vm_reply(Err("no kvm".to_string())))), "no kvm");
    let cfg = OrchestratorConfig::default();
    assert_eq!(cfg.containerd_socket, "/run/containerd/containerd.sock");
    assert_eq!(cfg.cgroup_parent, "/hivebus");
    assert_eq!(cfg.image_dir, "/var/lib/hivebus/images");
}

#[test]
fn workloads_are_tended() {
    let kinds = [("vm", VirtKind::Kvm), ("lxc", VirtKind::Lxc), ("ct", VirtKind::Container)];
    let words = [
        ("delete", Upkeep::Delete),
        ("start", Upkeep::Start),
        ("stop", Upkeep::Stop),
        ("list", Upkeep::List),
    ];
    for (prefix, of) in kinds {
        for (word, what) in words {
            match virt_request(&custom(&format!("{prefix}.{word}"), vec![1, 2])) {
                VirtAction::Tend { kind, upkeep, payload } => {
                    assert_eq!((kind, upkeep), (of, what));
                    assert_eq!(payload, vec![1, 2]);
                }
                _ => panic!("not tended"),
            }
        }
    }
}

#[test]
fn workloads_are_listed() {
    let kinds = [("vm", VirtKind::Kvm), ("lxc", VirtKind::Lxc), ("ct", VirtKind::Container)];
    let pids = [None, Some(7), Some(-1), Some(i32::MAX), Some(i32::MIN)];
    for (prefix, kind) in kinds {
        let all: Vec<WorkloadStatus> = pids
            .iter()
            .map(|pid| WorkloadStatus { id: "w".to_string(), kind, running: true, pid: *pid })
            .collect();
        let number = match kind {
            VirtKind::Kvm => 0u32,
            VirtKind::Lxc => 1,
            VirtKind::Container => 2,
        };
        let expected: Vec<(&str, u32, bool, Option<i32>)> =
            pids.iter().map(|pid| ("w", number, true, *pid)).collect();
        match upkeep_reply(kind, Upkeep::List, Ok(all)) {
            ControlReply::Data { tag, payload } => {
                assert_eq!(tag, format!("{prefix}.list"));
                assert_eq!(payload, bin(expected));
                let back = from_slice::<Vec<WorkloadStatus>>(&payload).unwrap();
                assert_eq!(back.len(), pids.len());
                for (w, pid) in back.iter().zip(pids) {
                    assert_eq!((w.id.as_str(), w.kind, w.running, w.pid), ("w", kind, true, pid));
                }
            }
            _ => panic!("no list"),
        }
    }
    for upkeep in [Upkeep::Delete, Upkeep::Start, Upkeep::Stop] {
        let r = upkeep_reply(VirtKind::Lxc, upkeep, Ok(Vec::new()));
        assert!(matches!(r, ControlReply::Done));
    }
    for upkeep in [Upkeep::Stop, Upkeep::List] {
        let r = upkeep_reply(VirtKind::Kvm, upkeep, Err("no such machine".to_string()));
        assert_eq!(error_of(Some(r)), "no such machine");
    }
    let cut: Result<(i32, usize), bincode::error::DecodeError> =
        bincode::serde::decode_from_slice(&[252, 1], bincode::config::standard());
    assert_eq!(from_slice::<i32>(&[252, 1]), Err(cut.unwrap_err().to_string()));
}

// The inspector.

fn node(id: u16, host: &str, state: NodeState) -> NodeInfo {
    NodeInfo {
        node_id: id,
        hostname: host.to_string(),
        control_addr: sock(1, 7778),
        state,
        incarnation: 1,
        last_seen: Timestamp { secs: 100, nanos: 0 },
        is_master: false,
    }
}

fn nodes(n: u16) -> Vec<NodeInfo> {
    (1..=n).map(|i| node(i, "h", NodeState::Alive)).collect()
}

#[test]
fn selection_follows_the_nodes() {
    let mut app = App::new(DEFAULT_SOCKET.to_string());
    assert_eq!(app.error, Some("connecting…".to_string()));
    assert_eq!(app.socket_path, "/var/run/hivebus/hivebus.sock");
    assert_eq!(app.selected, None);
    app.refresh(Ok((vec![], None)));
    assert_eq!((app.selected, app.error.is_none()), (None, true));
    app.scroll_down();
    assert_eq!(app.selected, None);
    app.refresh(Ok((nodes(3), Some(1))));
    assert_eq!(app.selected, Some(0));
    assert_eq!(app.master_id, Some(1));
    app.scroll_up();
    assert_eq!(app.selected, Some(0));
    for expected in [1, 2, 2] {
        app.scroll_down();
        assert_eq!(app.selected, Some(expected));
    }
    app.refresh(Ok((nodes(2), None)));
    assert_eq!(app.selected, Some(1));
    app.scroll_up();
    assert_eq!(app.selected, Some(0));
    // A failure keeps what is shown.
    app.refresh(Err("gone".to_string()));
    assert_eq!(app.error, Some("gone".to_string()));
    assert_eq!(app.nodes.len(), 2);
    app.select(None);
    app.scroll_up();
    assert_eq!(app.selected, None);
    app.scroll_down();
    assert_eq!(app.selected, Some(1));
}

#[test]
fn replies_are_read() {
    match nodes_reply(ControlReply::Nodes(nodes(2))) {
        NodesReply::Nodes(n) => assert_eq!(n.len(), 2),
        _ => panic!("no nodes"),
    }
    match nodes_reply(ControlReply::Error { message: "x".to_string() }) {
        NodesReply::Refused(s) => assert_eq!(s, "hivebus GetNodes error: x"),
        _ => panic!("not refused"),
    }
    assert!(matches!(
        nodes_reply(ControlReply::Done),
        NodesReply::Unexpected(ControlReply::Done)
    ));
    let m = node(7, "h", NodeState::Alive);
    assert_eq!(master_reply(ControlReply::Master(Some(m))), Some(7));
    assert_eq!(master_reply(ControlReply::Master(None)), None);
    assert_eq!(master_reply(ControlReply::Done), None);
}

#[test]
fn keys_are_commands() {
    let key = |c: char, control: bool| command_for(Key::Char { c, control });
    assert_eq!(key('q', false), Command::Quit);
    assert_eq!(key('q', true), Command::Quit);
    assert_eq!(key('c', true), Command::Quit);
    assert_eq!(key('c', false), Command::Nothing);
    assert_eq!(key('r', false), Command::Refresh);
    assert_eq!(key('x', false), Command::Nothing);
    assert_eq!(command_for(Key::Up), Command::ScrollUp);
    assert_eq!(command_for(Key::Down), Command::ScrollDown);
    assert_eq!(command_for(Key::Other), Command::Nothing);
}

#[test]
fn keys_scroll() {
    let mut app = App::new("/s".to_string());
    let nodes = vec![node(1, "a", NodeState::Alive), node(2, "b", NodeState::Alive)];
    app.refresh(Ok((nodes, None)));
    let quit = Key::Char { c: 'q', control: false };
    let refresh = Key::Char { c: 'r', control: false };
    for (key, command, selected) in [
        (Key::Down, Command::ScrollDown, 1),
        (Key::Down, Command::ScrollDown, 1),
        (quit, Command::Quit, 1),
        (refresh, Command::Refresh, 1),
        (Key::Other, Command::Nothing, 1),
        (Key::Up, Command::ScrollUp, 0),
        (Key::Up, Command::ScrollUp, 0),
    ] {
        assert_eq!(app.key(key), command);
        assert_eq!(app.selected, Some(selected));
        assert_eq!(app.nodes.len(), 2);
    }
}

#[test]
fn wording() {
    assert_eq!(span_text(0), "0s");
    assert_eq!(span_text(59), "59s");
    assert_eq!(span_text(60), "1m0s");
    assert_eq!(span_text(3671), "61m11s");
    assert_eq!(age_text(61), "1m1s ago");
    let seen = Timestamp { secs: 100, nanos: 500_000_000 };
    assert_eq!(last_seen_text(seen, Timestamp { secs: 102, nanos: 0 }), "1s");
    assert_eq!(last_seen_text(seen, Timestamp { secs: 100, nanos: 0 }), "?");
    let list = vec![
        node(1, "node1", NodeState::Alive),
        node(2, "node2", NodeState::Suspect),
        node(3, "node3", NodeState::Dead),
    ];
    assert_eq!(alive_count(&list), 1);
    assert_eq!(nodes_text(&list), "   nodes: 1/3 alive");
    assert_eq!(master_label(&list, Some(2)), "node2 (2)");
    assert_eq!(master_label(&list, Some(9)), "—");
    assert_eq!(master_label(&list, None), "—");
    assert_eq!(state_text(NodeState::Alive), "Alive");
    assert_eq!(state_text(NodeState::Suspect), "Suspect");
    assert_eq!(state_text(NodeState::Dead), "Dead");
    let now = Timestamp { secs: 161, nanos: 0 };
    let mut shown = node(3, "node3", NodeState::Suspect);
    assert_eq!(
        row_cells(&shown, "10.42.0.1:7778", now),
        vec!["3", "node3", "10.42.0.1:7778", "Suspect", "", "1m1s"]
    );
    shown.is_master = true;
    assert_eq!(row_cells(&shown, "a", now)[4], "★");
    let mut app = App::new("/s".to_string());
    assert!(!header_line(&app, 0).connected);
    app.refresh(Ok((list, Some(1))));
    let line = header_line(&app, 65);
    assert!(line.connected);
    assert_eq!(line.socket, "  socket: /s   ");
    assert_eq!(line.master, "node1 (1)");
    assert_eq!(line.nodes, "   nodes: 1/3 alive");
    assert_eq!(line.updated, "   updated 1m5s ago");
    assert_eq!(centered_margin(70), 15);
    assert_eq!(centered_margin(30), 35);
    assert!(refresh_due(Duration::from_secs(1)));
    assert!(!refresh_due(Duration::from_millis(999)));
}
