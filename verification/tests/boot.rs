//! Hardware addresses, boot entries, scripts and paths.

use hivebus::addr::Ipv4Addr;
use hivebus::boot::{
    boot_request, check_pool, default_boot_file, default_lease_secs, default_mask,
    default_script_path, default_tftp_root, discovered_entry, render_ipxe_script,
    write_ipxe_script, BootAction, BootEntry, BootTable, PxeConfig, ScriptFile,
};
use hivebus::control::{ControlOp, ControlReply};
use hivebus::mac::{
    derive_node_id, fmt_mac, is_white_space, node_id_from_mac, parse_mac, trim, MacError,
};
use hivebus::path::sanitize_tftp_path;
use hivebus::table::Table;
use hivebus::wire::{from_slice, to_vec};

const MAC: [u8; 6] = [0x08, 0x00, 0x27, 0xab, 0xcd, 0xef];

fn config() -> PxeConfig {
    PxeConfig {
        server_ip: Ipv4Addr::new(10, 42, 0, 11),
        pool_start: Ipv4Addr::new(10, 42, 0, 100),
        pool_end: Ipv4Addr::new(10, 42, 0, 102),
        subnet_mask: default_mask(),
        gateway: None,
        tftp_root: default_tftp_root(),
        boot_file: default_boot_file(),
        seed_url: None,
        lease_secs: default_lease_secs(),
    }
}

fn entry() -> BootEntry {
    BootEntry {
        hostname: "web1".to_string(),
        ip: Some(Ipv4Addr::new(10, 42, 0, 50)),
        ipxe_script: None,
        tags: Table::new(),
    }
}

fn custom(tag: &str, payload: Vec<u8>) -> Vec<u8> {
    to_vec(&ControlOp::Custom { tag: tag.to_string(), payload })
}

#[test]
fn node_numbers() {
    assert_eq!(node_id_from_mac(&[0x00, 0x11, 0x22, 0x33, 0x44, 0x55]), 0x6677);
    assert_eq!(node_id_from_mac(&MAC), 0xe244);
    // A change in one octet changes the number.
    let mut other = MAC;
    other[4] = 0;
    assert_ne!(node_id_from_mac(&other), node_id_from_mac(&MAC));
}

#[test]
fn written_addresses() {
    assert_eq!(fmt_mac(&MAC), "08:00:27:ab:cd:ef");
    assert_eq!(parse_mac("08:00:27:ab:cd:ef").unwrap(), MAC);
    assert_eq!(parse_mac("8:0:27:AB:cD:0ef").unwrap(), MAC);
    assert_eq!(parse_mac("+8:0:27:AB:cD:ef").unwrap(), MAC);
    assert_eq!(parse_mac(&fmt_mac(&MAC)).unwrap(), MAC);
}

#[test]
fn addresses_that_are_refused() {
    for (s, part) in [
        ("08:00:27:ab:cd:eg", "eg"),
        ("", ""),
        ("08::27:ab:cd:ef", ""),
        ("08:00:27:ab:cd:100", "100"),
        ("08:00:27:ab:cd:-1", "-1"),
        ("zz:00", "zz"),
    ] {
        match parse_mac(s) {
            Err(MacError::Octet { mac, cause }) => {
                assert_eq!(mac, s);
                assert_eq!(cause, u8::from_str_radix(part, 16).unwrap_err().to_string());
            }
            _ => panic!("not refused: {}", s),
        }
    }
    for s in ["08:00:27:ab:cd", "08:00:27:ab:cd:ef:01"] {
        let e = parse_mac(s).unwrap_err();
        assert!(matches!(e, MacError::Length { .. }));
        assert_eq!(e.message(), format!("unexpected MAC length: {}", s));
    }
    assert_eq!(parse_mac("x").unwrap_err().message(), "parsing MAC x");
}

#[test]
fn numbers_of_interfaces() {
    assert_eq!(derive_node_id("08:00:27:ab:cd:ef\n").unwrap(), 0xe244);
    assert_eq!(derive_node_id(" \t08:00:27:ab:cd:ef \u{3000}\n").unwrap(), 0xe244);
    let e = derive_node_id("08:00:27\n").unwrap_err();
    assert_eq!(e.message(), "unexpected MAC length: 08:00:27");
    for s in ["", " ", "a b ", "\n\nx\u{85}", "\u{a0}y\u{2028}"] {
        assert_eq!(trim(s), s.trim());
    }
}

#[test]
fn settings_of_the_boot_service() {
    assert_eq!(default_mask().octets(), vec![255, 255, 255, 0]);
    assert_eq!(default_tftp_root(), "/var/lib/hivebus/tftp");
    assert_eq!(default_boot_file(), "ipxe.efi");
    assert_eq!(default_lease_secs(), 3600);
    let (a, b) = (Ipv4Addr::new(10, 42, 0, 100), Ipv4Addr::new(10, 42, 0, 200));
    assert!(check_pool(a, b).is_ok());
    assert!(check_pool(a, a).is_ok());
    assert_eq!(
        check_pool(b, a).unwrap_err(),
        "invalid DHCP pool: pool_start 10.42.0.200 is after pool_end 10.42.0.100"
    );
}

#[test]
fn paths_below_the_root() {
    let ok = |r: &str, s: &str| sanitize_tftp_path(r, s).unwrap();
    assert_eq!(ok("/srv", "a"), "/srv/a");
    assert_eq!(ok("/srv", "a/b.c"), "/srv/a/b.c");
    assert_eq!(ok("/srv/", "a//b/./c/"), "/srv/a/b/c");
    assert_eq!(ok("/srv", "./a"), "/srv/a");
    assert_eq!(ok("/srv", ""), "/srv");
    assert_eq!(ok("", "a/b"), "a/b");
    assert_eq!(ok("/srv", "..a/b../..."), "/srv/..a/b../...");
    assert_eq!(ok("/", "ä/日本"), "/ä/日本");
    for s in ["/a", "..", "../a", "a/..", "a/../b", "a/./../b", "//a", "/"] {
        assert!(sanitize_tftp_path("/srv", s).is_none(), "{}", s);
    }
}

#[test]
fn paths_are_those_of_the_system() {
    for r in ["/srv", "/srv/", "", "rel"] {
        for s in ["a", "a/b", "./a//b/.", "", ".", "a/", "..", "a/..", "/x", "a/b/../c", ".../x"] {
            let mut expected = Some(std::path::PathBuf::from(r));
            for c in std::path::Path::new(s).components() {
                match c {
                    std::path::Component::Normal(seg) => {
                        if let Some(p) = expected.as_mut() {
                            p.push(seg)
                        }
                    }
                    std::path::Component::CurDir => {}
                    _ => expected = None,
                }
            }
            let got = sanitize_tftp_path(r, s);
            assert_eq!(got, expected.map(|p| p.to_string_lossy().into_owned()), "{} {}", r, s);
        }
    }
}

#[test]
fn scripts_of_new_nodes() {
    assert_eq!(default_script_path(&MAC), "scripts/08:00:27:ab:cd:ef.ipxe");
    let e = discovered_entry(&MAC);
    assert_eq!(e.hostname, "node-08:00:27:ab:cd:ef");
    assert_eq!(e.ip, None);
    assert_eq!(e.ipxe_script, Some("scripts/08:00:27:ab:cd:ef.ipxe".to_string()));
    assert!(e.tags.rows().is_empty());
    match write_ipxe_script(&config(), &MAC, &e) {
        ScriptFile::File { path, contents } => {
            assert_eq!(path, "/var/lib/hivebus/tftp/scripts/08:00:27:ab:cd:ef.ipxe");
            assert_eq!(
                contents,
                "#!ipxe\n\
                 echo hivebus bootstrap for node-08:00:27:ab:cd:ef (08:00:27:ab:cd:ef)\n\
                 set seed-url http://10.42.0.11:7780/seed.tar.gz\n\
                 chain http://10.42.0.11:7780/seed.tar.gz\n"
            );
        }
        _ => panic!("no script"),
    }
}

#[test]
fn seeds_of_scripts() {
    let mut cfg = config();
    let mut e = entry();
    cfg.seed_url = Some("http://seed/a".to_string());
    assert!(render_ipxe_script(&cfg, &MAC, &e).contains("chain http://seed/a\n"));
    e.tags.insert("seed_url".to_string(), "http://own/b".to_string());
    let s = render_ipxe_script(&cfg, &MAC, &e);
    assert!(s.contains("set seed-url http://own/b\n"));
    assert!(s.contains("chain http://own/b\n"));
    assert!(s.starts_with("#!ipxe\necho hivebus bootstrap for web1 (08:00:27:ab:cd:ef)\n"));
}

#[test]
fn scripts_that_are_not_written() {
    let mut e = entry();
    assert!(matches!(write_ipxe_script(&config(), &MAC, &e), ScriptFile::Nothing));
    e.ipxe_script = Some("../../etc/passwd".to_string());
    assert!(matches!(write_ipxe_script(&config(), &MAC, &e), ScriptFile::InvalidPath));
    e.ipxe_script = Some("/etc/passwd".to_string());
    assert!(matches!(write_ipxe_script(&config(), &MAC, &e), ScriptFile::InvalidPath));
}

#[test]
fn entries_on_the_wire() {
    let mut e = entry();
    e.tags.insert("a".to_string(), "b".to_string());
    let ip = [10u8, 42, 0, 50];
    let expected = bincode::serde::encode_to_vec(
        ("web1", Some(ip), None::<String>, vec![("a", "b")]),
        bincode::config::standard(),
    )
    .unwrap();
    assert_eq!(to_vec(&e), expected);
    assert_eq!(to_vec(&from_slice::<BootEntry>(&expected).unwrap()), expected);
}

#[test]
fn registration_and_list() {
    let cfg = config();
    let mut table: BootTable = Table::new();
    let mut e = entry();
    e.ipxe_script = Some("s.ipxe".to_string());
    let mut payload = to_vec(&MAC);
    payload.extend(to_vec(&e));
    match boot_request(&cfg, &mut table, &custom("boot.register", payload)) {
        BootAction::Registered { mac, hostname, script } => {
            assert_eq!(mac, MAC);
            assert_eq!(hostname, "web1");
            assert!(matches!(script, ScriptFile::File { .. }));
        }
        _ => panic!("not registered"),
    }
    assert_eq!(table.get(&MAC).unwrap().hostname, "web1");
    match boot_request(&cfg, &mut table, &custom("boot.list", vec![])) {
        BootAction::Reply(ControlReply::Data { tag, payload }) => {
            assert_eq!(tag, "boot.list");
            let list = from_slice::<Vec<(String, BootEntry)>>(&payload).unwrap();
            assert_eq!(list.len(), 1);
            assert_eq!(list[0].0, "08:00:27:ab:cd:ef");
            assert_eq!(to_vec(&list[0].1), to_vec(&e));
            let mut expected = vec![1];
            expected.extend(to_vec(&"08:00:27:ab:cd:ef".to_string()));
            expected.extend(to_vec(&e));
            assert_eq!(payload, expected);
        }
        _ => panic!("no list"),
    }
}

#[test]
fn boot_requests_that_are_refused() {
    let cfg = config();
    let mut table: BootTable = Table::new();
    match boot_request(&cfg, &mut table, &custom("boot.register", vec![1, 2])) {
        BootAction::Reply(ControlReply::Error { message }) => {
            assert_eq!(message, from_slice::<[u8; 6]>(&[1, 2]).unwrap_err())
        }
        _ => panic!("not refused"),
    }
    match boot_request(&cfg, &mut table, &custom("boot.what", vec![])) {
        BootAction::Reply(ControlReply::Error { message }) => {
            assert_eq!(message, "unknown tag: boot.what")
        }
        _ => panic!("not refused"),
    }
    assert!(matches!(
        boot_request(&cfg, &mut table, &to_vec(&ControlOp::Shutdown)),
        BootAction::Exit
    ));
    assert!(matches!(
        boot_request(&cfg, &mut table, &to_vec(&ControlOp::Ping)),
        BootAction::Reply(ControlReply::Done)
    ));
    assert!(table.rows().is_empty());
}

#[test]
fn white_space_is_that_of_unicode() {
    for c in '\0'..=char::MAX {
        assert_eq!(is_white_space(c), c.is_whitespace());
    }
}
