//! The DHCP server: reading requests, handing out addresses, writing replies.

use crate::addr::{IpAddr, Ipv4Addr, SocketAddr};
use crate::boot;
use crate::boot::{
    discovered_entry, write_ipxe_script, Boot, BootEntry, BootTable, Pxe, PxeConfig, Script,
    ScriptFile,
};
use crate::bus::control_addr;
use crate::clock::Timestamp;
use crate::frame;
use crate::frame::MsgType;
use crate::mac;
use crate::mac::{node_id_from_mac, Mac};
use crate::membership;
use crate::node::Node;
use crate::octets;
use crate::octets::{from_be, from_be16, to_be};
use crate::path;
use crate::payload::{Announce, AnnouncePayload};
use crate::table;
use crate::table::Table;
use crate::wire;
use crate::wire::Wire;
use vstd::prelude::*;
use vstd::slice::slice_subrange;

verus! {

pub const DHCP_SERVER_PORT: u16 = 67;

pub const DHCP_CLIENT_PORT: u16 = 68;

pub const OPT_SUBNET_MASK: u8 = 1;

pub const OPT_ROUTER: u8 = 3;

pub const OPT_LEASE_TIME: u8 = 51;

pub const OPT_MESSAGE_TYPE: u8 = 53;

pub const OPT_SERVER_ID: u8 = 54;

pub const OPT_TFTP_SERVER: u8 = 66;

pub const OPT_BOOT_FILE: u8 = 67;

pub const OPT_END: u8 = 255;

pub const DHCPDISCOVER: u8 = 1;

pub const DHCPOFFER: u8 = 2;

pub const DHCPREQUEST: u8 = 3;

pub const DHCPACK: u8 = 5;

/// The four bytes between the fixed part of a packet and its options.
pub open spec fn dhcp_magic() -> Seq<u8> {
    seq![99u8, 130u8, 83u8, 99u8]
}

// ---------------------------------------------------------------------------
// Leases
// ---------------------------------------------------------------------------

/// An address that is lent to a node.
#[derive(Debug, Clone, Copy, PartialEq, Eq, Structural)]
pub struct Lease {
    pub ip: Ipv4Addr,
    /// End of the lease, in seconds on the server's clock.
    pub expires: u128,
}

impl DeepView for Lease {
    type V = Lease;

    open spec fn deep_view(&self) -> Lease {
        *self
    }
}

/// The table of leases.
pub type LeaseTable = Table<Mac, Lease>;

/// Whether an address is lent to a node.
pub open spec fn in_use(leases: Seq<(Seq<u8>, Lease)>, ip: int) -> bool {
    exists|i: int| 0 <= i < leases.len() && (#[trigger] leases[i]).1.ip.bits == ip
}

/// The lowest address from `start` to `end` that is not lent.
pub open spec fn lowest_free(
    leases: Seq<(Seq<u8>, Lease)>,
    start: int,
    end: int,
) -> Option<Ipv4Addr>
    decreases end - start + 1,
{
    if start > end {
        None
    } else if !in_use(leases, start) {
        Some(Ipv4Addr { bits: start as u32 })
    } else {
        lowest_free(leases, start + 1, end)
    }
}

/// The address that is found is in the pool and is not lent, and all below it
/// are; none is found only if the whole pool is lent.
pub proof fn lowest_free_is_free(leases: Seq<(Seq<u8>, Lease)>, start: int, end: int)
    requires
        0 <= start,
        end <= u32::MAX,
    ensures
        match lowest_free(leases, start, end) {
            Some(ip) => start <= ip.bits <= end && !in_use(leases, ip.bits as int) && forall|x: int|
                start <= x < ip.bits ==> #[trigger] in_use(leases, x),
            None => forall|x: int| start <= x <= end ==> #[trigger] in_use(leases, x),
        },
    decreases end - start + 1,
{
    if start <= end && in_use(leases, start) {
        lowest_free_is_free(leases, start + 1, end);
    }
}

/// The address for a node: the one that its entry names, else the one that is
/// lent to it, else the lowest in the pool that is not lent.
pub open spec fn address_for(
    mac: Seq<u8>,
    boots: Seq<(Seq<u8>, Boot)>,
    leases: Seq<(Seq<u8>, Lease)>,
    pool_start: Ipv4Addr,
    pool_end: Ipv4Addr,
) -> Option<Ipv4Addr> {
    let fixed = match table::get(boots, mac) {
        Some(entry) => entry.ip,
        None => None,
    };
    match fixed {
        Some(ip) => Some(ip),
        None => match table::get(leases, mac) {
            Some(lease) => Some(lease.ip),
            None => lowest_free(leases, pool_start.bits as int, pool_end.bits as int),
        },
    }
}

fn lent(leases: &Vec<(Mac, Lease)>, ip: u32) -> (r: bool)
    ensures
        r == in_use(leases.deep_view(), ip as int),
{
    let ghost all = leases.deep_view();
    let mut i: usize = 0;
    while i < leases.len()
        invariant
            i <= leases@.len(),
            all == leases.deep_view(),
            forall|j: int| 0 <= j < i ==> (#[trigger] all[j]).1.ip.bits != ip,
        decreases leases@.len() - i,
    {
        assert(all[i as int] == leases@[i as int].deep_view());
        if leases[i].1.ip.bits == ip {
            return true;
        }
        i += 1;
    }
    false
}

fn find_free(
    leases: &Vec<(Mac, Lease)>,
    pool_start: Ipv4Addr,
    pool_end: Ipv4Addr,
) -> (r: Option<Ipv4Addr>)
    ensures
        r == lowest_free(leases.deep_view(), pool_start.bits as int, pool_end.bits as int),
{
    let ghost all = leases.deep_view();
    let end: u32 = pool_end.bits;
    let mut ip: u32 = pool_start.bits;
    while ip <= end
        invariant
            end == pool_end.bits,
            all == leases.deep_view(),
            lowest_free(all, pool_start.bits as int, end as int) == lowest_free(
                all,
                ip as int,
                end as int,
            ),
        decreases end - ip + 1,
    {
        if !lent(leases, ip) {
            return Some(Ipv4Addr { bits: ip });
        }
        if ip == end {
            assert(lowest_free(all, end + 1, end as int) is None);
            return None;
        }
        ip += 1;
    }
    None
}

/// The leases after the address for a node was looked up: where that is one
/// that is lent to it, the lease begins anew.
pub open spec fn after_allocation(
    mac: Seq<u8>,
    boots: Seq<(Seq<u8>, Boot)>,
    leases: Seq<(Seq<u8>, Lease)>,
    lease_secs: u32,
    now_secs: u64,
) -> Seq<(Seq<u8>, Lease)> {
    let fixed = match table::get(boots, mac) {
        Some(entry) => entry.ip,
        None => None,
    };
    match (fixed, table::get(leases, mac)) {
        (None, Some(lease)) => table::put(
            leases,
            mac,
            Lease { ip: lease.ip, expires: (now_secs + lease_secs) as u128 },
        ),
        _ => leases,
    }
}

/// The address for a node. `now_secs` is the time on the server's clock.
pub fn allocate_ip(
    mac: &Mac,
    boot_table: &BootTable,
    leases: &mut LeaseTable,
    pool_start: Ipv4Addr,
    pool_end: Ipv4Addr,
    lease_secs: u32,
    now_secs: u64,
) -> (r: Option<Ipv4Addr>)
    ensures
        r == address_for(
            mac@,
            boot_table.deep_view(),
            old(leases).deep_view(),
            pool_start,
            pool_end,
        ),
        final(leases).deep_view() == after_allocation(
            mac@,
            boot_table.deep_view(),
            old(leases).deep_view(),
            lease_secs,
            now_secs,
        ),
        table::distinct(old(leases).deep_view()),
{
    assert(mac.deep_view() =~= mac@);
    let rows = leases.rows();
    if let Some(entry) = boot_table.get(mac) {
        if let Some(ip) = entry.ip {
            return Some(ip);
        }
    }
    if let Some(lease) = leases.get(mac) {
        let ip = lease.ip;
        leases.insert(*mac, Lease { ip, expires: now_secs as u128 + lease_secs as u128 });
        return Some(ip);
    }
    find_free(rows, pool_start, pool_end)
}

// ---------------------------------------------------------------------------
// Requests
// ---------------------------------------------------------------------------

/// The message type that the options from `i` on give, where the options so
/// far gave `so_far`; the last one holds. Nothing where an option of that kind
/// is cut off before its value.
pub open spec fn type_from(opts: Seq<u8>, i: int, so_far: u8) -> Option<u8>
    decreases
            (if 0 <= i < opts.len() {
                opts.len() - i
            } else {
                0
            }),
{
    if i >= opts.len() || i < 0 {
        Some(so_far)
    } else if opts[i] == OPT_END {
        Some(so_far)
    } else if opts[i] == 0 {
        type_from(opts, i + 1, so_far)
    } else if i + 1 >= opts.len() {
        Some(so_far)
    } else {
        let len = opts[i + 1] as int;
        if opts[i] == OPT_MESSAGE_TYPE && len >= 1 {
            if i + 2 >= opts.len() {
                None
            } else {
                type_from(opts, i + 2 + len, opts[i + 2])
            }
        } else {
            type_from(opts, i + 2 + len, so_far)
        }
    }
}

/// The message type in the options of a packet, 0 if there is none.
pub fn message_type(opts: &[u8]) -> (r: Option<u8>)
    ensures
        r == type_from(opts@, 0, 0),
{
    let mut msg_type: u8 = 0;
    let mut i: usize = 0;
    while i < opts.len()
        invariant
            type_from(opts@, 0, 0) == type_from(opts@, i as int, msg_type),
        decreases opts@.len() - i,
    {
        let opt: u8 = opts[i];
        if opt == OPT_END {
            return Some(msg_type);
        }
        if opt == 0 {
            i += 1;
            continue ;
        }
        if opts.len() - i <= 1 {
            return Some(msg_type);
        }
        let len: usize = opts[i + 1] as usize;
        if opt == OPT_MESSAGE_TYPE && len >= 1 {
            if opts.len() - i <= 2 {
                return None;
            }
            msg_type = opts[i + 2];
        }
        if opts.len() - i <= 2 + len {
            assert(type_from(opts@, i + 2 + len, msg_type) == Some(msg_type));
            return Some(msg_type);
        }
        i += 2 + len;
    }
    Some(msg_type)
}

/// Whether `data` is a DHCP packet.
pub open spec fn is_dhcp(data: Seq<u8>) -> bool {
    data.len() >= 240 && data.subrange(236, 240) == dhcp_magic()
}

// ---------------------------------------------------------------------------
// Replies
// ---------------------------------------------------------------------------

/// `n` zero bytes.
pub open spec fn zeros(n: nat) -> Seq<u8> {
    Seq::new(n, |i: int| 0u8)
}

/// The first `n` bytes of `s`, filled up with zeros.
pub open spec fn padded(s: Seq<u8>, n: nat) -> Seq<u8> {
    if s.len() >= n {
        s.take(n as int)
    } else {
        s + zeros((n - s.len()) as nat)
    }
}

/// As much of a boot file's name as a reply carries.
pub open spec fn boot_name(boot_file: Seq<char>) -> Seq<u8> {
    let b = vstd::utf8::encode_utf8(boot_file);
    if b.len() > 127 {
        b.take(127)
    } else {
        b
    }
}

/// The fixed part of a reply.
pub open spec fn reply_head(
    xid: u32,
    chaddr: Seq<u8>,
    yiaddr: Ipv4Addr,
    siaddr: Ipv4Addr,
    boot_file: Seq<char>,
) -> Seq<u8> {
    seq![2u8, 1u8, 6u8, 0u8] + octets::be_bytes(xid as nat, 4) + zeros(8) + yiaddr.spec_octets()
        + siaddr.spec_octets() + zeros(4) + padded(chaddr, 16) + zeros(64) + padded(
        boot_name(boot_file),
        128,
    )
}

/// The options of a reply.
pub open spec fn reply_options(
    op: u8,
    siaddr: Ipv4Addr,
    subnet: Ipv4Addr,
    gateway: Option<Ipv4Addr>,
    lease_secs: u32,
    boot_file: Seq<char>,
) -> Seq<u8> {
    let name = boot_name(boot_file);
    seq![OPT_MESSAGE_TYPE, 1u8, op] + seq![OPT_SERVER_ID, 4u8] + siaddr.spec_octets() + seq![
        OPT_SUBNET_MASK,
        4u8,
    ] + subnet.spec_octets() + (match gateway {
        Some(gw) => seq![OPT_ROUTER, 4u8] + gw.spec_octets(),
        None => seq![],
    }) + seq![OPT_LEASE_TIME, 4u8] + octets::be_bytes(lease_secs as nat, 4) + seq![
        OPT_TFTP_SERVER,
        4u8,
    ] + siaddr.spec_octets() + seq![OPT_BOOT_FILE, name.len() as u8] + name + seq![OPT_END]
}

/// A reply.
pub open spec fn dhcp_reply(
    op: u8,
    xid: u32,
    chaddr: Seq<u8>,
    yiaddr: Ipv4Addr,
    siaddr: Ipv4Addr,
    subnet: Ipv4Addr,
    gateway: Option<Ipv4Addr>,
    lease_secs: u32,
    boot_file: Seq<char>,
) -> Seq<u8> {
    reply_head(xid, chaddr, yiaddr, siaddr, boot_file) + dhcp_magic() + reply_options(
        op,
        siaddr,
        subnet,
        gateway,
        lease_secs,
        boot_file,
    )
}

fn push_zeros(out: &mut Vec<u8>, n: usize)
    ensures
        final(out)@ == old(out)@ + zeros(n as nat),
{
    let mut i: usize = 0;
    while i < n
        invariant
            i <= n,
            out@ == old(out)@ + zeros(i as nat),
        decreases n - i,
    {
        out.push(0u8);
        i += 1;
        assert(out@ =~= old(out)@ + zeros(i as nat));
    }
    assert(out@ =~= old(out)@ + zeros(n as nat));
}

fn push_padded(out: &mut Vec<u8>, s: &[u8], n: usize)
    ensures
        final(out)@ == old(out)@ + padded(s@, n as nat),
{
    if s.len() >= n {
        out.extend_from_slice(slice_subrange(s, 0, n));
        assert(out@ =~= old(out)@ + padded(s@, n as nat));
    } else {
        out.extend_from_slice(s);
        push_zeros(out, n - s.len());
        assert(out@ =~= old(out)@ + padded(s@, n as nat));
    }
}

fn push_octets(out: &mut Vec<u8>, ip: Ipv4Addr)
    ensures
        final(out)@ == old(out)@ + ip.spec_octets(),
{
    let mut o = ip.octets();
    out.append(&mut o);
}

fn push_two(out: &mut Vec<u8>, a: u8, b: u8)
    ensures
        final(out)@ == old(out)@ + seq![a, b],
{
    out.push(a);
    out.push(b);
    assert(out@ =~= old(out)@ + seq![a, b]);
}

fn cut_name(boot_file: &str) -> (r: &[u8])
    ensures
        r@ == boot_name(boot_file@),
        r@.len() <= 127,
{
    let b = boot_file.as_bytes();
    if b.len() > 127 {
        let cut = slice_subrange(b, 0, 127);
        assert(cut@ =~= b@.take(127));
        cut
    } else {
        b
    }
}

/// Writes a reply.
pub fn build_dhcp_reply(
    op: u8,
    xid: u32,
    chaddr: &[u8],
    yiaddr: Ipv4Addr,
    siaddr: Ipv4Addr,
    subnet: Ipv4Addr,
    gateway: Option<Ipv4Addr>,
    lease_secs: u32,
    boot_file: &str,
) -> (r: Vec<u8>)
    ensures
        r@ == dhcp_reply(
            op,
            xid,
            chaddr@,
            yiaddr,
            siaddr,
            subnet,
            gateway,
            lease_secs,
            boot_file@,
        ),
{
    let name = cut_name(boot_file);
    let mut pkt: Vec<u8> = Vec::new();
    push_two(&mut pkt, 2, 1);
    push_two(&mut pkt, 6, 0);
    assert(pkt@ =~= seq![2u8, 1u8, 6u8, 0u8]);
    let mut digits = to_be(xid as u128, 4);
    pkt.append(&mut digits);
    push_zeros(&mut pkt, 8);
    push_octets(&mut pkt, yiaddr);
    push_octets(&mut pkt, siaddr);
    push_zeros(&mut pkt, 4);
    push_padded(&mut pkt, chaddr, 16);
    push_zeros(&mut pkt, 64);
    push_padded(&mut pkt, name, 128);
    assert(pkt@ == reply_head(xid, chaddr@, yiaddr, siaddr, boot_file@));
    push_two(&mut pkt, 99, 130);
    push_two(&mut pkt, 83, 99);
    assert(pkt@ =~= reply_head(xid, chaddr@, yiaddr, siaddr, boot_file@) + dhcp_magic());
    let mut opts: Vec<u8> = Vec::new();
    push_two(&mut opts, OPT_MESSAGE_TYPE, 1);
    opts.push(op);
    assert(opts@ =~= seq![OPT_MESSAGE_TYPE, 1u8, op]);
    push_two(&mut opts, OPT_SERVER_ID, 4);
    push_octets(&mut opts, siaddr);
    push_two(&mut opts, OPT_SUBNET_MASK, 4);
    push_octets(&mut opts, subnet);
    let ghost before = opts@;
    match gateway {
        Some(gw) => {
            push_two(&mut opts, OPT_ROUTER, 4);
            push_octets(&mut opts, gw);
            assert(opts@ =~= before + (seq![OPT_ROUTER, 4u8] + gw.spec_octets()));
        },
        None => {
            assert(opts@ =~= before + seq![]);
        },
    }
    push_two(&mut opts, OPT_LEASE_TIME, 4);
    let mut secs = to_be(lease_secs as u128, 4);
    opts.append(&mut secs);
    push_two(&mut opts, OPT_TFTP_SERVER, 4);
    push_octets(&mut opts, siaddr);
    push_two(&mut opts, OPT_BOOT_FILE, name.len() as u8);
    opts.extend_from_slice(name);
    let ghost almost = opts@;
    opts.push(OPT_END);
    assert(opts@ =~= almost + seq![OPT_END]);
    assert(opts@ == reply_options(op, siaddr, subnet, gateway, lease_secs, boot_file@));
    pkt.append(&mut opts);
    pkt
}

// ---------------------------------------------------------------------------
// The server
// ---------------------------------------------------------------------------

/// What the server does about a packet.
#[derive(Debug)]
pub enum DhcpAction {
    /// Nothing: it is no request.
    Ignore,
    /// Nothing can be read of it: the option with the message type is cut off.
    Truncated,
    /// The pool is exhausted: see to the script of the node, answer nothing.
    Exhausted { mac: Mac, msg_type: u8, discovered: bool, script: ScriptFile },
    /// See to the script of the node, and send `packet` to `target`. New
    /// hardware is registered with the cluster: `registration` is its number
    /// and the announcement to be sent for it.
    Reply {
        mac: Mac,
        msg_type: u8,
        discovered: bool,
        script: ScriptFile,
        packet: Vec<u8>,
        target: SocketAddr,
        registration: Option<(u16, AnnouncePayload)>,
    },
}

/// The mathematical form of a [`DhcpAction`].
#[verifier::ext_equal]
pub enum DhcpStep {
    Ignore,
    Truncated,
    Exhausted { mac: Seq<u8>, msg_type: u8, discovered: bool, script: Script },
    Reply {
        mac: Seq<u8>,
        msg_type: u8,
        discovered: bool,
        script: Script,
        packet: Seq<u8>,
        target: SocketAddr,
        registration: Option<(u16, Announce)>,
    },
}

impl DeepView for DhcpAction {
    type V = DhcpStep;

    open spec fn deep_view(&self) -> DhcpStep {
        match self {
            DhcpAction::Ignore => DhcpStep::Ignore,
            DhcpAction::Truncated => DhcpStep::Truncated,
            DhcpAction::Exhausted { mac, msg_type, discovered, script } => DhcpStep::Exhausted {
                mac: mac@,
                msg_type: *msg_type,
                discovered: *discovered,
                script: script.deep_view(),
            },
            DhcpAction::Reply {
                mac,
                msg_type,
                discovered,
                script,
                packet,
                target,
                registration,
            } => DhcpStep::Reply {
                mac: mac@,
                msg_type: *msg_type,
                discovered: *discovered,
                script: script.deep_view(),
                packet: packet@,
                target: *target,
                registration: registration.deep_view(),
            },
        }
    }
}

/// The entries after a node asked: it has one from then on.
pub open spec fn with_entry(boots: Seq<(Seq<u8>, Boot)>, mac: Seq<u8>) -> Seq<(Seq<u8>, Boot)> {
    if table::holds(boots, mac) {
        boots
    } else {
        table::put(boots, mac, boot::new_entry(mac))
    }
}

/// What a node boots: its script, or else the file for all.
pub open spec fn boot_file_of(cfg: Pxe, entry: Boot) -> Seq<char> {
    match entry.ipxe_script {
        Some(name) => name,
        None => cfg.boot_file,
    }
}

/// How new hardware is registered with the cluster: under the number that its
/// address gives, with the host name of its entry, at the address that it is
/// offered. It runs no software yet, so the version is empty, and the
/// incarnation is lower than any that it will have.
pub open spec fn registered(mac: Seq<u8>, entry: Boot, ip: Ipv4Addr) -> (u16, Announce) {
    (
        mac::node_id_of(mac),
        Announce {
            incarnation: 0,
            hostname: entry.hostname,
            control_addr: SocketAddr { ip: IpAddr::V4(ip), port: 7778 },
            version: ""@,
        },
    )
}

/// The number and the announcement with which new hardware is registered.
pub fn register(mac: &Mac, entry: &BootEntry, ip: Ipv4Addr) -> (r: (u16, AnnouncePayload))
    ensures
        r.deep_view() == registered(mac@, entry.deep_view(), ip),
{
    (
        node_id_from_mac(mac),
        AnnouncePayload {
            incarnation: 0,
            hostname: entry.hostname.clone(),
            control_addr: control_addr(ip),
            version: "".to_owned(),
        },
    )
}

/// Where a reply goes: to all if the client asked for that, else to the
/// address that it is offered.
pub open spec fn target_of(flags: nat, ip: Ipv4Addr) -> SocketAddr {
    if flags >= 0x8000 {
        SocketAddr { ip: IpAddr::V4(Ipv4Addr { bits: 0xffff_ffff }), port: DHCP_CLIENT_PORT }
    } else {
        SocketAddr { ip: IpAddr::V4(ip), port: DHCP_CLIENT_PORT }
    }
}

/// The hardware address of the node that sent a packet.
pub open spec fn client_of(data: Seq<u8>) -> Seq<u8> {
    data.subrange(28, 34)
}

/// The message type of a packet: nothing where it cannot be read.
pub open spec fn type_of(data: Seq<u8>) -> Option<u8> {
    type_from(data.skip(240), 0, 0)
}

/// Entries and leases after the packet `data`, and what is done about it.
pub open spec fn after_dhcp(
    cfg: Pxe,
    boots: Seq<(Seq<u8>, Boot)>,
    leases: Seq<(Seq<u8>, Lease)>,
    data: Seq<u8>,
    now_secs: u64,
) -> (Seq<(Seq<u8>, Boot)>, Seq<(Seq<u8>, Lease)>, DhcpStep) {
    if !is_dhcp(data) {
        (boots, leases, DhcpStep::Ignore)
    } else {
        match type_of(data) {
            None => (boots, leases, DhcpStep::Truncated),
            Some(msg_type) => if msg_type != DHCPDISCOVER && msg_type != DHCPREQUEST {
                (boots, leases, DhcpStep::Ignore)
            } else {
                after_request(cfg, boots, leases, data, msg_type, now_secs)
            },
        }
    }
}

/// Entries and leases after the request `data`, and what is done about it.
pub open spec fn after_request(
    cfg: Pxe,
    boots: Seq<(Seq<u8>, Boot)>,
    leases: Seq<(Seq<u8>, Lease)>,
    data: Seq<u8>,
    msg_type: u8,
    now_secs: u64,
) -> (Seq<(Seq<u8>, Boot)>, Seq<(Seq<u8>, Lease)>, DhcpStep) {
    let mac = client_of(data);
    let discovered = !table::holds(boots, mac);
    let known = with_entry(boots, mac);
    let entry = known[table::place(known, mac)].1;
    let script = boot::script_file(cfg, mac, entry);
    match address_for(mac, known, leases, cfg.pool_start, cfg.pool_end) {
        None => (known, leases, DhcpStep::Exhausted { mac, msg_type, discovered, script }),
        Some(ip) => (
            known,
            table::put(
                leases,
                mac,
                Lease { ip, expires: (now_secs + cfg.lease_secs) as u128 },
            ),
            DhcpStep::Reply {
                mac,
                msg_type,
                discovered,
                script,
                packet: dhcp_reply(
                    if msg_type == DHCPDISCOVER {
                        DHCPOFFER
                    } else {
                        DHCPACK
                    },
                    octets::be_value(data.subrange(4, 8)) as u32,
                    data.subrange(28, 44),
                    ip,
                    cfg.server_ip,
                    cfg.subnet_mask,
                    cfg.gateway,
                    cfg.lease_secs,
                    boot_file_of(cfg, entry),
                ),
                target: target_of(octets::be_value(data.subrange(10, 12)), ip),
                registration: if discovered {
                    Some(registered(mac, entry, ip))
                } else {
                    None
                },
            },
        ),
    }
}

fn request(
    cfg: &PxeConfig,
    boot_table: &mut BootTable,
    leases: &mut LeaseTable,
    data: &[u8],
    msg_type: u8,
    now_secs: u64,
) -> (r: DhcpAction)
    requires
        data@.len() >= 240,
    ensures
        (final(boot_table).deep_view(), final(leases).deep_view(), r.deep_view()) == after_request(
            cfg.deep_view(),
            old(boot_table).deep_view(),
            old(leases).deep_view(),
            data@,
            msg_type,
            now_secs,
        ),
{
    let mac: Mac = [data[28], data[29], data[30], data[31], data[32], data[33]];
    let ghost m = client_of(data@);
    assert(mac@ =~= m);
    assert(mac.deep_view() =~= m);
    let discovered = boot_table.get(&mac).is_none();
    if discovered {
        boot_table.insert(mac, discovered_entry(&mac));
    }
    let ghost known = boot_table.deep_view();
    proof {
        if discovered {
            let k = old(boot_table).deep_view().len() as int;
            assert(known[k].0 == m);
            assert(table::holds(known, m));
        }
    }
    let (script, boot_file) = match boot_table.get(&mac) {
        Some(entry) => (
            write_ipxe_script(cfg, &mac, entry),
            match &entry.ipxe_script {
                Some(name) => name.clone(),
                None => cfg.boot_file.clone(),
            },
        ),
        None => (ScriptFile::Nothing, cfg.boot_file.clone()),
    };
    let ghost before = leases.deep_view();
    let found = allocate_ip(
        &mac,
        boot_table,
        leases,
        cfg.pool_start,
        cfg.pool_end,
        cfg.lease_secs,
        now_secs,
    );
    let ip = match found {
        Some(ip) => ip,
        None => {
            return DhcpAction::Exhausted { mac, msg_type, discovered, script };
        },
    };
    let lease = Lease { ip, expires: now_secs as u128 + cfg.lease_secs as u128 };
    leases.insert(mac, lease);
    proof {
        table::put_twice(before, m, lease, lease);
        octets::lemma_be_digits(data@.subrange(4, 8));
        octets::lemma_widths();
        assert(data@.subrange(10, 12) =~= seq![data@[10], data@[11]]);
    }
    let xid: u32 = from_be(slice_subrange(data, 4, 8)) as u32;
    let flags: u16 = from_be16(data[10], data[11]);
    let op: u8 = if msg_type == DHCPDISCOVER {
        DHCPOFFER
    } else {
        DHCPACK
    };
    let packet = build_dhcp_reply(
        op,
        xid,
        slice_subrange(data, 28, 44),
        ip,
        cfg.server_ip,
        cfg.subnet_mask,
        cfg.gateway,
        cfg.lease_secs,
        boot_file.as_str(),
    );
    let registration = match boot_table.get(&mac) {
        Some(entry) => if discovered {
            Some(register(&mac, entry, ip))
        } else {
            None
        },
        None => None,
    };
    let target = if flags >= 0x8000 {
        SocketAddr { ip: IpAddr::V4(Ipv4Addr { bits: 0xffff_ffff }), port: DHCP_CLIENT_PORT }
    } else {
        SocketAddr { ip: IpAddr::V4(ip), port: DHCP_CLIENT_PORT }
    };
    DhcpAction::Reply { mac, msg_type, discovered, script, packet, target, registration }
}

/// Takes in a packet. `now_secs` is the time on the server's clock.
pub fn dhcp_packet(
    cfg: &PxeConfig,
    boot_table: &mut BootTable,
    leases: &mut LeaseTable,
    data: &[u8],
    now_secs: u64,
) -> (r: DhcpAction)
    ensures
        (final(boot_table).deep_view(), final(leases).deep_view(), r.deep_view()) == after_dhcp(
            cfg.deep_view(),
            old(boot_table).deep_view(),
            old(leases).deep_view(),
            data@,
            now_secs,
        ),
{
    if data.len() < 240 {
        return DhcpAction::Ignore;
    }
    if data[236] != 99 || data[237] != 130 || data[238] != 83 || data[239] != 99 {
        proof {
            let m = data@.subrange(236, 240);
            assert(m[0] == data@[236] && m[1] == data@[237] && m[2] == data@[238] && m[3]
                == data@[239]);
        }
        return DhcpAction::Ignore;
    }
    assert(data@.subrange(236, 240) =~= dhcp_magic());
    let opts = slice_subrange(data, 240, data.len());
    assert(opts@ =~= data@.skip(240));
    match message_type(opts) {
        None => DhcpAction::Truncated,
        Some(msg_type) => {
            if msg_type != DHCPDISCOVER && msg_type != DHCPREQUEST {
                DhcpAction::Ignore
            } else {
                request(cfg, boot_table, leases, data, msg_type, now_secs)
            }
        },
    }
}

// ---------------------------------------------------------------------------
// What holds of the server
// ---------------------------------------------------------------------------

/// Whether no address is lent to two nodes.
pub open spec fn apart(leases: Seq<(Seq<u8>, Lease)>) -> bool {
    forall|i: int, j: int|
        0 <= i < j < leases.len() ==> (#[trigger] leases[i]).1.ip != (#[trigger] leases[j]).1.ip
}

/// A node gets an address of its own: as long as its entry names none, no
/// packet makes the server lend an address to two nodes.
pub proof fn addresses_stay_apart(
    cfg: Pxe,
    boots: Seq<(Seq<u8>, Boot)>,
    leases: Seq<(Seq<u8>, Lease)>,
    data: Seq<u8>,
    now_secs: u64,
)
    requires
        table::distinct(boots),
        table::distinct(leases),
        apart(leases),
        table::get(boots, client_of(data)) matches Some(entry) ==> entry.ip is None,
    ensures
        apart(after_dhcp(cfg, boots, leases, data, now_secs).1),
{
    let mac = client_of(data);
    let known = with_entry(boots, mac);
    table::put_then_get(boots, mac, boot::new_entry(mac), mac);
    let found = address_for(mac, known, leases, cfg.pool_start, cfg.pool_end);
    if let Some(ip) = found {
        let lease = Lease { ip, expires: (now_secs + cfg.lease_secs) as u128 };
        let after = table::put(leases, mac, lease);
        if table::holds(leases, mac) {
            let p = table::place(leases, mac);
            assert(leases[p].1.ip == ip);
            assert forall|i: int, j: int| 0 <= i < j < after.len() implies (
            #[trigger] after[i]).1.ip != (#[trigger] after[j]).1.ip by {
                assert(leases[i].1.ip != leases[j].1.ip);
            }
        } else {
            lowest_free_is_free(leases, cfg.pool_start.bits as int, cfg.pool_end.bits as int);
            assert forall|i: int, j: int| 0 <= i < j < after.len() implies (
            #[trigger] after[i]).1.ip != (#[trigger] after[j]).1.ip by {
                assert(after[i] == leases[i]);
                if j < leases.len() {
                    assert(after[j] == leases[j]);
                    assert(leases[i].1.ip != leases[j].1.ip);
                } else {
                    assert(leases[i].1.ip.bits != ip.bits);
                }
            }
        }
        assert(apart(after));
    }
}

/// Entries and leases after some packets, each with the time at which it came.
pub open spec fn after_packets(
    cfg: Pxe,
    boots: Seq<(Seq<u8>, Boot)>,
    leases: Seq<(Seq<u8>, Lease)>,
    packets: Seq<(Seq<u8>, u64)>,
) -> (Seq<(Seq<u8>, Boot)>, Seq<(Seq<u8>, Lease)>)
    decreases packets.len(),
{
    if packets.len() == 0 {
        (boots, leases)
    } else {
        let (b, l) = after_packets(cfg, boots, leases, packets.drop_last());
        let (data, now_secs) = packets.last();
        let next = after_dhcp(cfg, b, l, data, now_secs);
        (next.0, next.1)
    }
}

/// Whether no entry names an address.
pub open spec fn none_fixed(boots: Seq<(Seq<u8>, Boot)>) -> bool {
    forall|i: int| 0 <= i < boots.len() ==> (#[trigger] boots[i]).1.ip is None
}

/// Whether every address that is lent lies in the pool.
pub open spec fn in_pool(leases: Seq<(Seq<u8>, Lease)>, start: Ipv4Addr, end: Ipv4Addr) -> bool {
    forall|i: int|
        0 <= i < leases.len() ==> start.bits <= (#[trigger] leases[i]).1.ip.bits <= end.bits
}

/// A server that starts without leases, and whose entries name no address,
/// never lends an address to two nodes, nor one from outside the pool, whatever
/// packets come.
pub proof fn pool_is_shared_out(
    cfg: Pxe,
    boots: Seq<(Seq<u8>, Boot)>,
    packets: Seq<(Seq<u8>, u64)>,
)
    requires
        table::distinct(boots),
        none_fixed(boots),
    ensures
        ({
            let (b, l) = after_packets(cfg, boots, seq![], packets);
            &&& table::distinct(b)
            &&& table::distinct(l)
            &&& none_fixed(b)
            &&& apart(l)
            &&& in_pool(l, cfg.pool_start, cfg.pool_end)
        }),
    decreases packets.len(),
{
    if packets.len() > 0 {
        pool_is_shared_out(cfg, boots, packets.drop_last());
        let (b, l) = after_packets(cfg, boots, seq![], packets.drop_last());
        let (data, now_secs) = packets.last();
        lemma_packet_keeps(cfg, b, l, data, now_secs);
    }
}

proof fn lemma_packet_keeps(
    cfg: Pxe,
    boots: Seq<(Seq<u8>, Boot)>,
    leases: Seq<(Seq<u8>, Lease)>,
    data: Seq<u8>,
    now_secs: u64,
)
    requires
        table::distinct(boots),
        table::distinct(leases),
        none_fixed(boots),
        apart(leases),
        in_pool(leases, cfg.pool_start, cfg.pool_end),
    ensures
        ({
            let (b, l, _) = after_dhcp(cfg, boots, leases, data, now_secs);
            &&& table::distinct(b)
            &&& table::distinct(l)
            &&& none_fixed(b)
            &&& apart(l)
            &&& in_pool(l, cfg.pool_start, cfg.pool_end)
        }),
{
    let mac = client_of(data);
    let known = with_entry(boots, mac);
    if table::holds(boots, mac) {
        let p = table::place(boots, mac);
        assert(boots[p].1.ip is None);
    }
    table::put_then_get(boots, mac, boot::new_entry(mac), mac);
    assert(none_fixed(known)) by {
        assert forall|i: int| 0 <= i < known.len() implies (#[trigger] known[i]).1.ip is None by {
            if i < boots.len() {
                assert(known[i] == boots[i]);
            }
        }
    }
    addresses_stay_apart(cfg, boots, leases, data, now_secs);
    if let Some(ip) = address_for(mac, known, leases, cfg.pool_start, cfg.pool_end) {
        let lease = Lease { ip, expires: (now_secs + cfg.lease_secs) as u128 };
        let after = table::put(leases, mac, lease);
        table::put_then_get(leases, mac, lease, mac);
        lowest_free_is_free(leases, cfg.pool_start.bits as int, cfg.pool_end.bits as int);
        if table::holds(leases, mac) {
            let p = table::place(leases, mac);
            assert(leases[p].1.ip == ip);
        }
        assert(in_pool(after, cfg.pool_start, cfg.pool_end)) by {
            assert forall|i: int| 0 <= i < after.len() implies cfg.pool_start.bits <= (
            #[trigger] after[i]).1.ip.bits <= cfg.pool_end.bits by {
                if after[i].1 != lease {
                    assert(after[i] == leases[i]);
                }
            }
        }
    }
}

/// A node keeps its address: as long as its entry names none, a lease that it
/// has after some packets it still has, with the same address, after any that
/// follow.
pub proof fn address_is_kept(
    cfg: Pxe,
    boots: Seq<(Seq<u8>, Boot)>,
    leases: Seq<(Seq<u8>, Lease)>,
    first: Seq<(Seq<u8>, u64)>,
    more: Seq<(Seq<u8>, u64)>,
    mac: Seq<u8>,
)
    requires
        table::distinct(boots),
        table::distinct(leases),
        table::get(boots, mac) matches Some(entry) ==> entry.ip is None,
    ensures
        ({
            let l1 = after_packets(cfg, boots, leases, first).1;
            let l2 = after_packets(cfg, boots, leases, first + more).1;
            table::get(l1, mac) matches Some(a) ==> (table::get(l2, mac) matches Some(b) && b.ip
                == a.ip)
        }),
    decreases more.len(),
{
    if more.len() == 0 {
        assert(first + more =~= first);
    } else {
        let all = first + more;
        let less = all.drop_last();
        assert(less =~= first + more.drop_last());
        address_is_kept(cfg, boots, leases, first, more.drop_last(), mac);
        lemma_unfixed(cfg, boots, leases, less, mac);
        let (b, l) = after_packets(cfg, boots, leases, less);
        let (data, now_secs) = all.last();
        lemma_lease_is_kept(cfg, b, l, data, now_secs, mac);
    }
}

/// Whatever packets come, keys stay unique and no address is named in the entry
/// of a node.
proof fn lemma_unfixed(
    cfg: Pxe,
    boots: Seq<(Seq<u8>, Boot)>,
    leases: Seq<(Seq<u8>, Lease)>,
    packets: Seq<(Seq<u8>, u64)>,
    mac: Seq<u8>,
)
    requires
        table::distinct(boots),
        table::distinct(leases),
        table::get(boots, mac) matches Some(entry) ==> entry.ip is None,
    ensures
        ({
            let (b, l) = after_packets(cfg, boots, leases, packets);
            &&& table::distinct(b)
            &&& table::distinct(l)
            &&& table::get(b, mac) matches Some(entry) ==> entry.ip is None
        }),
    decreases packets.len(),
{
    if packets.len() > 0 {
        lemma_unfixed(cfg, boots, leases, packets.drop_last(), mac);
        let (b, l) = after_packets(cfg, boots, leases, packets.drop_last());
        let (data, now_secs) = packets.last();
        lemma_lease_is_kept(cfg, b, l, data, now_secs, mac);
    }
}

proof fn lemma_lease_is_kept(
    cfg: Pxe,
    boots: Seq<(Seq<u8>, Boot)>,
    leases: Seq<(Seq<u8>, Lease)>,
    data: Seq<u8>,
    now_secs: u64,
    mac: Seq<u8>,
)
    requires
        table::distinct(boots),
        table::distinct(leases),
        table::get(boots, mac) matches Some(entry) ==> entry.ip is None,
    ensures
        ({
            let (b, l, _) = after_dhcp(cfg, boots, leases, data, now_secs);
            &&& table::distinct(b)
            &&& table::distinct(l)
            &&& table::get(b, mac) matches Some(entry) ==> entry.ip is None
            &&& table::get(leases, mac) matches Some(x) ==> (table::get(l, mac) matches Some(y)
                && y.ip == x.ip)
        }),
{
    let client = client_of(data);
    let known = with_entry(boots, client);
    table::put_then_get(boots, client, boot::new_entry(client), mac);
    if let Some(ip) = address_for(client, known, leases, cfg.pool_start, cfg.pool_end) {
        let lease = Lease { ip, expires: (now_secs + cfg.lease_secs) as u128 };
        table::put_then_get(leases, client, lease, mac);
    }
}

/// New hardware that is offered an address is registered: the announcement for
/// it, when it reaches a node of the cluster, enters it there under the number
/// that its hardware address gives, at the address that it was offered.
pub proof fn new_hardware_is_registered(
    cfg: Pxe,
    boots: Seq<(Seq<u8>, Boot)>,
    leases: Seq<(Seq<u8>, Lease)>,
    data: Seq<u8>,
    now_secs: u64,
    seq: u8,
    rows: Seq<(u16, Node)>,
    their_id: u16,
    from: SocketAddr,
    now: Timestamp,
)
    requires
        table::distinct(boots),
        !table::holds(boots, client_of(data)),
        membership::sound(rows, their_id),
        mac::node_id_of(client_of(data)) != their_id,
    ensures
        ({
            let mac = client_of(data);
            let id = mac::node_id_of(mac);
            after_dhcp(cfg, boots, leases, data, now_secs).2 matches DhcpStep::Reply {
                registration,
                ..
            } ==> (registration matches Some((number, a)) && number == id && ({
                let sent = frame::header_bytes(MsgType::Announce, seq, number)
                    + AnnouncePayload::wire(a);
                let after = membership::after_datagram(rows, their_id, sent, from, now).0;
                table::get(after, id) matches Some(n) && n.hostname == boot::new_entry(mac).hostname
                    && (address_for(
                    mac,
                    with_entry(boots, mac),
                    leases,
                    cfg.pool_start,
                    cfg.pool_end,
                ) matches Some(ip) && n.control_addr.ip == IpAddr::V4(ip))
            }))
        }),
{
    let mac = client_of(data);
    let known = with_entry(boots, mac);
    let entry = boot::new_entry(mac);
    table::put_then_get(boots, mac, entry, mac);
    let found = address_for(mac, known, leases, cfg.pool_start, cfg.pool_end);
    if is_dhcp(data) && found is Some {
        let ip = found->0;
        mac::lemma_written_len(mac);
        reveal_strlit("node-");
        reveal_strlit("");
        wire::lemma_short_text(entry.hostname);
        wire::lemma_short_text(""@);
        let (id, a) = registered(mac, entry, ip);
        assert(known[table::place(known, mac)].1 == entry);
        membership::announcement_arrives(rows, their_id, id, seq, a, from, now, id);
    }
}

/// An address from the pool was free: a node that has no lease and whose entry
/// names no address gets one that lies in the pool and that was lent to nobody.
pub proof fn pool_address_is_free(
    mac: Seq<u8>,
    boots: Seq<(Seq<u8>, Boot)>,
    leases: Seq<(Seq<u8>, Lease)>,
    pool_start: Ipv4Addr,
    pool_end: Ipv4Addr,
)
    requires
        table::get(boots, mac) matches Some(entry) ==> entry.ip is None,
        table::get(leases, mac) is None,
    ensures
        match address_for(mac, boots, leases, pool_start, pool_end) {
            Some(ip) => pool_start.bits <= ip.bits <= pool_end.bits && !in_use(
                leases,
                ip.bits as int,
            ),
            None => forall|x: int|
                pool_start.bits <= x <= pool_end.bits ==> #[trigger] in_use(leases, x),
        },
{
    lowest_free_is_free(leases, pool_start.bits as int, pool_end.bits as int);
}

/// A node that asks again gets the address that it was offered.
pub proof fn offer_stands(
    cfg: Pxe,
    boots: Seq<(Seq<u8>, Boot)>,
    leases: Seq<(Seq<u8>, Lease)>,
    first: Seq<u8>,
    second: Seq<u8>,
    t1: u8,
    t2: u8,
    now: u64,
    later: u64,
)
    requires
        table::distinct(boots),
        table::distinct(leases),
        client_of(first) == client_of(second),
        after_request(cfg, boots, leases, first, t1, now).2 is Reply,
    ensures
        ({
            let mac = client_of(first);
            let (b1, l1, _) = after_request(cfg, boots, leases, first, t1, now);
            let (b2, l2, again) = after_request(cfg, b1, l1, second, t2, later);
            &&& again is Reply
            &&& b2 == b1
            &&& table::get(l1, mac) matches Some(a) && table::get(l2, mac) matches Some(b) && a.ip
                == b.ip
        }),
{
    let mac = client_of(first);
    let known = with_entry(boots, mac);
    table::put_then_get(boots, mac, boot::new_entry(mac), mac);
    if !table::holds(boots, mac) {
        let k = boots.len() as int;
        assert(known[k].0 == mac);
    }
    assert(table::holds(known, mac));
    assert(with_entry(known, mac) == known);
    let ip = address_for(mac, known, leases, cfg.pool_start, cfg.pool_end)->0;
    let lease = Lease { ip, expires: (now + cfg.lease_secs) as u128 };
    table::put_then_get(leases, mac, lease, mac);
    let l1 = table::put(leases, mac, lease);
    assert(address_for(mac, known, l1, cfg.pool_start, cfg.pool_end) == Some(ip));
    let lease2 = Lease { ip, expires: (later + cfg.lease_secs) as u128 };
    table::put_then_get(l1, mac, lease2, mac);
}

/// A node that asks has an entry from then on, a new one if it had none, and
/// no other entry changes.
pub proof fn asking_registers(
    cfg: Pxe,
    boots: Seq<(Seq<u8>, Boot)>,
    leases: Seq<(Seq<u8>, Lease)>,
    data: Seq<u8>,
    t: u8,
    now_secs: u64,
    other: Seq<u8>,
)
    requires
        table::distinct(boots),
    ensures
        ({
            let mac = client_of(data);
            let after = after_request(cfg, boots, leases, data, t, now_secs).0;
            &&& table::get(after, mac) == Some(
                match table::get(boots, mac) {
                    Some(entry) => entry,
                    None => boot::new_entry(mac),
                },
            )
            &&& other != mac ==> table::get(after, other) == table::get(boots, other)
        }),
{
    let mac = client_of(data);
    table::put_then_get(boots, mac, boot::new_entry(mac), other);
}

/// What a node is told to boot is what is written for it: a TFTP request for
/// the boot file in the reply leads to the file that its script is written to.
pub proof fn script_is_served(cfg: Pxe, mac: Seq<u8>, entry: Boot)
    ensures
        boot::script_file(cfg, mac, entry) matches Script::File { path, .. } ==> path::sanitized(
            cfg.tftp_root,
            boot_file_of(cfg, entry),
        ) == Some(path),
{
}

proof fn lemma_reply_head(
    xid: u32,
    chaddr: Seq<u8>,
    yiaddr: Ipv4Addr,
    siaddr: Ipv4Addr,
    boot_file: Seq<char>,
)
    ensures
        ({
            let h = reply_head(xid, chaddr, yiaddr, siaddr, boot_file);
            &&& h.len() == 236
            &&& h.subrange(4, 8) == octets::be_bytes(xid as nat, 4)
            &&& h.subrange(16, 20) == yiaddr.spec_octets()
            &&& h.subrange(20, 24) == siaddr.spec_octets()
            &&& h.subrange(28, 44) == padded(chaddr, 16)
        }),
{
    octets::lemma_be_round_trip(xid as nat, 4);
    octets::lemma_be_round_trip(yiaddr.bits as nat, 4);
    octets::lemma_be_round_trip(siaddr.bits as nat, 4);
    let h = reply_head(xid, chaddr, yiaddr, siaddr, boot_file);
    assert(padded(chaddr, 16).len() == 16);
    assert(padded(boot_name(boot_file), 128).len() == 128);
    assert(h.subrange(4, 8) =~= octets::be_bytes(xid as nat, 4));
    assert(h.subrange(16, 20) =~= yiaddr.spec_octets());
    assert(h.subrange(20, 24) =~= siaddr.spec_octets());
    assert(h.subrange(28, 44) =~= padded(chaddr, 16));
}

/// Reading the options from `i` on goes over an option that is not the message
/// type.
proof fn lemma_skips(opts: Seq<u8>, i: int, len: u8, so_far: u8)
    requires
        0 <= i,
        i + 1 < opts.len(),
        opts[i] != OPT_END,
        opts[i] != 0,
        opts[i] != OPT_MESSAGE_TYPE,
        opts[i + 1] == len,
    ensures
        type_from(opts, i, so_far) == type_from(opts, i + 2 + len, so_far),
{
}

proof fn lemma_reply_type(
    op: u8,
    siaddr: Ipv4Addr,
    subnet: Ipv4Addr,
    gateway: Option<Ipv4Addr>,
    lease_secs: u32,
    boot_file: Seq<char>,
)
    ensures
        type_from(
            reply_options(op, siaddr, subnet, gateway, lease_secs, boot_file),
            0,
            0,
        ) == Some(op),
{
    let o = reply_options(op, siaddr, subnet, gateway, lease_secs, boot_file);
    let name = boot_name(boot_file);
    octets::lemma_be_round_trip(siaddr.bits as nat, 4);
    octets::lemma_be_round_trip(subnet.bits as nat, 4);
    octets::lemma_be_round_trip(lease_secs as nat, 4);
    assert(o[0] == OPT_MESSAGE_TYPE && o[1] == 1 && o[2] == op);
    assert(type_from(o, 0, 0) == type_from(o, 3, op));
    assert(o[3] == OPT_SERVER_ID && o[4] == 4);
    lemma_skips(o, 3, 4, op);
    assert(o[9] == OPT_SUBNET_MASK && o[10] == 4);
    lemma_skips(o, 9, 4, op);
    let at: int = match gateway {
        Some(gw) => {
            octets::lemma_be_round_trip(gw.bits as nat, 4);
            assert(o[15] == OPT_ROUTER && o[16] == 4);
            lemma_skips(o, 15, 4, op);
            21
        },
        None => 15,
    };
    assert(o[at] == OPT_LEASE_TIME && o[at + 1] == 4);
    lemma_skips(o, at, 4, op);
    assert(o[at + 6] == OPT_TFTP_SERVER && o[at + 7] == 4);
    lemma_skips(o, at + 6, 4, op);
    assert(o[at + 12] == OPT_BOOT_FILE && o[at + 13] == name.len() as u8);
    lemma_skips(o, at + 12, name.len() as u8, op);
    assert(o[at + 14 + name.len()] == OPT_END);
}

/// A reply is a DHCP packet that carries its message type, the number of the
/// request, the address that is offered, the server's address and the client's
/// hardware address.
pub proof fn reply_says(
    op: u8,
    xid: u32,
    chaddr: Seq<u8>,
    yiaddr: Ipv4Addr,
    siaddr: Ipv4Addr,
    subnet: Ipv4Addr,
    gateway: Option<Ipv4Addr>,
    lease_secs: u32,
    boot_file: Seq<char>,
)
    requires
        chaddr.len() == 16,
    ensures
        ({
            let p = dhcp_reply(
                op,
                xid,
                chaddr,
                yiaddr,
                siaddr,
                subnet,
                gateway,
                lease_secs,
                boot_file,
            );
            &&& is_dhcp(p)
            &&& type_of(p) == Some(op)
            &&& octets::be_value(p.subrange(4, 8)) == xid
            &&& octets::be_value(p.subrange(16, 20)) == yiaddr.bits
            &&& octets::be_value(p.subrange(20, 24)) == siaddr.bits
            &&& p.subrange(28, 44) == chaddr
        }),
{
    let head = reply_head(xid, chaddr, yiaddr, siaddr, boot_file);
    let opts = reply_options(op, siaddr, subnet, gateway, lease_secs, boot_file);
    let p = head + dhcp_magic() + opts;
    lemma_reply_head(xid, chaddr, yiaddr, siaddr, boot_file);
    lemma_reply_type(op, siaddr, subnet, gateway, lease_secs, boot_file);
    octets::lemma_be_round_trip(xid as nat, 4);
    octets::lemma_be_round_trip(yiaddr.bits as nat, 4);
    octets::lemma_be_round_trip(siaddr.bits as nat, 4);
    octets::lemma_widths();
    assert(p.subrange(236, 240) =~= dhcp_magic());
    assert(p.skip(240) =~= opts);
    assert(p.subrange(4, 8) =~= head.subrange(4, 8));
    assert(p.subrange(16, 20) =~= head.subrange(16, 20));
    assert(p.subrange(20, 24) =~= head.subrange(20, 24));
    assert(p.subrange(28, 44) =~= head.subrange(28, 44));
    assert(chaddr.take(16) =~= chaddr);
}

// ---------------------------------------------------------------------------
// What a client reads in a reply
// ---------------------------------------------------------------------------

/// The value of the option `code` among the options of a packet from `i` on, as
/// a client reads them: a code, a length and so many bytes; 0 is a filler, and
/// 255 the end.
pub open spec fn option_in(opts: Seq<u8>, i: int, code: u8) -> Option<Seq<u8>>
    decreases
            (if 0 <= i < opts.len() {
                opts.len() - i
            } else {
                0
            }),
{
    if i < 0 || i + 1 >= opts.len() || opts[i] == 255 {
        None
    } else if opts[i] == 0 {
        option_in(opts, i + 1, code)
    } else {
        let end = i + 2 + opts[i + 1] as int;
        if end > opts.len() {
            None
        } else if opts[i] == code {
            Some(opts.subrange(i + 2, end))
        } else {
            option_in(opts, end, code)
        }
    }
}

proof fn lemma_option_passed(opts: Seq<u8>, i: int, len: int, code: u8)
    requires
        0 <= i,
        0 <= len <= 255,
        i + 2 + len < opts.len(),
        opts[i] != 255,
        opts[i] != 0,
        opts[i] != code,
        opts[i + 1] == len,
    ensures
        option_in(opts, i, code) == option_in(opts, i + 2 + len, code),
{
}

/// The options of a reply, as a client reads them.
proof fn lemma_options_read(
    op: u8,
    siaddr: Ipv4Addr,
    subnet: Ipv4Addr,
    gateway: Option<Ipv4Addr>,
    lease_secs: u32,
    boot_file: Seq<char>,
)
    ensures
        ({
            let o = reply_options(op, siaddr, subnet, gateway, lease_secs, boot_file);
            &&& option_in(o, 0, 53) == Some(seq![op])
            &&& option_in(o, 0, 54) == Some(siaddr.spec_octets())
            &&& option_in(o, 0, 1) == Some(subnet.spec_octets())
            &&& option_in(o, 0, 3) == (match gateway {
                Some(gw) => Some(gw.spec_octets()),
                None => None,
            })
            &&& option_in(o, 0, 51) == Some(octets::be_bytes(lease_secs as nat, 4))
            &&& option_in(o, 0, 66) == Some(siaddr.spec_octets())
            &&& option_in(o, 0, 67) == Some(boot_name(boot_file))
        }),
{
    let o = reply_options(op, siaddr, subnet, gateway, lease_secs, boot_file);
    let name = boot_name(boot_file);
    let n = name.len() as int;
    octets::lemma_be_round_trip(siaddr.bits as nat, 4);
    octets::lemma_be_round_trip(subnet.bits as nat, 4);
    octets::lemma_be_round_trip(lease_secs as nat, 4);
    assert(n <= 127);
    let at: int = match gateway {
        Some(gw) => {
            octets::lemma_be_round_trip(gw.bits as nat, 4);
            21
        },
        None => 15,
    };
    assert(o.len() == at + 14 + n + 1);
    assert(o[0] == 53 && o[1] == 1 && o[2] == op);
    assert(o[3] == 54 && o[4] == 4);
    assert(o[9] == 1 && o[10] == 4);
    assert(o[at] == 51 && o[at + 1] == 4);
    assert(o[at + 6] == 66 && o[at + 7] == 4);
    assert(o[at + 12] == 67 && o[at + 13] == n);
    assert(o[at + 14 + n] == 255);
    assert(o.subrange(2, 3) =~= seq![op]);
    assert(o.subrange(5, 9) =~= siaddr.spec_octets());
    assert(o.subrange(11, 15) =~= subnet.spec_octets());
    assert(o.subrange(at + 2, at + 6) =~= octets::be_bytes(lease_secs as nat, 4));
    assert(o.subrange(at + 8, at + 12) =~= siaddr.spec_octets());
    assert(o.subrange(at + 14, at + 14 + n) =~= name);
    if let Some(gw) = gateway {
        assert(o[15] == 3 && o[16] == 4);
        assert(o.subrange(17, 21) =~= gw.spec_octets());
    }
    lemma_options_walk(o, at, n, gateway is Some);
}

proof fn lemma_options_walk(o: Seq<u8>, at: int, n: int, routed: bool)
    requires
        0 <= n <= 127,
        at == (if routed {
            21int
        } else {
            15int
        }),
        o.len() == at + 14 + n + 1,
        o[0] == 53 && o[1] == 1,
        o[3] == 54 && o[4] == 4,
        o[9] == 1 && o[10] == 4,
        routed ==> o[15] == 3 && o[16] == 4,
        o[at] == 51 && o[at + 1] == 4,
        o[at + 6] == 66 && o[at + 7] == 4,
        o[at + 12] == 67 && o[at + 13] == n,
        o[at + 14 + n] == 255,
    ensures
        option_in(o, 0, 53) == Some(o.subrange(2, 3)),
        option_in(o, 0, 54) == Some(o.subrange(5, 9)),
        option_in(o, 0, 1) == Some(o.subrange(11, 15)),
        routed ==> option_in(o, 0, 3) == Some(o.subrange(17, 21)),
        !routed ==> option_in(o, 0, 3) is None,
        option_in(o, 0, 51) == Some(o.subrange(at + 2, at + 6)),
        option_in(o, 0, 66) == Some(o.subrange(at + 8, at + 12)),
        option_in(o, 0, 67) == Some(o.subrange(at + 14, at + 14 + n)),
{
    lemma_option_passed(o, 0, 1, 54);
    lemma_option_passed(o, 0, 1, 1);
    lemma_option_passed(o, 3, 4, 1);
    lemma_options_to_router(o, at, routed, 3);
    lemma_options_to_router(o, at, routed, 51);
    lemma_options_to_router(o, at, routed, 66);
    lemma_options_to_router(o, at, routed, 67);
    lemma_option_passed(o, at, 4, 66);
    lemma_option_passed(o, at, 4, 67);
    lemma_option_passed(o, at + 6, 4, 67);
    if !routed {
        lemma_option_passed(o, at, 4, 3);
        lemma_option_passed(o, at + 6, 4, 3);
        lemma_option_passed(o, at + 12, n, 3);
        assert(option_in(o, at + 14 + n, 3) is None);
    }
}

proof fn lemma_options_to_router(o: Seq<u8>, at: int, routed: bool, code: u8)
    requires
        code != 53 && code != 54 && code != 1,
        at == (if routed {
            21int
        } else {
            15int
        }),
        o.len() > at + 14,
        o[0] == 53 && o[1] == 1,
        o[3] == 54 && o[4] == 4,
        o[9] == 1 && o[10] == 4,
        routed ==> o[15] == 3 && o[16] == 4,
    ensures
        option_in(o, 0, code) == option_in(o, 15, code),
        code != 3 ==> option_in(o, 0, code) == option_in(o, at, code),
{
    lemma_option_passed(o, 0, 1, code);
    lemma_option_passed(o, 3, 4, code);
    lemma_option_passed(o, 9, 4, code);
    if routed && code != 3 {
        lemma_option_passed(o, 15, 4, code);
    }
}

/// The fixed part of a reply: a reply to the request for Ethernet, with the name
/// of the boot file behind the addresses and zeros elsewhere.
proof fn lemma_head_read(
    xid: u32,
    chaddr: Seq<u8>,
    yiaddr: Ipv4Addr,
    siaddr: Ipv4Addr,
    boot_file: Seq<char>,
)
    ensures
        ({
            let h = reply_head(xid, chaddr, yiaddr, siaddr, boot_file);
            let name = boot_name(boot_file);
            &&& h.subrange(0, 4) == seq![2u8, 1u8, 6u8, 0u8]
            &&& h.subrange(108, 108 + name.len() as int) == name
            &&& forall|i: int|
                8 <= i < 16 || 24 <= i < 28 || 44 <= i < 108 || 108 + name.len() <= i < 236
                    ==> #[trigger] h[i] == 0
        }),
{
    octets::lemma_be_round_trip(xid as nat, 4);
    octets::lemma_be_round_trip(yiaddr.bits as nat, 4);
    octets::lemma_be_round_trip(siaddr.bits as nat, 4);
    let h = reply_head(xid, chaddr, yiaddr, siaddr, boot_file);
    let name = boot_name(boot_file);
    assert(padded(chaddr, 16).len() == 16);
    assert(padded(name, 128) == name + zeros((128 - name.len()) as nat));
    assert(h.subrange(0, 4) =~= seq![2u8, 1u8, 6u8, 0u8]);
    assert(h.subrange(108, 108 + name.len() as int) =~= name);
}

/// A reply, as a client reads it.
proof fn lemma_reply_read(
    op: u8,
    xid: u32,
    chaddr: Seq<u8>,
    yiaddr: Ipv4Addr,
    siaddr: Ipv4Addr,
    subnet: Ipv4Addr,
    gateway: Option<Ipv4Addr>,
    lease_secs: u32,
    boot_file: Seq<char>,
)
    requires
        chaddr.len() == 16,
    ensures
        ({
            let packet = dhcp_reply(
                op,
                xid,
                chaddr,
                yiaddr,
                siaddr,
                subnet,
                gateway,
                lease_secs,
                boot_file,
            );
            let opts = packet.skip(240);
            let name = boot_name(boot_file);
            &&& packet.len() >= 240
            &&& packet.subrange(0, 4) == seq![2u8, 1u8, 6u8, 0u8]
            &&& packet.subrange(4, 8) == octets::be_bytes(xid as nat, 4)
            &&& packet.subrange(16, 20) == yiaddr.spec_octets()
            &&& packet.subrange(20, 24) == siaddr.spec_octets()
            &&& packet.subrange(28, 44) == chaddr
            &&& packet.subrange(108, 108 + name.len() as int) == name
            &&& packet.subrange(236, 240) == seq![99u8, 130u8, 83u8, 99u8]
            &&& forall|i: int|
                8 <= i < 16 || 24 <= i < 28 || 44 <= i < 108 || 108 + name.len() <= i < 236
                    ==> #[trigger] packet[i] == 0
            &&& option_in(opts, 0, 53) == Some(seq![op])
            &&& option_in(opts, 0, 54) == Some(siaddr.spec_octets())
            &&& option_in(opts, 0, 1) == Some(subnet.spec_octets())
            &&& option_in(opts, 0, 3) == (match gateway {
                Some(gw) => Some(gw.spec_octets()),
                None => None,
            })
            &&& option_in(opts, 0, 51) == Some(octets::be_bytes(lease_secs as nat, 4))
            &&& option_in(opts, 0, 66) == Some(siaddr.spec_octets())
            &&& option_in(opts, 0, 67) == Some(name)
        }),
{
    lemma_reply_head(xid, chaddr, yiaddr, siaddr, boot_file);
    lemma_head_read(xid, chaddr, yiaddr, siaddr, boot_file);
    lemma_options_read(op, siaddr, subnet, gateway, lease_secs, boot_file);
    let head = reply_head(xid, chaddr, yiaddr, siaddr, boot_file);
    let o = reply_options(op, siaddr, subnet, gateway, lease_secs, boot_file);
    let packet = head + dhcp_magic() + o;
    let n = boot_name(boot_file).len() as int;
    assert(packet.skip(240) =~= o);
    assert(packet.subrange(0, 4) =~= head.subrange(0, 4));
    assert(packet.subrange(4, 8) =~= head.subrange(4, 8));
    assert(packet.subrange(16, 20) =~= head.subrange(16, 20));
    assert(packet.subrange(20, 24) =~= head.subrange(20, 24));
    assert(packet.subrange(28, 44) =~= head.subrange(28, 44));
    assert(packet.subrange(108, 108 + n) =~= head.subrange(108, 108 + n));
    assert(packet.subrange(236, 240) =~= dhcp_magic());
    assert(chaddr.take(16) =~= chaddr);
    assert forall|i: int|
        8 <= i < 16 || 24 <= i < 28 || 44 <= i < 108 || 108 + n <= i < 236 implies #[trigger] packet[i]
        == 0 by {
        assert(packet[i] == head[i]);
    }
}

/// What an answer is made of.
proof fn lemma_answer_is_made(
    cfg: Pxe,
    boots: Seq<(Seq<u8>, Boot)>,
    leases: Seq<(Seq<u8>, Lease)>,
    data: Seq<u8>,
    now_secs: u64,
)
    requires
        table::distinct(boots),
        table::distinct(leases),
    ensures
        ({
            let (b, l, step) = after_dhcp(cfg, boots, leases, data, now_secs);
            let client = data.subrange(28, 34);
            step matches DhcpStep::Reply { mac, msg_type, packet, target, registration, .. } ==> {
                &&& mac == client
                &&& data.len() >= 240
                &&& type_of(data) == Some(msg_type)
                &&& msg_type == DHCPDISCOVER || msg_type == DHCPREQUEST
                &&& table::get(b, client) matches Some(entry) && (table::get(l, client) matches Some(
                    lease,
                ) && lease.expires == now_secs + cfg.lease_secs && target == target_of(
                    octets::be_value(data.subrange(10, 12)),
                    lease.ip,
                ) && packet == dhcp_reply(
                    if msg_type == DHCPDISCOVER {
                        DHCPOFFER
                    } else {
                        DHCPACK
                    },
                    octets::be_value(data.subrange(4, 8)) as u32,
                    data.subrange(28, 44),
                    lease.ip,
                    cfg.server_ip,
                    cfg.subnet_mask,
                    cfg.gateway,
                    cfg.lease_secs,
                    boot_file_of(cfg, entry),
                ) && registration == (if table::holds(boots, client) {
                    None
                } else {
                    Some(registered(client, entry, lease.ip))
                }))
            }
        }),
{
    let mac = client_of(data);
    let known = with_entry(boots, mac);
    table::put_then_get(boots, mac, boot::new_entry(mac), mac);
    let entry = known[table::place(known, mac)].1;
    if !table::holds(boots, mac) {
        assert(known[boots.len() as int].0 == mac);
    }
    assert(table::get(known, mac) == Some(entry));
    if let Some(ip) = address_for(mac, known, leases, cfg.pool_start, cfg.pool_end) {
        let lease = Lease { ip, expires: (now_secs + cfg.lease_secs) as u128 };
        table::put_then_get(leases, mac, lease, mac);
    }
}

/// What a node reads in the reply that it gets. The server's own address stands
/// in the packet and in the options 54 and 66, the mask of the settings in
/// option 1, their gateway in option 3 if there is one, and the lease time in
/// option 51. Number and hardware address are those of the request. The address
/// that is offered is the one that is stored as lent to the node, for the lease
/// time from now on. The boot file, cut to 127 bytes, is the script of the
/// node's entry, or else the file of the settings. A discovery is answered by an
/// offer and a request by an acknowledgement. The rest of the fixed part is
/// zero.
pub proof fn replies_follow_settings(
    cfg: Pxe,
    boots: Seq<(Seq<u8>, Boot)>,
    leases: Seq<(Seq<u8>, Lease)>,
    data: Seq<u8>,
    now_secs: u64,
)
    requires
        table::distinct(boots),
        table::distinct(leases),
    ensures
        ({
            let (b, l, step) = after_dhcp(cfg, boots, leases, data, now_secs);
            let client = data.subrange(28, 34);
            let file = vstd::utf8::encode_utf8(
                match table::get(b, client) {
                    Some(entry) => match entry.ipxe_script {
                        Some(name) => name,
                        None => cfg.boot_file,
                    },
                    None => cfg.boot_file,
                },
            );
            let name = if file.len() > 127 {
                file.take(127)
            } else {
                file
            };
            step matches DhcpStep::Reply { mac, msg_type, packet, .. } ==> {
                let opts = packet.skip(240);
                &&& mac == client
                &&& type_of(data) == Some(msg_type)
                &&& packet.len() >= 240
                &&& packet.subrange(0, 4) == seq![2u8, 1u8, 6u8, 0u8]
                &&& packet.subrange(4, 8) == data.subrange(4, 8)
                &&& packet.subrange(20, 24) == octets::be_bytes(cfg.server_ip.bits as nat, 4)
                &&& packet.subrange(28, 44) == data.subrange(28, 44)
                &&& packet.subrange(108, 108 + name.len() as int) == name
                &&& packet.subrange(236, 240) == seq![99u8, 130u8, 83u8, 99u8]
                &&& forall|i: int|
                    8 <= i < 16 || 24 <= i < 28 || 44 <= i < 108 || 108 + name.len() <= i < 236
                        ==> #[trigger] packet[i] == 0
                &&& option_in(opts, 0, 53) == Some(
                    seq![
                        if msg_type == 1 {
                            2u8
                        } else {
                            5u8
                        },
                    ],
                )
                &&& option_in(opts, 0, 54) == Some(octets::be_bytes(cfg.server_ip.bits as nat, 4))
                &&& option_in(opts, 0, 66) == Some(octets::be_bytes(cfg.server_ip.bits as nat, 4))
                &&& option_in(opts, 0, 1) == Some(octets::be_bytes(cfg.subnet_mask.bits as nat, 4))
                &&& option_in(opts, 0, 3) == (match cfg.gateway {
                    Some(gw) => Some(octets::be_bytes(gw.bits as nat, 4)),
                    None => None,
                })
                &&& option_in(opts, 0, 51) == Some(octets::be_bytes(cfg.lease_secs as nat, 4))
                &&& option_in(opts, 0, 67) == Some(name)
                &&& table::get(l, client) matches Some(lease) && packet.subrange(16, 20)
                    == octets::be_bytes(lease.ip.bits as nat, 4) && lease.expires == now_secs
                    + cfg.lease_secs
            }
        }),
{
    let (b, l, step) = after_dhcp(cfg, boots, leases, data, now_secs);
    let client = data.subrange(28, 34);
    lemma_answer_is_made(cfg, boots, leases, data, now_secs);
    if let DhcpStep::Reply { msg_type, .. } = step {
        let entry = table::get(b, client)->0;
        let lease = table::get(l, client)->0;
        octets::lemma_be_digits(data.subrange(4, 8));
        octets::lemma_widths();
        lemma_reply_read(
            if msg_type == DHCPDISCOVER {
                DHCPOFFER
            } else {
                DHCPACK
            },
            octets::be_value(data.subrange(4, 8)) as u32,
            data.subrange(28, 44),
            lease.ip,
            cfg.server_ip,
            cfg.subnet_mask,
            cfg.gateway,
            cfg.lease_secs,
            boot_file_of(cfg, entry),
        );
    }
}

/// Where an answer goes: to all, if the request has the broadcast flag, and else
/// to the address that is offered. New hardware, and no other, is registered
/// with the cluster: under the number that is folded from its hardware address,
/// with the host name of its entry, at the address that is offered and port
/// 7778, as of incarnation 0 and without a version.
pub proof fn answers_go_to_the_node(
    cfg: Pxe,
    boots: Seq<(Seq<u8>, Boot)>,
    leases: Seq<(Seq<u8>, Lease)>,
    data: Seq<u8>,
    now_secs: u64,
)
    requires
        table::distinct(boots),
        table::distinct(leases),
    ensures
        ({
            let (b, l, step) = after_dhcp(cfg, boots, leases, data, now_secs);
            let client = data.subrange(28, 34);
            step matches DhcpStep::Reply { target, registration, .. } ==> {
                &&& table::get(b, client) matches Some(entry) && (table::get(l, client) matches Some(
                    lease,
                ) && target.port == 68 && target.ip == (if data[10] >= 128 {
                    IpAddr::V4(Ipv4Addr { bits: 0xffff_ffff })
                } else {
                    IpAddr::V4(lease.ip)
                }) && (registration is Some <==> table::get(boots, client) is None) && (
                registration matches Some((number, a)) ==> number == 256 * (data[28] ^ data[30]
                    ^ data[32]) + (data[29] ^ data[31] ^ data[33]) && a.incarnation == 0
                    && a.hostname == entry.hostname && a.control_addr.ip == IpAddr::V4(lease.ip)
                    && a.control_addr.port == 7778 && a.version == ""@))
            }
        }),
{
    let (b, l, step) = after_dhcp(cfg, boots, leases, data, now_secs);
    let client = data.subrange(28, 34);
    lemma_answer_is_made(cfg, boots, leases, data, now_secs);
    if step is Reply {
        assert(data.subrange(10, 12) =~= seq![data[10], data[11]]);
        octets::two_bytes(data[10], data[11]);
        mac::number_folds_octets(client);
        assert(client[0] == data[28] && client[1] == data[29] && client[2] == data[30]);
        assert(client[3] == data[31] && client[4] == data[32] && client[5] == data[33]);
    }
}

/// Some node has been lent the address that is `x` as a number.
pub open spec fn somebody_has(leases: Seq<(Seq<u8>, Lease)>, x: int) -> bool {
    exists|i: int| 0 <= i < leases.len() && (#[trigger] leases[i]).1.ip.bits == x
}

/// Which address a node gets: the one that its entry names; else the one that
/// is lent to it; else one from the pool that is lent to nobody, the lowest of
/// them. It gets none exactly if it would have to be from the pool and all of
/// the pool is lent. Nothing changes of what is lent to other nodes.
pub proof fn addresses_are_chosen(
    cfg: Pxe,
    boots: Seq<(Seq<u8>, Boot)>,
    leases: Seq<(Seq<u8>, Lease)>,
    data: Seq<u8>,
    now_secs: u64,
    other: Seq<u8>,
)
    requires
        table::distinct(boots),
        table::distinct(leases),
    ensures
        ({
            let (b, l, step) = after_dhcp(cfg, boots, leases, data, now_secs);
            let client = data.subrange(28, 34);
            let fixed = match table::get(boots, client) {
                Some(entry) => entry.ip,
                None => None,
            };
            let pooled = fixed is None && table::get(leases, client) is None;
            &&& step is Reply ==> (table::get(l, client) matches Some(lease) && (fixed matches Some(
                ip,
            ) ==> lease.ip == ip) && (fixed is None ==> (table::get(leases, client) matches Some(
                had,
            ) ==> lease.ip == had.ip)) && (pooled ==> cfg.pool_start.bits <= lease.ip.bits
                <= cfg.pool_end.bits && !somebody_has(leases, lease.ip.bits as int) && forall|x: int|
                cfg.pool_start.bits <= x < lease.ip.bits ==> #[trigger] somebody_has(leases, x)))
            &&& step is Exhausted ==> l == leases && pooled && forall|x: int|
                cfg.pool_start.bits <= x <= cfg.pool_end.bits ==> #[trigger] somebody_has(leases, x)
            &&& !(step is Reply) ==> l == leases
            &&& other != client ==> table::get(l, other) == table::get(leases, other)
        }),
{
    let mac = client_of(data);
    let known = with_entry(boots, mac);
    table::put_then_get(boots, mac, boot::new_entry(mac), mac);
    lowest_free_is_free(leases, cfg.pool_start.bits as int, cfg.pool_end.bits as int);
    let step = after_dhcp(cfg, boots, leases, data, now_secs).2;
    let found = address_for(mac, known, leases, cfg.pool_start, cfg.pool_end);
    if let Some(ip) = found {
        let lease = Lease { ip, expires: (now_secs + cfg.lease_secs) as u128 };
        table::put_then_get(leases, mac, lease, other);
        if step is Reply {
            assert(!in_use(leases, ip.bits as int) ==> !somebody_has(leases, ip.bits as int));
            assert forall|x: int| in_use(leases, x) implies #[trigger] somebody_has(leases, x) by {
                let i = choose|i: int|
                    0 <= i < leases.len() && (#[trigger] leases[i]).1.ip.bits == x;
                assert(leases[i].1.ip.bits == x);
            }
        }
    } else {
        assert forall|x: int| cfg.pool_start.bits <= x <= cfg.pool_end.bits implies #[trigger] somebody_has(
            leases,
            x,
        ) by {
            assert(in_use(leases, x));
        }
    }
}

/// What the server does about a packet. What is shorter than 240 bytes, or lacks
/// the four bytes 99, 130, 83, 99 in front of the options, is ignored, and so is
/// a packet of another type than 1 and 3; nothing changes then. Any other is
/// answered, or the pool is exhausted; whether the node is new is whether it had
/// no entry, and its script is seen to as its entry says. Only a new node is
/// registered.
pub proof fn packets_are_sorted(
    cfg: Pxe,
    boots: Seq<(Seq<u8>, Boot)>,
    leases: Seq<(Seq<u8>, Lease)>,
    data: Seq<u8>,
    now_secs: u64,
)
    requires
        table::distinct(boots),
    ensures
        ({
            let (b, l, step) = after_dhcp(cfg, boots, leases, data, now_secs);
            let client = data.subrange(28, 34);
            let whole = data.len() >= 240 && data[236] == 99 && data[237] == 130 && data[238] == 83
                && data[239] == 99;
            &&& !whole ==> b == boots && l == leases && step == DhcpStep::Ignore
            &&& whole ==> match type_of(data) {
                None => b == boots && l == leases && step == DhcpStep::Truncated,
                Some(t) => if t == 1 || t == 3 {
                    match step {
                        DhcpStep::Reply {
                            mac,
                            msg_type,
                            discovered,
                            script,
                            registration,
                            ..
                        } => mac == client && msg_type == t && discovered == !table::holds(
                            boots,
                            client,
                        ) && (table::get(b, client) matches Some(entry) && script
                            == boot::script_file(cfg, client, entry)) && registration is Some
                            == discovered,
                        DhcpStep::Exhausted { mac, msg_type, discovered, script } => mac == client
                            && msg_type == t && discovered == !table::holds(boots, client) && (
                        table::get(b, client) matches Some(entry) && script == boot::script_file(
                            cfg,
                            client,
                            entry,
                        )),
                        _ => false,
                    }
                } else {
                    b == boots && l == leases && step == DhcpStep::Ignore
                },
            }
        }),
{
    let mac = client_of(data);
    let known = with_entry(boots, mac);
    table::put_then_get(boots, mac, boot::new_entry(mac), mac);
    if !table::holds(boots, mac) {
        let k = boots.len() as int;
        assert(known[k].0 == mac);
    }
    if data.len() >= 240 {
        let m = data.subrange(236, 240);
        assert(m[0] == data[236] && m[1] == data[237] && m[2] == data[238] && m[3] == data[239]);
        if data[236] == 99 && data[237] == 130 && data[238] == 83 && data[239] == 99 {
            assert(m =~= dhcp_magic());
        }
    }
}

/// The bytes of some options: a code, a length and a value each, where the code
/// 0 is a filler without the others.
pub open spec fn option_bytes(list: Seq<(u8, Seq<u8>)>) -> Seq<u8>
    decreases list.len(),
{
    if list.len() == 0 {
        seq![]
    } else {
        let (code, value) = list[0];
        (if code == 0 {
            seq![0u8]
        } else {
            seq![code, value.len() as u8] + value
        }) + option_bytes(list.drop_first())
    }
}

/// Reading goes over well-formed options; the type that was read is another
/// behind them only if the type is among them.
proof fn lemma_options_passed(
    opts: Seq<u8>,
    i: int,
    list: Seq<(u8, Seq<u8>)>,
    so_far: u8,
) -> (read: u8)
    requires
        0 <= i,
        i + option_bytes(list).len() <= opts.len(),
        opts.subrange(i, i + option_bytes(list).len() as int) == option_bytes(list),
        forall|k: int|
            0 <= k < list.len() ==> (#[trigger] list[k]).0 != 255 && list[k].1.len() <= 255,
    ensures
        type_from(opts, i, so_far) == type_from(opts, i + option_bytes(list).len() as int, read),
        (forall|k: int|
            0 <= k < list.len() ==> (#[trigger] list[k]).0 != 53 || list[k].1.len() == 0) ==> read
            == so_far,
    decreases list.len(),
{
    if list.len() == 0 {
        so_far
    } else {
        let all = option_bytes(list);
        let (code, value) = list[0];
        let rest = list.drop_first();
        let front = if code == 0 {
            seq![0u8]
        } else {
            seq![code, value.len() as u8] + value
        };
        let n = front.len() as int;
        let here = opts.subrange(i, i + all.len() as int);
        assert(list[0].0 != 255);
        assert(all == front + option_bytes(rest));
        assert(opts[i] == here[0]);
        assert(opts[i] == code);
        if code != 0 {
            assert(opts[i + 1] == here[1]);
            assert(opts[i + 1] == value.len());
        }
        let next = if code == 53 && value.len() > 0 {
            value[0]
        } else {
            so_far
        };
        if code == 53 && value.len() > 0 {
            assert(opts[i + 2] == here[2]);
            assert(front[2] == value[0]);
        }
        assert(type_from(opts, i, so_far) == type_from(opts, i + n, next));
        assert(opts.subrange(i + n, i + n + option_bytes(rest).len() as int) =~= option_bytes(
            rest,
        )) by {
            assert forall|k: int| 0 <= k < option_bytes(rest).len() implies opts[i + n + k]
                == option_bytes(rest)[k] by {
                assert(here[n + k] == all[n + k]);
            }
        }
        assert forall|k: int| 0 <= k < rest.len() implies (#[trigger] rest[k]).0 != 255
            && rest[k].1.len() <= 255 by {
            assert(rest[k] == list[k + 1]);
        }
        let read = lemma_options_passed(opts, i + n, rest, next);
        if forall|k: int| 0 <= k < list.len() ==> (#[trigger] list[k]).0 != 53 || list[k].1.len()
            == 0 {
            assert(list[0].0 != 53 || list[0].1.len() == 0);
            assert forall|k: int| 0 <= k < rest.len() implies (#[trigger] rest[k]).0 != 53
                || rest[k].1.len() == 0 by {
                assert(rest[k] == list[k + 1]);
            }
        }
        read
    }
}

/// The type of a packet is the first byte of its last option 53 that has a
/// value, whatever options and fillers stand around it. The end need not be
/// marked; if it is, what stands behind it does not count.
pub proof fn type_is_read(
    fixed: Seq<u8>,
    before: Seq<(u8, Seq<u8>)>,
    value: Seq<u8>,
    after: Seq<(u8, Seq<u8>)>,
    behind: Seq<u8>,
)
    requires
        fixed.len() == 240,
        1 <= value.len() <= 255,
        forall|k: int|
            0 <= k < before.len() ==> (#[trigger] before[k]).0 != 255 && before[k].1.len() <= 255,
        forall|k: int|
            0 <= k < after.len() ==> (#[trigger] after[k]).0 != 255 && after[k].1.len() <= 255 && (
            after[k].0 != 53 || after[k].1.len() == 0),
    ensures
        ({
            let opts = option_bytes(before) + option_bytes(seq![(53u8, value)]) + option_bytes(
                after,
            );
            &&& type_of(fixed + opts) == Some(value[0])
            &&& type_of(fixed + opts + seq![255u8] + behind) == Some(value[0])
        }),
{
    let one = seq![(53u8, value)];
    let opts = option_bytes(before) + option_bytes(one) + option_bytes(after);
    let marked = opts + (seq![255u8] + behind);
    assert((fixed + opts).skip(240) =~= opts);
    assert((fixed + opts + seq![255u8] + behind).skip(240) =~= marked);
    let n = opts.len() as int;
    assert(opts.take(n) =~= opts);
    assert(marked.take(n) =~= opts);
    let a = lemma_type_behind(opts, before, value, after);
    let b = lemma_type_behind(marked, before, value, after);
    assert(marked[n] == 255);
}

proof fn lemma_type_behind(
    opts: Seq<u8>,
    before: Seq<(u8, Seq<u8>)>,
    value: Seq<u8>,
    after: Seq<(u8, Seq<u8>)>,
) -> (end: int)
    requires
        1 <= value.len() <= 255,
        forall|k: int|
            0 <= k < before.len() ==> (#[trigger] before[k]).0 != 255 && before[k].1.len() <= 255,
        forall|k: int|
            0 <= k < after.len() ==> (#[trigger] after[k]).0 != 255 && after[k].1.len() <= 255 && (
            after[k].0 != 53 || after[k].1.len() == 0),
        ({
            let all = option_bytes(before) + option_bytes(seq![(53u8, value)]) + option_bytes(after);
            all.len() <= opts.len() && opts.take(all.len() as int) == all
        }),
    ensures
        end == option_bytes(before).len() + option_bytes(seq![(53u8, value)]).len() + option_bytes(
            after,
        ).len(),
        type_from(opts, 0, 0) == type_from(opts, end, value[0]),
{
    let one = seq![(53u8, value)];
    let x = option_bytes(before);
    let y = option_bytes(one);
    let z = option_bytes(after);
    let all = x + y + z;
    assert(one.drop_first() =~= seq![]);
    assert(option_bytes(one.drop_first()) == Seq::<u8>::empty());
    assert(y =~= seq![53u8, value.len() as u8] + value);
    let k = x.len() as int;
    let m = k + y.len();
    let taken = opts.take(all.len() as int);
    assert forall|j: int| 0 <= j < all.len() implies opts[j] == all[j] by {
        assert(taken[j] == all[j]);
    }
    assert(opts.subrange(0, k) =~= x);
    assert(opts.subrange(m, m + z.len()) =~= z);
    let read = lemma_options_passed(opts, 0, before, 0);
    assert(opts[k] == y[0] && opts[k + 1] == y[1] && opts[k + 2] == y[2]);
    assert(type_from(opts, k, read) == type_from(opts, m, value[0]));
    let last = lemma_options_passed(opts, m, after, value[0]);
    m + z.len() as int
}

/// Without an option 53 that has a value the type is 0, and a packet that breaks
/// off where that value should stand has none.
pub proof fn type_is_missing(fixed: Seq<u8>, list: Seq<(u8, Seq<u8>)>, len: u8)
    requires
        fixed.len() == 240,
        len >= 1,
        forall|k: int|
            0 <= k < list.len() ==> (#[trigger] list[k]).0 != 255 && list[k].1.len() <= 255 && (
            list[k].0 != 53 || list[k].1.len() == 0),
    ensures
        type_of(fixed + option_bytes(list)) == Some(0u8),
        type_of(fixed + option_bytes(list) + seq![53u8, len]) is None,
{
    let x = option_bytes(list);
    let n = x.len() as int;
    assert((fixed + x).skip(240) =~= x);
    assert(x.subrange(0, n) =~= x);
    let a = lemma_options_passed(x, 0, list, 0);
    let y = x + seq![53u8, len];
    assert((fixed + x + seq![53u8, len]).skip(240) =~= y);
    assert(y.subrange(0, n) =~= x);
    let b = lemma_options_passed(y, 0, list, 0);
    assert(y[n] == 53 && y[n + 1] == len);
}

/// To look up an address prolongs what was lent to the node, where its entry
/// names none, by the lease time from now on; nothing else that is lent changes.
pub proof fn lookup_prolongs_the_lease(
    client: Seq<u8>,
    boots: Seq<(Seq<u8>, Boot)>,
    leases: Seq<(Seq<u8>, Lease)>,
    lease_secs: u32,
    now_secs: u64,
    other: Seq<u8>,
)
    requires
        table::distinct(leases),
    ensures
        ({
            let after = after_allocation(client, boots, leases, lease_secs, now_secs);
            let named = table::get(boots, client) matches Some(entry) && entry.ip is Some;
            &&& named ==> after == leases
            &&& !named ==> (match table::get(leases, client) {
                Some(lease) => table::get(after, client) matches Some(now) && now.ip == lease.ip
                    && now.expires == now_secs + lease_secs,
                None => after == leases,
            })
            &&& other != client ==> table::get(after, other) == table::get(leases, other)
        }),
{
    if let Some(lease) = table::get(leases, client) {
        let next = Lease { ip: lease.ip, expires: (now_secs + lease_secs) as u128 };
        table::put_then_get(leases, client, next, client);
        table::put_then_get(leases, client, next, other);
    }
}

} // verus!
