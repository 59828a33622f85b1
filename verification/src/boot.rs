//! What nodes boot: the settings of the boot service, one entry per hardware
//! address, and the iPXE scripts made of them.

use crate::addr::Ipv4Addr;
use crate::control;
use crate::control::{
    read_request, unknown_tag_reply, ControlOp, ControlReply, Op, Reply, Request, Verdict,
};
use crate::mac;
use crate::mac::{fmt_mac, Mac};
use crate::path;
use crate::path::sanitize_tftp_path;
use crate::table;
use crate::table::Table;
use crate::text;
use crate::text::{dotted_text, same_text};
use crate::wire;
use crate::wire::Wire;
use vstd::prelude::*;

verus! {

// ---------------------------------------------------------------------------
// Settings
// ---------------------------------------------------------------------------

/// The settings of the boot service.
#[derive(Debug)]
pub struct PxeConfig {
    /// Address of this server, for DHCP and TFTP.
    pub server_ip: Ipv4Addr,
    /// First address of the DHCP pool.
    pub pool_start: Ipv4Addr,
    /// Last address of the DHCP pool.
    pub pool_end: Ipv4Addr,
    pub subnet_mask: Ipv4Addr,
    /// Gateway for booting nodes.
    pub gateway: Option<Ipv4Addr>,
    /// Directory of the files that TFTP serves.
    pub tftp_root: String,
    /// What nodes boot that have no script of their own.
    pub boot_file: String,
    /// Where nodes fetch their software.
    pub seed_url: Option<String>,
    /// How long a lease lasts, in seconds.
    pub lease_secs: u32,
}

/// The mathematical form of a [`PxeConfig`].
#[verifier::ext_equal]
pub struct Pxe {
    pub server_ip: Ipv4Addr,
    pub pool_start: Ipv4Addr,
    pub pool_end: Ipv4Addr,
    pub subnet_mask: Ipv4Addr,
    pub gateway: Option<Ipv4Addr>,
    pub tftp_root: Seq<char>,
    pub boot_file: Seq<char>,
    pub seed_url: Option<Seq<char>>,
    pub lease_secs: u32,
}

impl DeepView for PxeConfig {
    type V = Pxe;

    open spec fn deep_view(&self) -> Pxe {
        Pxe {
            server_ip: self.server_ip,
            pool_start: self.pool_start,
            pool_end: self.pool_end,
            subnet_mask: self.subnet_mask,
            gateway: self.gateway,
            tftp_root: self.tftp_root@,
            boot_file: self.boot_file@,
            seed_url: self.seed_url.deep_view(),
            lease_secs: self.lease_secs,
        }
    }
}

pub fn default_mask() -> (r: Ipv4Addr)
    ensures
        r.spec_octets() == seq![255u8, 255u8, 255u8, 0u8],
{
    Ipv4Addr::new(255, 255, 255, 0)
}

pub fn default_tftp_root() -> (r: String)
    ensures
        r@ == "/var/lib/hivebus/tftp"@,
{
    "/var/lib/hivebus/tftp".to_owned()
}

pub fn default_boot_file() -> (r: String)
    ensures
        r@ == "ipxe.efi"@,
{
    "ipxe.efi".to_owned()
}

pub fn default_lease_secs() -> (r: u32)
    ensures
        r == 3600,
{
    3600
}

/// Refuses a pool that ends before it starts.
pub fn check_pool(pool_start: Ipv4Addr, pool_end: Ipv4Addr) -> (r: Result<(), String>)
    ensures
        match r {
            Ok(()) => pool_start.bits <= pool_end.bits,
            Err(message) => pool_start.bits > pool_end.bits && message@
                == "invalid DHCP pool: pool_start "@ + text::dotted(pool_start)
                + " is after pool_end "@ + text::dotted(pool_end),
        },
{
    if pool_start.bits > pool_end.bits {
        let mut s = "invalid DHCP pool: pool_start ".to_owned();
        s.append(dotted_text(pool_start).as_str());
        s.append(" is after pool_end ");
        s.append(dotted_text(pool_end).as_str());
        return Err(s);
    }
    Ok(())
}

// ---------------------------------------------------------------------------
// Entries
// ---------------------------------------------------------------------------

/// What a node boots.
#[derive(Debug)]
pub struct BootEntry {
    /// Host name to assign.
    pub hostname: String,
    /// Address to assign; from the pool if there is none.
    pub ip: Option<Ipv4Addr>,
    /// Path of the iPXE script below the TFTP root.
    pub ipxe_script: Option<String>,
    /// Further properties.
    pub tags: Table<String, String>,
}

/// The mathematical form of a [`BootEntry`].
#[verifier::ext_equal]
pub struct Boot {
    pub hostname: Seq<char>,
    pub ip: Option<Ipv4Addr>,
    pub ipxe_script: Option<Seq<char>>,
    pub tags: Seq<(Seq<char>, Seq<char>)>,
}

impl DeepView for BootEntry {
    type V = Boot;

    open spec fn deep_view(&self) -> Boot {
        Boot {
            hostname: self.hostname@,
            ip: self.ip.deep_view(),
            ipxe_script: self.ipxe_script.deep_view(),
            tags: self.tags.deep_view(),
        }
    }
}

impl Clone for BootEntry {
    fn clone(&self) -> (r: BootEntry)
        ensures
            r.deep_view() == self.deep_view(),
    {
        BootEntry {
            hostname: self.hostname.clone(),
            ip: self.ip,
            ipxe_script: match &self.ipxe_script {
                Some(name) => Some(name.clone()),
                None => None,
            },
            tags: self.tags.clone(),
        }
    }
}

type BootFields = (String, (Option<Ipv4Addr>, (Option<String>, Table<String, String>)));

impl Wire for BootEntry {
    open spec fn wire(v: Boot) -> Seq<u8> {
        <BootFields as Wire>::wire((v.hostname, (v.ip, (v.ipxe_script, v.tags))))
    }

    open spec fn parse(b: Seq<u8>) -> Result<(Boot, Seq<u8>), Seq<char>> {
        match <BootFields as Wire>::parse(b) {
            Err(text) => Err(text),
            Ok(((hostname, (ip, (ipxe_script, tags))), rest)) => Ok(
                (Boot { hostname, ip, ipxe_script, tags }, rest),
            ),
        }
    }

    open spec fn fits(v: Boot) -> bool {
        <BootFields as Wire>::fits((v.hostname, (v.ip, (v.ipxe_script, v.tags))))
    }

    open spec fn encodable(v: Boot) -> bool {
        true
    }

    proof fn round_trip(v: Boot, rest: Seq<u8>) {
        <BootFields as Wire>::round_trip((v.hostname, (v.ip, (v.ipxe_script, v.tags))), rest);
    }

    fn is_encodable(&self) -> (r: bool) {
        true
    }

    fn encode(&self, out: &mut Vec<u8>) {
        self.hostname.encode(out);
        self.ip.encode(out);
        self.ipxe_script.encode(out);
        self.tags.encode(out);
        assert(out@ =~= old(out)@ + Self::wire(self.deep_view()));
    }

    fn decode(b: &[u8]) -> (r: Result<(BootEntry, &[u8]), String>) {
        match <BootFields as Wire>::decode(b) {
            Err(text) => Err(text),
            Ok(((hostname, (ip, (ipxe_script, tags))), rest)) => Ok(
                (BootEntry { hostname, ip, ipxe_script, tags }, rest),
            ),
        }
    }
}

/// The path of the script of a node, unless its entry names another.
pub open spec fn script_path(mac: Seq<u8>) -> Seq<char> {
    "scripts/"@ + mac::mac_text(mac) + ".ipxe"@
}

/// The path of the script of a node, unless its entry names another.
pub fn default_script_path(mac: &Mac) -> (r: String)
    ensures
        r@ == script_path(mac@),
{
    let mut s = "scripts/".to_owned();
    s.append(fmt_mac(mac).as_str());
    s.append(".ipxe");
    s
}

/// The entry of a node that was not known before.
pub open spec fn new_entry(mac: Seq<u8>) -> Boot {
    Boot {
        hostname: "node-"@ + mac::mac_text(mac),
        ip: None,
        ipxe_script: Some(script_path(mac)),
        tags: seq![],
    }
}

/// The entry of a node that was not known before.
pub fn discovered_entry(mac: &Mac) -> (r: BootEntry)
    ensures
        r.deep_view() == new_entry(mac@),
{
    let mut hostname = "node-".to_owned();
    hostname.append(fmt_mac(mac).as_str());
    BootEntry {
        hostname,
        ip: None,
        ipxe_script: Some(default_script_path(mac)),
        tags: Table::new(),
    }
}

// ---------------------------------------------------------------------------
// Scripts
// ---------------------------------------------------------------------------

/// Where a node fetches its software: what its entry says, else what the
/// settings say, else a file that this server offers.
pub open spec fn seed_of(cfg: Pxe, entry: Boot) -> Seq<char> {
    match table::get(entry.tags, "seed_url"@) {
        Some(url) => url,
        None => match cfg.seed_url {
            Some(url) => url,
            None => "http://"@ + text::dotted(cfg.server_ip) + ":7780/seed.tar.gz"@,
        },
    }
}

/// The script of a node.
pub open spec fn script_of(cfg: Pxe, mac: Seq<u8>, entry: Boot) -> Seq<char> {
    let url = seed_of(cfg, entry);
    "#!ipxe\necho hivebus bootstrap for "@ + entry.hostname + " ("@ + mac::mac_text(mac)
        + ")\nset seed-url "@ + url + "\nchain "@ + url + "\n"@
}

/// The script of a node.
pub fn render_ipxe_script(cfg: &PxeConfig, mac: &Mac, entry: &BootEntry) -> (r: String)
    ensures
        r@ == script_of(cfg.deep_view(), mac@, entry.deep_view()),
{
    let url: String = match entry.tags.get(&"seed_url".to_owned()) {
        Some(url) => url.clone(),
        None => match &cfg.seed_url {
            Some(url) => url.clone(),
            None => {
                let mut s = "http://".to_owned();
                s.append(dotted_text(cfg.server_ip).as_str());
                s.append(":7780/seed.tar.gz");
                s
            },
        },
    };
    let mut s = "#!ipxe\necho hivebus bootstrap for ".to_owned();
    s.append(entry.hostname.as_str());
    s.append(" (");
    s.append(fmt_mac(mac).as_str());
    s.append(")\nset seed-url ");
    s.append(url.as_str());
    s.append("\nchain ");
    s.append(url.as_str());
    s.append("\n");
    s
}

/// What is to be done about the script of a node.
#[derive(Debug)]
pub enum ScriptFile {
    /// The entry has no script.
    Nothing,
    /// The path in the entry does not stay below the TFTP root.
    InvalidPath,
    /// This file is to be written.
    File { path: String, contents: String },
}

/// The mathematical form of a [`ScriptFile`].
#[verifier::ext_equal]
pub enum Script {
    Nothing,
    InvalidPath,
    File { path: Seq<char>, contents: Seq<char> },
}

impl DeepView for ScriptFile {
    type V = Script;

    open spec fn deep_view(&self) -> Script {
        match self {
            ScriptFile::Nothing => Script::Nothing,
            ScriptFile::InvalidPath => Script::InvalidPath,
            ScriptFile::File { path, contents } => Script::File {
                path: path@,
                contents: contents@,
            },
        }
    }
}

/// What is to be done about the script of a node.
pub open spec fn script_file(cfg: Pxe, mac: Seq<u8>, entry: Boot) -> Script {
    match entry.ipxe_script {
        None => Script::Nothing,
        Some(name) => match path::sanitized(cfg.tftp_root, name) {
            None => Script::InvalidPath,
            Some(path) => Script::File { path, contents: script_of(cfg, mac, entry) },
        },
    }
}

/// Decides what is to be done about the script of a node.
pub fn write_ipxe_script(cfg: &PxeConfig, mac: &Mac, entry: &BootEntry) -> (r: ScriptFile)
    ensures
        r.deep_view() == script_file(cfg.deep_view(), mac@, entry.deep_view()),
{
    match &entry.ipxe_script {
        None => ScriptFile::Nothing,
        Some(name) => match sanitize_tftp_path(cfg.tftp_root.as_str(), name.as_str()) {
            None => ScriptFile::InvalidPath,
            Some(path) => ScriptFile::File { path, contents: render_ipxe_script(cfg, mac, entry) },
        },
    }
}

/// Whatever an entry says, its script is written below the TFTP root.
pub proof fn scripts_stay_below_root(cfg: Pxe, mac: Seq<u8>, entry: Boot)
    ensures
        script_file(cfg, mac, entry) matches Script::File { path, .. } ==> path::stays_below(
            cfg.tftp_root,
            path,
        ),
{
    if let Some(name) = entry.ipxe_script {
        path::sanitized_stays_below_root(cfg.tftp_root, name);
    }
}

proof fn lemma_mac_text_is_plain(mac: Seq<u8>)
    ensures
        forall|i: int|
            0 <= i < mac::mac_text(mac).len() ==> (#[trigger] mac::mac_text(mac)[i]) != '.'
                && mac::mac_text(mac)[i] != '/',
    decreases mac.len(),
{
    let s = mac::mac_text(mac);
    if mac.len() > 0 {
        let front = text::hex(mac[0] as nat, 2);
        reveal_with_fuel(text::hex, 3);
        let hi = text::digit((mac[0] as nat / 16) % 16);
        let lo = text::digit(mac[0] as nat % 16);
        assert(front =~= seq![hi, lo]);
        if mac.len() > 1 {
            let tail = mac::mac_text(mac.drop_first());
            lemma_mac_text_is_plain(mac.drop_first());
            assert forall|i: int| 0 <= i < s.len() implies (#[trigger] s[i]) != '.' && s[i]
                != '/' by {
                if i >= 3 {
                    assert(s[i] == tail[i - 3]);
                }
            }
        }
    }
}

/// The script of a node that was not known before is written where it is
/// looked for: in the directory `scripts` of the TFTP root, under the node's
/// hardware address.
pub proof fn new_script_has_its_place(cfg: Pxe, mac: Seq<u8>)
    ensures
        script_file(cfg, mac, new_entry(mac)) == (Script::File {
            path: path::joined(
                path::joined(cfg.tftp_root, "scripts"@),
                mac::mac_text(mac) + ".ipxe"@,
            ),
            contents: script_of(cfg, mac, new_entry(mac)),
        }),
{
    reveal_strlit("scripts/");
    reveal_strlit("scripts");
    reveal_strlit(".ipxe");
    lemma_mac_text_is_plain(mac);
    let m = mac::mac_text(mac);
    let s = script_path(mac);
    let file = m + ".ipxe"@;
    assert(s =~= "scripts/"@ + file);
    assert forall|i: int| 8 <= i < s.len() - 5 implies s[i] != '.' && s[i] != '/' by {
        assert(s[i] == m[i - 8]);
    }
    assert forall|i: int| !path::climbs_at(s, i) by {
        if path::climbs_at(s, i) {
            assert(s[i] == '.' && s[i + 1] == '.');
            if i >= s.len() - 5 {
                assert(s[i + 1] == ".ipxe"@[i + 1 - (s.len() - 5)]);
            }
        }
    }
    text::lemma_first_is(s, '/', 7);
    assert(s.take(7) =~= "scripts"@);
    assert(s.skip(8) =~= file);
    assert forall|i: int| 0 <= i < file.len() implies file[i] != '/' by {
        if i < m.len() {
            assert(file[i] == m[i]);
        } else {
            assert(file[i] == ".ipxe"@[i - m.len()]);
        }
    }
    text::lemma_first_is(file, '/', file.len());
    assert(file.take(file.len() as int) =~= file);
    let base = path::joined(cfg.tftp_root, "scripts"@);
    assert("scripts"@.len() == 7);
    assert(path::below(base, file) == path::joined(base, file));
    assert(path::below(cfg.tftp_root, s) == path::below(base, file));
}

// ---------------------------------------------------------------------------
// Control
// ---------------------------------------------------------------------------

/// The table of entries.
pub type BootTable = Table<Mac, BootEntry>;

/// What the boot service does with a request.
#[derive(Debug)]
pub enum BootAction {
    /// Answer this.
    Reply(ControlReply),
    /// Exit without an answer.
    Exit,
    /// An entry was stored: see to its script, then answer that it is done.
    Registered { mac: Mac, hostname: String, script: ScriptFile },
}

/// The mathematical form of a [`BootAction`].
#[verifier::ext_equal]
pub enum BootStep {
    Reply(Reply),
    Exit,
    Registered { mac: Seq<u8>, hostname: Seq<char>, script: Script },
}

impl DeepView for BootAction {
    type V = BootStep;

    open spec fn deep_view(&self) -> BootStep {
        match self {
            BootAction::Reply(reply) => BootStep::Reply(reply.deep_view()),
            BootAction::Exit => BootStep::Exit,
            BootAction::Registered { mac, hostname, script } => BootStep::Registered {
                mac: mac@,
                hostname: hostname@,
                script: script.deep_view(),
            },
        }
    }
}

/// The rows of a table with the keys in their written form.
pub open spec fn written_rows(rows: Seq<(Seq<u8>, Boot)>) -> Seq<(Seq<char>, Boot)> {
    Seq::new(rows.len(), |i: int| (mac::mac_text(rows[i].0), rows[i].1))
}

/// What a request does to the table, and what is done about it.
pub open spec fn after_boot_request(
    cfg: Pxe,
    rows: Seq<(Seq<u8>, Boot)>,
    payload: Seq<u8>,
) -> (Seq<(Seq<u8>, Boot)>, BootStep) {
    match control::verdict(payload) {
        Verdict::Reply(reply) => (rows, BootStep::Reply(reply)),
        Verdict::Exit => (rows, BootStep::Exit),
        Verdict::Custom { tag, payload } => if tag == "boot.register"@ {
            match wire::front::<(Mac, BootEntry)>(payload) {
                Err(message) => (rows, BootStep::Reply(Reply::Error { message })),
                Ok((mac, entry)) => (
                    table::put(rows, mac, entry),
                    BootStep::Registered {
                        mac,
                        hostname: entry.hostname,
                        script: script_file(cfg, mac, entry),
                    },
                ),
            }
        } else if tag == "boot.list"@ {
            (
                rows,
                BootStep::Reply(
                    Reply::Data {
                        tag: "boot.list"@,
                        payload: <Vec<(String, BootEntry)> as Wire>::wire(written_rows(rows)),
                    },
                ),
            )
        } else {
            (rows, BootStep::Reply(control::unknown_tag(tag)))
        },
    }
}

/// A registered entry is found under its address from then on, and no other
/// entry changes.
pub proof fn registration_is_kept(
    cfg: Pxe,
    rows: Seq<(Seq<u8>, Boot)>,
    mac: Seq<u8>,
    entry: Boot,
    other: Seq<u8>,
)
    requires
        table::distinct(rows),
        <(Mac, BootEntry) as Wire>::fits((mac, entry)),
        ControlOp::fits(register_op(mac, entry)),
    ensures
        ({
            let (after, step) = after_boot_request(
                cfg,
                rows,
                ControlOp::wire(register_op(mac, entry)),
            );
            &&& step is Registered
            &&& table::get(after, mac) == Some(entry)
            &&& other != mac ==> table::get(after, other) == table::get(rows, other)
        }),
{
    let inner = <(Mac, BootEntry) as Wire>::wire((mac, entry));
    control::custom_request_arrives("boot.register"@, inner);
    wire::lemma_front_of_wire::<(Mac, BootEntry)>((mac, entry), seq![]);
    table::put_then_get(rows, mac, entry, other);
}

/// The list of entries is read back as the entries of the table, each with its
/// address in the written form.
pub proof fn listed_entries_are_read_back(cfg: Pxe, rows: Seq<(Seq<u8>, Boot)>)
    requires
        <Vec<(String, BootEntry)> as Wire>::fits(written_rows(rows)),
        ControlOp::fits(list_op()),
    ensures
        after_boot_request(cfg, rows, ControlOp::wire(list_op())).0 == rows,
        after_boot_request(cfg, rows, ControlOp::wire(list_op())).1 matches BootStep::Reply(
            Reply::Data { payload, .. },
        ) && wire::front::<Vec<(String, BootEntry)>>(payload) == Ok::<
            Seq<(Seq<char>, Boot)>,
            Seq<char>,
        >(written_rows(rows)),
{
    control::custom_request_arrives("boot.list"@, seq![]);
    reveal_strlit("boot.list");
    reveal_strlit("boot.register");
    assert("boot.list"@.len() != "boot.register"@.len());
    wire::lemma_front_of_wire::<Vec<(String, BootEntry)>>(written_rows(rows), seq![]);
}

/// The request that lists the entries.
pub open spec fn list_op() -> Op {
    Op::Custom { tag: "boot.list"@, payload: seq![] }
}

/// The request that registers an entry.
pub open spec fn register_op(mac: Seq<u8>, entry: Boot) -> Op {
    Op::Custom {
        tag: "boot.register"@,
        payload: <(Mac, BootEntry) as Wire>::wire((mac, entry)),
    }
}

fn list_entries(boot_table: &BootTable) -> (r: Vec<u8>)
    ensures
        r@ == <Vec<(String, BootEntry)> as Wire>::wire(written_rows(boot_table.deep_view())),
{
    let rows = boot_table.rows();
    let ghost all = written_rows(rows.deep_view());
    let mut entries: Vec<(String, BootEntry)> = Vec::new();
    let mut i: usize = 0;
    while i < rows.len()
        invariant
            i <= rows@.len(),
            all == written_rows(rows.deep_view()),
            entries.deep_view() == all.take(i as int),
        decreases rows@.len() - i,
    {
        let ghost before = entries.deep_view();
        let mac = &rows[i].0;
        let row = (fmt_mac(mac), rows[i].1.clone());
        let ghost written = row.deep_view();
        assert(rows.deep_view()[i as int] == rows@[i as int].deep_view());
        assert(mac.deep_view() =~= mac@);
        entries.push(row);
        assert(entries.deep_view() =~= before.push(written));
        assert(entries.deep_view() =~= all.take(i + 1));
        i += 1;
    }
    assert(entries.deep_view() =~= all);
    wire::to_vec(&entries)
}

/// Carries out a request.
pub fn boot_request(cfg: &PxeConfig, boot_table: &mut BootTable, payload: &[u8]) -> (r: BootAction)
    ensures
        (final(boot_table).deep_view(), r.deep_view()) == after_boot_request(
            cfg.deep_view(),
            old(boot_table).deep_view(),
            payload@,
        ),
{
    match read_request(payload) {
        Request::Reply(reply) => BootAction::Reply(reply),
        Request::Exit => BootAction::Exit,
        Request::Custom { tag, payload } => {
            if same_text(tag.as_str(), "boot.register") {
                match wire::from_slice::<(Mac, BootEntry)>(payload.as_slice()) {
                    Err(message) => BootAction::Reply(ControlReply::Error { message }),
                    Ok((mac, entry)) => {
                        assert(mac.deep_view() =~= mac@);
                        let hostname = entry.hostname.clone();
                        let script = write_ipxe_script(cfg, &mac, &entry);
                        boot_table.insert(mac, entry);
                        BootAction::Registered { mac, hostname, script }
                    },
                }
            } else if same_text(tag.as_str(), "boot.list") {
                BootAction::Reply(
                    ControlReply::Data {
                        tag: "boot.list".to_owned(),
                        payload: list_entries(boot_table),
                    },
                )
            } else {
                BootAction::Reply(unknown_tag_reply(tag.as_str()))
            }
        },
    }
}

// ---------------------------------------------------------------------------
// What is written for a node
// ---------------------------------------------------------------------------

/// The script that is written for a node says what its entry says: it greets
/// the node by the host name of the entry and its hardware address, and chains
/// to the `seed_url` of the entry's tags, else to that of the settings, else to
/// this server. It is written where the entry says, as far as that stays below
/// the root; for an entry without a script nothing is written.
pub proof fn script_says_what_the_entry_says(cfg: Pxe, mac: Seq<u8>, entry: Boot)
    ensures
        ({
            let url = match table::get(entry.tags, "seed_url"@) {
                Some(own) => own,
                None => match cfg.seed_url {
                    Some(common) => common,
                    None => "http://"@ + text::dotted(cfg.server_ip) + ":7780/seed.tar.gz"@,
                },
            };
            match entry.ipxe_script {
                None => script_file(cfg, mac, entry) == Script::Nothing,
                Some(name) => match path::sanitized(cfg.tftp_root, name) {
                    None => script_file(cfg, mac, entry) == Script::InvalidPath,
                    Some(place) => script_file(cfg, mac, entry) matches Script::File {
                        path,
                        contents,
                    } && path == place && contents == "#!ipxe\necho hivebus bootstrap for "@
                        + entry.hostname + " ("@ + mac::mac_text(mac) + ")\nset seed-url "@ + url
                        + "\nchain "@ + url + "\n"@,
                },
            }
        }),
{
}

/// Registering an entry stores it as it was sent, and has its script written:
/// the one that the registered entry asks for, with its host name and its
/// `seed_url`. The answer names the registered address and host name.
pub proof fn registered_script_is_written(
    cfg: Pxe,
    rows: Seq<(Seq<u8>, Boot)>,
    mac: Seq<u8>,
    entry: Boot,
    url: Seq<char>,
    name: Seq<char>,
    place: Seq<char>,
)
    requires
        <(Mac, BootEntry) as Wire>::fits((mac, entry)),
        ControlOp::fits(register_op(mac, entry)),
        entry.ipxe_script == Some(name),
        path::sanitized(cfg.tftp_root, name) == Some(place),
        table::get(entry.tags, "seed_url"@) == Some(url),
    ensures
        ({
            let (after, step) = after_boot_request(
                cfg,
                rows,
                ControlOp::wire(register_op(mac, entry)),
            );
            step matches BootStep::Registered { mac: m, hostname, script } && m == mac && hostname
                == entry.hostname && (script matches Script::File { path, contents } && path
                == place && contents == "#!ipxe\necho hivebus bootstrap for "@ + entry.hostname
                + " ("@ + mac::mac_text(mac) + ")\nset seed-url "@ + url + "\nchain "@ + url
                + "\n"@)
        }),
{
    let inner = <(Mac, BootEntry) as Wire>::wire((mac, entry));
    control::custom_request_arrives("boot.register"@, inner);
    wire::lemma_front_of_wire::<(Mac, BootEntry)>((mac, entry), seq![]);
}

/// Whatever entry is registered, the step names its address and host name, and
/// what is done about the script is what the entry itself asks for.
pub proof fn registration_goes_by_the_entry(
    cfg: Pxe,
    rows: Seq<(Seq<u8>, Boot)>,
    mac: Seq<u8>,
    entry: Boot,
)
    requires
        <(Mac, BootEntry) as Wire>::fits((mac, entry)),
        ControlOp::fits(register_op(mac, entry)),
    ensures
        after_boot_request(cfg, rows, ControlOp::wire(register_op(mac, entry))).1 == (
        BootStep::Registered {
            mac,
            hostname: entry.hostname,
            script: script_file(cfg, mac, entry),
        }),
{
    let inner = <(Mac, BootEntry) as Wire>::wire((mac, entry));
    control::custom_request_arrives("boot.register"@, inner);
    wire::lemma_front_of_wire::<(Mac, BootEntry)>((mac, entry), seq![]);
}

/// The entry of new hardware: it is called after its hardware address, takes
/// its address from the pool, has a script named after its hardware address,
/// and no further properties.
pub proof fn new_hardware_is_called_by_address(mac: Seq<u8>)
    ensures
        new_entry(mac).hostname == "node-"@ + mac::mac_text(mac),
        new_entry(mac).ip is None,
        new_entry(mac).ipxe_script == Some("scripts/"@ + mac::mac_text(mac) + ".ipxe"@),
        new_entry(mac).tags == Seq::<(Seq<char>, Seq<char>)>::empty(),
{
}

/// The list shows every entry of the table, in its order, under its hardware
/// address in the written form.
pub proof fn every_entry_is_listed(cfg: Pxe, rows: Seq<(Seq<u8>, Boot)>)
    requires
        <Vec<(String, BootEntry)> as Wire>::fits(
            Seq::new(rows.len(), |i: int| (mac::mac_text(rows[i].0), rows[i].1)),
        ),
        ControlOp::fits(list_op()),
    ensures
        after_boot_request(cfg, rows, ControlOp::wire(list_op())).1 matches BootStep::Reply(
            Reply::Data { tag, payload },
        ) && tag == "boot.list"@ && (wire::front::<Vec<(String, BootEntry)>>(payload) matches Ok(
            list,
        ) && list.len() == rows.len() && forall|i: int|
            0 <= i < rows.len() ==> #[trigger] list[i] == (mac::mac_text(rows[i].0), rows[i].1)),
{
    assert(written_rows(rows) =~= Seq::new(
        rows.len(),
        |i: int| (mac::mac_text(rows[i].0), rows[i].1),
    ));
    listed_entries_are_read_back(cfg, rows);
    control::custom_request_arrives("boot.list"@, seq![]);
    reveal_strlit("boot.list");
    reveal_strlit("boot.register");
    assert("boot.list"@.len() != "boot.register"@.len());
}

/// An entry that cannot be read is refused with the reason, and any other
/// command is refused as unknown; neither changes the table, nor does any
/// request that is not the daemon's own.
pub proof fn other_requests_change_nothing(
    cfg: Pxe,
    rows: Seq<(Seq<u8>, Boot)>,
    tag: Seq<char>,
    inner: Seq<u8>,
    rest: Seq<u8>,
    unread: Seq<u8>,
)
    requires
        ControlOp::fits((Op::Custom { tag, payload: inner })),
    ensures
        tag == "boot.register"@ ==> (wire::front::<(Mac, BootEntry)>(inner) matches Err(message)
            ==> after_boot_request(
            cfg,
            rows,
            ControlOp::wire((Op::Custom { tag, payload: inner })),
        ) == (rows, BootStep::Reply(Reply::Error { message }))),
        tag != "boot.register"@ && tag != "boot.list"@ ==> after_boot_request(
            cfg,
            rows,
            ControlOp::wire((Op::Custom { tag, payload: inner })),
        ) == (rows, BootStep::Reply(Reply::Error { message: "unknown tag: "@ + tag })),
        after_boot_request(cfg, rows, ControlOp::wire(Op::Ping) + rest) == (
            rows,
            BootStep::Reply(Reply::Done),
        ),
        after_boot_request(cfg, rows, ControlOp::wire(Op::Shutdown) + rest) == (
            rows,
            BootStep::Exit,
        ),
        after_boot_request(cfg, rows, ControlOp::wire(Op::GetNodes) + rest) == (
            rows,
            BootStep::Reply(Reply::Error { message: "unsupported op"@ }),
        ),
        wire::front::<ControlOp>(unread) matches Err(message) ==> after_boot_request(
            cfg,
            rows,
            unread,
        ) == (rows, BootStep::Reply(Reply::Error { message })),
{
    control::custom_request_arrives(tag, inner);
    control::plain_requests(unread, rest);
}

/// An entry is sent as its host name, its address, its script and its tags, in
/// this order.
pub proof fn entry_layout(entry: Boot)
    ensures
        BootEntry::wire(entry) == <String as Wire>::wire(entry.hostname) + <Option<
            Ipv4Addr,
        > as Wire>::wire(entry.ip) + <Option<String> as Wire>::wire(entry.ipxe_script) + <Vec<
            (String, String),
        > as Wire>::wire(entry.tags),
{
    wire::lemma_four(
        <String as Wire>::wire(entry.hostname),
        <Option<Ipv4Addr> as Wire>::wire(entry.ip),
        <Option<String> as Wire>::wire(entry.ipxe_script),
        <Vec<(String, String)> as Wire>::wire(entry.tags),
    );
}

/// Bytes behind an entry that is registered do not count.
pub proof fn bytes_behind_entry(
    cfg: Pxe,
    rows: Seq<(Seq<u8>, Boot)>,
    mac: Seq<u8>,
    entry: Boot,
    rest: Seq<u8>,
)
    requires
        <(Mac, BootEntry) as Wire>::fits((mac, entry)),
        ControlOp::fits(register_op(mac, entry)),
        ControlOp::fits(
            (Op::Custom {
                tag: "boot.register"@,
                payload: <(Mac, BootEntry) as Wire>::wire((mac, entry)) + rest,
            }),
        ),
    ensures
        after_boot_request(
            cfg,
            rows,
            ControlOp::wire(
                (Op::Custom {
                    tag: "boot.register"@,
                    payload: <(Mac, BootEntry) as Wire>::wire((mac, entry)) + rest,
                }),
            ),
        ) == after_boot_request(cfg, rows, ControlOp::wire(register_op(mac, entry))),
{
    let sent = <(Mac, BootEntry) as Wire>::wire((mac, entry));
    control::custom_request_arrives("boot.register"@, sent);
    control::custom_request_arrives("boot.register"@, sent + rest);
    wire::lemma_front_of_wire::<(Mac, BootEntry)>((mac, entry), rest);
}

/// What stands behind the request for the list does not count.
pub proof fn bytes_behind_list(cfg: Pxe, rows: Seq<(Seq<u8>, Boot)>, rest: Seq<u8>)
    requires
        ControlOp::fits(list_op()),
        ControlOp::fits((Op::Custom { tag: "boot.list"@, payload: rest })),
    ensures
        after_boot_request(
            cfg,
            rows,
            ControlOp::wire((Op::Custom { tag: "boot.list"@, payload: rest })),
        ) == after_boot_request(cfg, rows, ControlOp::wire(list_op())),
{
    control::custom_request_arrives("boot.list"@, rest);
    control::custom_request_arrives("boot.list"@, seq![]);
    reveal_strlit("boot.list");
    reveal_strlit("boot.register");
}

} // verus!
