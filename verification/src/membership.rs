//! The membership table: who is in the cluster, in which state, and who is the
//! master.

use crate::addr::SocketAddr;
use crate::clock::{system_now, Duration, Timestamp};
use crate::frame;
use crate::frame::{FrameHeader, MsgType};
use crate::node::{Node, NodeInfo, NodeState};
use crate::octets;
use crate::payload::{
    Announce, AnnouncePayload, GossipEntry, GossipPayload, HeartbeatPayload, Leave, LeavePayload,
};
use crate::table;
use crate::table::Table;
use crate::text;
use crate::text::hex_text;
use crate::wire;
use crate::wire::Wire;
use vstd::prelude::*;
use vstd::slice::slice_subrange;

verus! {

/// Whether `rows` is a membership table of the node `self_id`: no node stands
/// in it twice, each row is filed under the node's own number, and the node
/// itself is not in it.
pub open spec fn sound(rows: Seq<(u16, Node)>, self_id: u16) -> bool {
    &&& table::distinct(rows)
    &&& forall|i: int|
        0 <= i < rows.len() ==> (#[trigger] rows[i]).0 == rows[i].1.node_id && rows[i].0 != self_id
}

/// Storing another node under its own number leaves the table sound.
pub proof fn put_keeps_sound(rows: Seq<(u16, Node)>, self_id: u16, n: Node)
    requires
        sound(rows, self_id),
        n.node_id != self_id,
    ensures
        sound(table::put(rows, n.node_id, n), self_id),
{
    table::put_then_get(rows, n.node_id, n, n.node_id);
    let after = table::put(rows, n.node_id, n);
    assert forall|i: int| 0 <= i < after.len() implies (#[trigger] after[i]).0 == after[i].1.node_id
        && after[i].0 != self_id by {
        if table::holds(rows, n.node_id) {
            let p = table::place(rows, n.node_id);
            if i != p {
                assert(after[i] == rows[i]);
            }
        } else if i < rows.len() {
            assert(after[i] == rows[i]);
        }
    }
}

// ---------------------------------------------------------------------------
// What frames do to the table
// ---------------------------------------------------------------------------

/// The host name that a node gets before it has announced one.
pub open spec fn placeholder(id: u16) -> Seq<char> {
    "node-0x"@ + text::hex(id as nat, 4)
}

/// What is entered of a node that was not known before and has not announced
/// itself.
pub open spec fn newcomer(
    id: u16,
    state: NodeState,
    incarnation: u32,
    from: SocketAddr,
    now: Timestamp,
) -> Node {
    Node {
        node_id: id,
        hostname: placeholder(id),
        control_addr: from,
        state,
        incarnation,
        last_seen: now,
        is_master: false,
    }
}

/// What is known of the node `id` after a heartbeat.
pub open spec fn revived(
    rows: Seq<(u16, Node)>,
    id: u16,
    incarnation: u32,
    from: SocketAddr,
    now: Timestamp,
) -> Node {
    let known = match table::get(rows, id) {
        Some(n) => n,
        None => newcomer(id, NodeState::Alive, incarnation, from, now),
    };
    Node { state: NodeState::Alive, incarnation, last_seen: now, ..known }
}

/// What is known of the node `id` after an announcement.
pub open spec fn introduced(id: u16, a: Announce, now: Timestamp) -> Node {
    Node {
        node_id: id,
        hostname: a.hostname,
        control_addr: a.control_addr,
        state: NodeState::Alive,
        incarnation: a.incarnation,
        last_seen: now,
        is_master: false,
    }
}

/// The table after a heartbeat.
pub open spec fn after_heartbeat(
    rows: Seq<(u16, Node)>,
    id: u16,
    incarnation: u32,
    from: SocketAddr,
    now: Timestamp,
) -> Seq<(u16, Node)> {
    table::put(rows, id, revived(rows, id, incarnation, from, now))
}

/// The table after an announcement.
pub open spec fn after_announce(
    rows: Seq<(u16, Node)>,
    id: u16,
    a: Announce,
    now: Timestamp,
) -> Seq<(u16, Node)> {
    table::put(rows, id, introduced(id, a, now))
}

/// The table after a node said that it leaves.
pub open spec fn after_leave(rows: Seq<(u16, Node)>, id: u16) -> Seq<(u16, Node)> {
    match table::get(rows, id) {
        Some(n) => table::put(rows, id, Node { state: NodeState::Dead, ..n }),
        None => rows,
    }
}

/// The table after one entry of gossip: a node that is not known is added, one
/// that is known takes over the state unless the gossip is of an older
/// incarnation.
pub open spec fn after_entry(
    rows: Seq<(u16, Node)>,
    self_id: u16,
    e: GossipEntry,
    from: SocketAddr,
    now: Timestamp,
) -> Seq<(u16, Node)> {
    if e.node_id == self_id {
        rows
    } else {
        match table::get(rows, e.node_id) {
            Some(n) => if e.incarnation >= n.incarnation {
                table::put(
                    rows,
                    e.node_id,
                    Node { state: e.state, incarnation: e.incarnation, ..n },
                )
            } else {
                rows
            },
            None => table::put(
                rows,
                e.node_id,
                newcomer(e.node_id, e.state, e.incarnation, from, now),
            ),
        }
    }
}

/// The table after all entries of a gossip frame.
pub open spec fn after_gossip(
    rows: Seq<(u16, Node)>,
    self_id: u16,
    entries: Seq<GossipEntry>,
    from: SocketAddr,
    now: Timestamp,
) -> Seq<(u16, Node)>
    decreases entries.len(),
{
    if entries.len() == 0 {
        rows
    } else {
        after_gossip(
            after_entry(rows, self_id, entries[0], from, now),
            self_id,
            entries.drop_first(),
            from,
            now,
        )
    }
}

/// What there is to report of a received frame.
#[derive(Debug, Clone)]
pub enum Event {
    /// The datagram is no discovery frame.
    InvalidFrame,
    /// The frame is of a type that does not exist.
    UnknownType,
    /// Nothing.
    Quiet,
    /// A node announced itself. `replaced` holds the host name and address
    /// that its number stood for until then, where they were different.
    Announced {
        node_id: u16,
        hostname: String,
        control_addr: SocketAddr,
        replaced: Option<(String, SocketAddr)>,
    },
    /// A node said that it leaves.
    Leaving { node_id: u16, reason: String },
}

/// The mathematical form of an [`Event`].
#[verifier::ext_equal]
pub enum News {
    InvalidFrame,
    UnknownType,
    Quiet,
    Announced {
        node_id: u16,
        hostname: Seq<char>,
        control_addr: SocketAddr,
        replaced: Option<(Seq<char>, SocketAddr)>,
    },
    Leaving { node_id: u16, reason: Seq<char> },
}

impl DeepView for Event {
    type V = News;

    open spec fn deep_view(&self) -> News {
        match self {
            Event::InvalidFrame => News::InvalidFrame,
            Event::UnknownType => News::UnknownType,
            Event::Quiet => News::Quiet,
            Event::Announced { node_id, hostname, control_addr, replaced } => News::Announced {
                node_id: *node_id,
                hostname: hostname@,
                control_addr: *control_addr,
                replaced: replaced.deep_view(),
            },
            Event::Leaving { node_id, reason } => News::Leaving {
                node_id: *node_id,
                reason: reason@,
            },
        }
    }
}

/// The host name and address that `id` stands for, where an announcement would
/// change them.
pub open spec fn displaced(rows: Seq<(u16, Node)>, id: u16, a: Announce) -> Option<
    (Seq<char>, SocketAddr),
> {
    match table::get(rows, id) {
        Some(n) => if n.hostname != a.hostname || n.control_addr != a.control_addr {
            Some((n.hostname, n.control_addr))
        } else {
            None
        },
        None => None,
    }
}

/// The table after the datagram `data` was received, and what there is to
/// report of it.
pub open spec fn after_datagram(
    rows: Seq<(u16, Node)>,
    self_id: u16,
    data: Seq<u8>,
    from: SocketAddr,
    now: Timestamp,
) -> (Seq<(u16, Node)>, News) {
    let id = frame::header_sender(data);
    let body = data.skip(4);
    if !frame::has_header(data) {
        (rows, News::InvalidFrame)
    } else if id == self_id {
        (rows, News::Quiet)
    } else {
        match frame::header_type(data) {
            None => (rows, News::UnknownType),
            Some(MsgType::Heartbeat) => match wire::front::<HeartbeatPayload>(body) {
                Ok(p) => (after_heartbeat(rows, id, p.incarnation, from, now), News::Quiet),
                Err(_) => (rows, News::Quiet),
            },
            Some(MsgType::Announce) => match wire::front::<AnnouncePayload>(body) {
                Ok(a) => (
                    after_announce(rows, id, a, now),
                    News::Announced {
                        node_id: id,
                        hostname: a.hostname,
                        control_addr: a.control_addr,
                        replaced: displaced(rows, id, a),
                    },
                ),
                Err(_) => (rows, News::Quiet),
            },
            Some(MsgType::Leave) => match wire::front::<LeavePayload>(body) {
                Ok(p) => (
                    after_leave(rows, id),
                    News::Leaving { node_id: id, reason: p.reason },
                ),
                Err(_) => (rows, News::Quiet),
            },
            Some(MsgType::Gossip) => match wire::front::<GossipPayload>(body) {
                Ok(entries) => (after_gossip(rows, self_id, entries, from, now), News::Quiet),
                Err(_) => (rows, News::Quiet),
            },
            Some(_) => (rows, News::Quiet),
        }
    }
}

proof fn lemma_get_sound(rows: Seq<(u16, Node)>, self_id: u16, id: u16)
    requires
        sound(rows, self_id),
    ensures
        table::get(rows, id) matches Some(n) ==> n.node_id == id,
{
    if table::holds(rows, id) {
        let p = table::place(rows, id);
        assert(rows[p].0 == id);
    }
}

proof fn entry_keeps_sound(
    rows: Seq<(u16, Node)>,
    self_id: u16,
    e: GossipEntry,
    from: SocketAddr,
    now: Timestamp,
)
    requires
        sound(rows, self_id),
    ensures
        sound(after_entry(rows, self_id, e, from, now), self_id),
{
    lemma_get_sound(rows, self_id, e.node_id);
    if e.node_id != self_id {
        match table::get(rows, e.node_id) {
            Some(n) => {
                put_keeps_sound(
                    rows,
                    self_id,
                    Node { state: e.state, incarnation: e.incarnation, ..n },
                );
            },
            None => {
                put_keeps_sound(
                    rows,
                    self_id,
                    newcomer(e.node_id, e.state, e.incarnation, from, now),
                );
            },
        }
    }
}

proof fn gossip_keeps_sound(
    rows: Seq<(u16, Node)>,
    self_id: u16,
    entries: Seq<GossipEntry>,
    from: SocketAddr,
    now: Timestamp,
)
    requires
        sound(rows, self_id),
    ensures
        sound(after_gossip(rows, self_id, entries, from, now), self_id),
    decreases entries.len(),
{
    if entries.len() > 0 {
        entry_keeps_sound(rows, self_id, entries[0], from, now);
        gossip_keeps_sound(
            after_entry(rows, self_id, entries[0], from, now),
            self_id,
            entries.drop_first(),
            from,
            now,
        );
    }
}

/// Whatever datagram arrives, the table stays sound: no node enters twice, and
/// the node itself never enters.
pub proof fn datagram_keeps_sound(
    rows: Seq<(u16, Node)>,
    self_id: u16,
    data: Seq<u8>,
    from: SocketAddr,
    now: Timestamp,
)
    requires
        sound(rows, self_id),
    ensures
        sound(after_datagram(rows, self_id, data, from, now).0, self_id),
{
    let id = frame::header_sender(data);
    let body = data.skip(4);
    lemma_get_sound(rows, self_id, id);
    if frame::has_header(data) && id != self_id {
        match frame::header_type(data) {
            Some(MsgType::Heartbeat) => {
                if let Ok(p) = wire::front::<HeartbeatPayload>(body) {
                    put_keeps_sound(rows, self_id, revived(rows, id, p.incarnation, from, now));
                }
            },
            Some(MsgType::Announce) => {
                if let Ok(a) = wire::front::<AnnouncePayload>(body) {
                    put_keeps_sound(rows, self_id, introduced(id, a, now));
                }
            },
            Some(MsgType::Leave) => {
                if let Some(n) = table::get(rows, id) {
                    put_keeps_sound(rows, self_id, Node { state: NodeState::Dead, ..n });
                }
            },
            Some(MsgType::Gossip) => {
                if let Ok(entries) = wire::front::<GossipPayload>(body) {
                    gossip_keeps_sound(rows, self_id, entries, from, now);
                }
            },
            _ => {},
        }
    }
}

fn placeholder_name(id: u16) -> (r: String)
    ensures
        r@ == placeholder(id),
{
    let mut s = "node-0x".to_owned();
    s.append(hex_text(id as u64, 4).as_str());
    s
}

fn heartbeat(
    members: &mut Table<u16, NodeInfo>,
    id: u16,
    incarnation: u32,
    from: SocketAddr,
    now: Timestamp,
)
    ensures
        final(members).deep_view() == after_heartbeat(
            old(members).deep_view(),
            id,
            incarnation,
            from,
            now,
        ),
{
    let known = match members.get(&id) {
        Some(n) => n.clone(),
        None => NodeInfo {
            node_id: id,
            hostname: placeholder_name(id),
            control_addr: from,
            state: NodeState::Alive,
            incarnation,
            last_seen: now,
            is_master: false,
        },
    };
    let n = NodeInfo { state: NodeState::Alive, incarnation, last_seen: now, ..known };
    members.insert(id, n);
}

fn leave(members: &mut Table<u16, NodeInfo>, id: u16)
    ensures
        final(members).deep_view() == after_leave(old(members).deep_view(), id),
{
    let found = match members.get(&id) {
        Some(n) => Some(n.clone()),
        None => None,
    };
    if let Some(n) = found {
        members.insert(id, NodeInfo { state: NodeState::Dead, ..n });
    }
}

fn gossip_entry(
    members: &mut Table<u16, NodeInfo>,
    self_id: u16,
    e: GossipEntry,
    from: SocketAddr,
    now: Timestamp,
)
    ensures
        final(members).deep_view() == after_entry(
            old(members).deep_view(),
            self_id,
            e,
            from,
            now,
        ),
{
    if e.node_id == self_id {
        return ;
    }
    let found = match members.get(&e.node_id) {
        Some(n) => Some(n.clone()),
        None => None,
    };
    match found {
        Some(n) => {
            if e.incarnation >= n.incarnation {
                members.insert(
                    e.node_id,
                    NodeInfo { state: e.state, incarnation: e.incarnation, ..n },
                );
            }
        },
        None => {
            members.insert(
                e.node_id,
                NodeInfo {
                    node_id: e.node_id,
                    hostname: placeholder_name(e.node_id),
                    control_addr: from,
                    state: e.state,
                    incarnation: e.incarnation,
                    last_seen: now,
                    is_master: false,
                },
            );
        },
    }
}

fn gossip(
    members: &mut Table<u16, NodeInfo>,
    self_id: u16,
    entries: &Vec<GossipEntry>,
    from: SocketAddr,
    now: Timestamp,
)
    ensures
        final(members).deep_view() == after_gossip(
            old(members).deep_view(),
            self_id,
            entries.deep_view(),
            from,
            now,
        ),
{
    let ghost before = members.deep_view();
    let ghost all = entries.deep_view();
    let mut i: usize = 0;
    assert(all.skip(0) =~= all);
    while i < entries.len()
        invariant
            i <= entries@.len(),
            all == entries.deep_view(),
            after_gossip(members.deep_view(), self_id, all.skip(i as int), from, now)
                == after_gossip(before, self_id, all, from, now),
        decreases entries@.len() - i,
    {
        assert(all.skip(i as int)[0] == entries@[i as int]);
        assert(all.skip(i as int).drop_first() =~= all.skip(i + 1));
        gossip_entry(members, self_id, entries[i], from, now);
        i += 1;
    }
    assert(all.skip(all.len() as int) =~= seq![]);
}

fn datagram(
    members: &mut Table<u16, NodeInfo>,
    self_id: u16,
    data: &[u8],
    from: SocketAddr,
    now: Timestamp,
) -> (r: Event)
    ensures
        (final(members).deep_view(), r.deep_view()) == after_datagram(
            old(members).deep_view(),
            self_id,
            data@,
            from,
            now,
        ),
{
    let header = match FrameHeader::from_bytes(data) {
        Some(h) => h,
        None => {
            return Event::InvalidFrame;
        },
    };
    assert(data@.take(4).subrange(2, 4) =~= data@.subrange(2, 4));
    let id: u16 = header.node_id();
    if id == self_id {
        return Event::Quiet;
    }
    let body = slice_subrange(data, 4, data.len());
    assert(body@ =~= data@.skip(4));
    match header.msg_type() {
        None => Event::UnknownType,
        Some(MsgType::Heartbeat) => {
            if let Ok(p) = wire::from_slice::<HeartbeatPayload>(body) {
                heartbeat(members, id, p.incarnation, from, now);
            }
            Event::Quiet
        },
        Some(MsgType::Announce) => {
            match wire::from_slice::<AnnouncePayload>(body) {
                Ok(a) => {
                    let replaced = match members.get(&id) {
                        Some(n) => if n.hostname != a.hostname || n.control_addr != a.control_addr {
                            Some((n.hostname.clone(), n.control_addr))
                        } else {
                            None
                        },
                        None => None,
                    };
                    let hostname = a.hostname.clone();
                    members.insert(
                        id,
                        NodeInfo {
                            node_id: id,
                            hostname: a.hostname,
                            control_addr: a.control_addr,
                            state: NodeState::Alive,
                            incarnation: a.incarnation,
                            last_seen: now,
                            is_master: false,
                        },
                    );
                    Event::Announced {
                        node_id: id,
                        hostname,
                        control_addr: a.control_addr,
                        replaced,
                    }
                },
                Err(_) => Event::Quiet,
            }
        },
        Some(MsgType::Leave) => {
            match wire::from_slice::<LeavePayload>(body) {
                Ok(p) => {
                    leave(members, id);
                    Event::Leaving { node_id: id, reason: p.reason }
                },
                Err(_) => Event::Quiet,
            }
        },
        Some(MsgType::Gossip) => {
            if let Ok(p) = wire::from_slice::<GossipPayload>(body) {
                gossip(members, self_id, &p.entries, from, now);
            }
            Event::Quiet
        },
        Some(_) => Event::Quiet,
    }
}

// ---------------------------------------------------------------------------
// The master
// ---------------------------------------------------------------------------

/// The number of the master: the lowest among the nodes that are alive and the
/// node itself, which does not count once it has stepped down. There may be
/// none then.
pub open spec fn master_of(
    rows: Seq<(u16, Node)>,
    self_id: u16,
    stepped_down: bool,
) -> Option<u16>
    decreases rows.len(),
{
    if rows.len() == 0 {
        if stepped_down {
            None
        } else {
            Some(self_id)
        }
    } else {
        let rest = master_of(rows.drop_last(), self_id, stepped_down);
        let n = rows.last().1;
        if n.state == NodeState::Alive && (rest matches Some(id) ==> n.node_id < id) {
            Some(n.node_id)
        } else {
            rest
        }
    }
}

/// Whether `id` is a node that is alive, or the node itself while it has not
/// stepped down.
pub open spec fn electable(
    rows: Seq<(u16, Node)>,
    self_id: u16,
    stepped_down: bool,
    id: u16,
) -> bool {
    (id == self_id && !stepped_down) || exists|i: int|
        0 <= i < rows.len() && (#[trigger] rows[i]).1.state == NodeState::Alive
            && rows[i].1.node_id == id
}

/// The master can be elected, and no node with a lower number can; there is
/// none only if no node can be elected.
pub proof fn master_is_lowest_alive(rows: Seq<(u16, Node)>, self_id: u16, stepped_down: bool)
    ensures
        match master_of(rows, self_id, stepped_down) {
            Some(master) => electable(rows, self_id, stepped_down, master) && forall|id: u16|
                #[trigger]
                electable(rows, self_id, stepped_down, id) ==> master <= id,
            None => forall|id: u16| !#[trigger] electable(rows, self_id, stepped_down, id),
        },
    decreases rows.len(),
{
    if rows.len() > 0 {
        let less = rows.drop_last();
        let last = rows.len() - 1;
        master_is_lowest_alive(less, self_id, stepped_down);
        assert forall|id: u16| #[trigger]
            electable(rows, self_id, stepped_down, id) implies electable(
            less,
            self_id,
            stepped_down,
            id,
        ) || (rows[last].1.state == NodeState::Alive && rows[last].1.node_id == id) by {
            if !(id == self_id && !stepped_down) {
                let i = choose|i: int|
                    0 <= i < rows.len() && (#[trigger] rows[i]).1.state == NodeState::Alive
                        && rows[i].1.node_id == id;
                if i < last {
                    assert(less[i] == rows[i]);
                }
            }
        }
        if let Some(master) = master_of(rows, self_id, stepped_down) {
            if master_of(less, self_id, stepped_down) == Some(master) {
                if !(master == self_id && !stepped_down) {
                    let i = choose|i: int|
                        0 <= i < less.len() && (#[trigger] less[i]).1.state == NodeState::Alive
                            && less[i].1.node_id == master;
                    assert(rows[i] == less[i]);
                }
            } else {
                assert(rows[last] == rows.last());
            }
        }
    }
}

/// The election in plain words. The node itself counts unless it has stepped
/// down, and of the others those that are alive, not those that are suspected
/// or dead; the lowest number wins. A node that is not known to be alive is
/// never the master.
pub proof fn lowest_wins(rows: Seq<(u16, Node)>, self_id: u16, stepped_down: bool)
    ensures
        !stepped_down ==> (master_of(rows, self_id, stepped_down) matches Some(m) && m <= self_id),
        forall|i: int|
            0 <= i < rows.len() && (#[trigger] rows[i]).1.state == NodeState::Alive ==> (master_of(
                rows,
                self_id,
                stepped_down,
            ) matches Some(m) && m <= rows[i].1.node_id),
        master_of(rows, self_id, stepped_down) matches Some(m) ==> (!stepped_down && m == self_id)
            || exists|i: int|
            0 <= i < rows.len() && (#[trigger] rows[i]).1.node_id == m && rows[i].1.state
                == NodeState::Alive,
{
    master_is_lowest_alive(rows, self_id, stepped_down);
    if !stepped_down {
        assert(electable(rows, self_id, stepped_down, self_id));
    }
    assert forall|i: int|
        0 <= i < rows.len() && (#[trigger] rows[i]).1.state == NodeState::Alive implies (master_of(
        rows,
        self_id,
        stepped_down,
    ) matches Some(m) && m <= rows[i].1.node_id) by {
        assert(electable(rows, self_id, stepped_down, rows[i].1.node_id));
    }
}

/// Two nodes that, each counting itself unless it has stepped down, take the
/// same nodes for alive elect the same master.
pub proof fn masters_agree(
    rows_a: Seq<(u16, Node)>,
    a: u16,
    down_a: bool,
    rows_b: Seq<(u16, Node)>,
    b: u16,
    down_b: bool,
)
    requires
        forall|id: u16| #[trigger]
            electable(rows_a, a, down_a, id) <==> electable(rows_b, b, down_b, id),
    ensures
        master_of(rows_a, a, down_a) == master_of(rows_b, b, down_b),
{
    master_is_lowest_alive(rows_a, a, down_a);
    master_is_lowest_alive(rows_b, b, down_b);
    if let Some(x) = master_of(rows_a, a, down_a) {
        assert(electable(rows_a, a, down_a, x));
        assert(electable(rows_b, b, down_b, x));
    }
    if let Some(y) = master_of(rows_b, b, down_b) {
        assert(electable(rows_b, b, down_b, y));
        assert(electable(rows_a, a, down_a, y));
    }
}

/// A node that has stepped down does not count itself as the master; and the
/// master is the one that it was, unless the node itself was that.
pub proof fn stepping_down_gives_way(rows: Seq<(u16, Node)>, self_id: u16)
    requires
        sound(rows, self_id),
    ensures
        master_of(rows, self_id, true) != Some(self_id),
        master_of(rows, self_id, false) != Some(self_id) ==> master_of(rows, self_id, true)
            == master_of(rows, self_id, false),
{
    master_is_lowest_alive(rows, self_id, true);
    master_is_lowest_alive(rows, self_id, false);
    if electable(rows, self_id, true, self_id) {
        let i = choose|i: int|
            0 <= i < rows.len() && (#[trigger] rows[i]).1.state == NodeState::Alive
                && rows[i].1.node_id == self_id;
        assert(rows[i].0 == rows[i].1.node_id);
    }
    if master_of(rows, self_id, false) != Some(self_id) {
        assert(electable(rows, self_id, false, self_id));
        let m = master_of(rows, self_id, false)->0;
        assert(electable(rows, self_id, false, m));
        assert(electable(rows, self_id, true, m));
        let n = master_of(rows, self_id, true)->0;
        assert(electable(rows, self_id, true, n));
        assert(electable(rows, self_id, false, n));
    }
}

fn master(members: &Vec<(u16, NodeInfo)>, self_id: u16, stepped_down: bool) -> (r: Option<u16>)
    ensures
        r == master_of(members.deep_view(), self_id, stepped_down),
{
    let ghost all = members.deep_view();
    let mut lowest: Option<u16> = if stepped_down {
        None
    } else {
        Some(self_id)
    };
    let mut i: usize = 0;
    assert(all.take(0) =~= seq![]);
    while i < members.len()
        invariant
            i <= members@.len(),
            all == members.deep_view(),
            lowest == master_of(all.take(i as int), self_id, stepped_down),
        decreases members@.len() - i,
    {
        proof {
            let next = all.take(i + 1);
            assert(next.drop_last() =~= all.take(i as int));
            assert(next.last() == members@[i as int].deep_view());
        }
        let n = &members[i].1;
        let lower = match lowest {
            Some(id) => n.node_id < id,
            None => true,
        };
        if n.state == NodeState::Alive && lower {
            lowest = Some(n.node_id);
        }
        i += 1;
    }
    assert(all.take(all.len() as int) =~= all);
    lowest
}

// ---------------------------------------------------------------------------
// Failure detection
// ---------------------------------------------------------------------------

/// Nodes that have not been seen for this long are forgotten, in nanoseconds.
pub const CLEANUP_THRESHOLD: u128 = 300_000_000_000;

/// Whether a node is kept: it has been seen within the last five minutes.
pub open spec fn kept(n: Node, now: Timestamp) -> bool {
    match now.spec_since(n.last_seen) {
        Some(age) => age < CLEANUP_THRESHOLD,
        None => false,
    }
}

/// What the failure detector makes of a node's state. A node seen after `now`
/// counts as not seen for ever.
pub open spec fn judged(n: Node, now: Timestamp, suspect: nat, dead: nat) -> NodeState {
    match now.spec_since(n.last_seen) {
        None => NodeState::Dead,
        Some(age) => if age > dead {
            NodeState::Dead
        } else if age > suspect && n.state == NodeState::Alive {
            NodeState::Suspect
        } else {
            n.state
        },
    }
}

/// The nodes that are kept, with the states that the failure detector gives
/// them.
pub open spec fn survivors(
    rows: Seq<(u16, Node)>,
    now: Timestamp,
    suspect: nat,
    dead: nat,
) -> Seq<(u16, Node)>
    decreases rows.len(),
{
    if rows.len() == 0 {
        seq![]
    } else {
        let rest = survivors(rows.drop_last(), now, suspect, dead);
        let (id, n) = rows.last();
        if kept(n, now) {
            rest.push((id, Node { state: judged(n, now, suspect, dead), ..n }))
        } else {
            rest
        }
    }
}

/// The table with the master flag on the node `master`, if there is one, and on
/// no other.
pub open spec fn flagged(rows: Seq<(u16, Node)>, master: Option<u16>) -> Seq<(u16, Node)> {
    Seq::new(
        rows.len(),
        |i: int| (rows[i].0, Node { is_master: master == Some(rows[i].1.node_id), ..rows[i].1 }),
    )
}

/// The table after a round of failure detection.
pub open spec fn after_detection(
    rows: Seq<(u16, Node)>,
    self_id: u16,
    stepped_down: bool,
    now: Timestamp,
    suspect: nat,
    dead: nat,
) -> Seq<(u16, Node)> {
    let left = survivors(rows, now, suspect, dead);
    flagged(left, master_of(left, self_id, stepped_down))
}

/// Whether `row` is what the failure detector makes of row `i` of `rows`.
pub open spec fn survives_as(
    rows: Seq<(u16, Node)>,
    i: int,
    row: (u16, Node),
    now: Timestamp,
    suspect: nat,
    dead: nat,
) -> bool {
    &&& 0 <= i < rows.len()
    &&& kept(rows[i].1, now)
    &&& row == (rows[i].0, Node { state: judged(rows[i].1, now, suspect, dead), ..rows[i].1 })
}

/// Whether `row` is what the failure detector makes of some row of `rows`.
pub open spec fn survivor_of(
    rows: Seq<(u16, Node)>,
    row: (u16, Node),
    now: Timestamp,
    suspect: nat,
    dead: nat,
) -> bool {
    exists|i: int| survives_as(rows, i, row, now, suspect, dead)
}

/// Every survivor was in the table and is kept; every node that is kept
/// survives.
proof fn lemma_survivors(
    rows: Seq<(u16, Node)>,
    self_id: u16,
    now: Timestamp,
    suspect: nat,
    dead: nat,
)
    requires
        sound(rows, self_id),
    ensures
        sound(survivors(rows, now, suspect, dead), self_id),
        forall|k: int|
            0 <= k < survivors(rows, now, suspect, dead).len() ==> survivor_of(
                rows,
                #[trigger] survivors(rows, now, suspect, dead)[k],
                now,
                suspect,
                dead,
            ),
        forall|i: int|
            0 <= i < rows.len() && kept((#[trigger] rows[i]).1, now) ==> table::holds(
                survivors(rows, now, suspect, dead),
                rows[i].0,
            ),
    decreases rows.len(),
{
    let left = survivors(rows, now, suspect, dead);
    if rows.len() > 0 {
        let less = rows.drop_last();
        let rest = survivors(less, now, suspect, dead);
        assert(sound(less, self_id)) by {
            assert forall|i: int| 0 <= i < less.len() implies (#[trigger] less[i]).0
                == less[i].1.node_id && less[i].0 != self_id by {
                assert(less[i] == rows[i]);
            }
            assert forall|i: int, j: int| 0 <= i < j < less.len() implies (#[trigger] less[i]).0
                != (#[trigger] less[j]).0 by {
                assert(rows[i].0 != rows[j].0);
            }
        }
        lemma_survivors(less, self_id, now, suspect, dead);
        let last = rows.len() - 1;
        assert forall|k: int| 0 <= k < left.len() implies survivor_of(
            rows,
            #[trigger] left[k],
            now,
            suspect,
            dead,
        ) by {
            if k < rest.len() {
                assert(left[k] == rest[k]);
                assert(survivor_of(less, rest[k], now, suspect, dead));
                let i = choose|i: int| survives_as(less, i, rest[k], now, suspect, dead);
                assert(rows[i] == less[i]);
                assert(survives_as(rows, i, left[k], now, suspect, dead));
            } else {
                assert(survives_as(rows, last, left[k], now, suspect, dead));
            }
        }
        assert(table::distinct(left)) by {
            assert forall|i: int, j: int| 0 <= i < j < left.len() implies (#[trigger] left[i]).0
                != (#[trigger] left[j]).0 by {
                assert(left[i] == rest[i]);
                if j < rest.len() {
                    assert(left[j] == rest[j]);
                } else {
                    assert(survivor_of(less, rest[i], now, suspect, dead));
                    let a = choose|a: int| survives_as(less, a, rest[i], now, suspect, dead);
                    assert(rows[a] == less[a]);
                    assert(rows[a].0 != rows[last].0);
                }
            }
        }
        assert forall|i: int| 0 <= i < left.len() implies (#[trigger] left[i]).0
            == left[i].1.node_id && left[i].0 != self_id by {
            if i < rest.len() {
                assert(left[i] == rest[i]);
            } else {
                assert(rows[last].0 == left[i].0);
            }
        }
        assert forall|i: int| 0 <= i < rows.len() && kept((#[trigger] rows[i]).1, now) implies
            table::holds(left, rows[i].0) by {
            if i < last {
                assert(less[i] == rows[i]);
                let k = table::place(rest, rows[i].0);
                assert(rest[k].0 == rows[i].0);
                assert(left[k] == rest[k]);
            } else {
                assert(left[left.len() - 1].0 == rows[i].0);
            }
        }
    }
}

proof fn lemma_flagged(
    rows: Seq<(u16, Node)>,
    self_id: u16,
    stepped_down: bool,
    master: Option<u16>,
)
    requires
        sound(rows, self_id),
    ensures
        sound(flagged(rows, master), self_id),
        master_of(flagged(rows, master), self_id, stepped_down) == master_of(
            rows,
            self_id,
            stepped_down,
        ),
{
    let after = flagged(rows, master);
    assert(table::distinct(after)) by {
        assert forall|i: int, j: int| 0 <= i < j < after.len() implies (#[trigger] after[i]).0 != (
        #[trigger] after[j]).0 by {
            assert(rows[i].0 != rows[j].0);
        }
    }
    assert forall|i: int| 0 <= i < after.len() implies (#[trigger] after[i]).0
        == after[i].1.node_id && after[i].0 != self_id by {
        assert(rows[i].0 == rows[i].1.node_id);
    }
    lemma_flags_keep_master(rows, self_id, stepped_down, master);
}

proof fn lemma_flags_keep_master(
    rows: Seq<(u16, Node)>,
    self_id: u16,
    stepped_down: bool,
    master: Option<u16>,
)
    ensures
        master_of(flagged(rows, master), self_id, stepped_down) == master_of(
            rows,
            self_id,
            stepped_down,
        ),
    decreases rows.len(),
{
    if rows.len() > 0 {
        lemma_flags_keep_master(rows.drop_last(), self_id, stepped_down, master);
        assert(flagged(rows, master).drop_last() =~= flagged(rows.drop_last(), master));
    }
}

/// A round of failure detection leaves a sound table. In it stand exactly the
/// nodes seen within the last five minutes, each as it was but for its state
/// and its master flag; and the flag is on the node that is the master, and on no
/// other.
pub proof fn detection(
    rows: Seq<(u16, Node)>,
    self_id: u16,
    stepped_down: bool,
    now: Timestamp,
    suspect: nat,
    dead: nat,
)
    requires
        sound(rows, self_id),
    ensures
        ({
            let after = after_detection(rows, self_id, stepped_down, now, suspect, dead);
            &&& sound(after, self_id)
            &&& forall|id: u16|
                #![trigger table::get(after, id)]
                match table::get(rows, id) {
                    Some(n) => if kept(n, now) {
                        table::get(after, id) == Some(
                            Node {
                                state: judged(n, now, suspect, dead),
                                is_master: master_of(after, self_id, stepped_down) == Some(id),
                                ..n
                            },
                        )
                    } else {
                        table::get(after, id) is None
                    },
                    None => table::get(after, id) is None,
                }
        }),
{
    let left = survivors(rows, now, suspect, dead);
    let master = master_of(left, self_id, stepped_down);
    let after = after_detection(rows, self_id, stepped_down, now, suspect, dead);
    lemma_survivors(rows, self_id, now, suspect, dead);
    lemma_flagged(left, self_id, stepped_down, master);
    assert forall|id: u16| #![trigger table::get(after, id)]
        match table::get(rows, id) {
            Some(n) => if kept(n, now) {
                table::get(after, id) == Some(
                    Node {
                        state: judged(n, now, suspect, dead),
                        is_master: master_of(after, self_id, stepped_down) == Some(id),
                        ..n
                    },
                )
            } else {
                table::get(after, id) is None
            },
            None => table::get(after, id) is None,
        } by {
        if table::holds(rows, id) && kept(rows[table::place(rows, id)].1, now) {
            let i = table::place(rows, id);
            assert(rows[i].0 == id);
            assert(table::holds(left, id));
            let k = table::place(left, id);
            assert(left[k].0 == id);
            assert(survivor_of(rows, left[k], now, suspect, dead));
            let a = choose|a: int| survives_as(rows, a, left[k], now, suspect, dead);
            table::lemma_place(rows, a);
            assert(after[k].0 == id);
            table::lemma_place(after, k);
        } else if table::holds(after, id) {
            let k = table::place(after, id);
            assert(after[k].0 == id);
            assert(left[k].0 == id);
            assert(survivor_of(rows, left[k], now, suspect, dead));
            let a = choose|a: int| survives_as(rows, a, left[k], now, suspect, dead);
            table::lemma_place(rows, a);
        }
    }
}

/// A round of failure detection in plain words. A node that was last seen five
/// minutes ago or more, or after now, is forgotten. Of the others, one that was
/// last seen longer ago than the dead threshold is dead; one that is alive and
/// was last seen longer ago than the suspect threshold is suspected; the state
/// of any other stays. Nothing else is changed of a node but the master flag,
/// which is set exactly on the master, and no node enters.
pub proof fn detection_goes_by_age(
    rows: Seq<(u16, Node)>,
    self_id: u16,
    stepped_down: bool,
    now: Timestamp,
    suspect: nat,
    dead: nat,
    id: u16,
)
    requires
        sound(rows, self_id),
    ensures
        ({
            let after = after_detection(rows, self_id, stepped_down, now, suspect, dead);
            match table::get(rows, id) {
                None => table::get(after, id) is None,
                Some(n) => {
                    let age = (now.secs - n.last_seen.secs) * 1_000_000_000 + now.nanos
                        - n.last_seen.nanos;
                    if age < 0 || age >= 300_000_000_000 {
                        table::get(after, id) is None
                    } else {
                        table::get(after, id) == Some(
                            Node {
                                node_id: n.node_id,
                                hostname: n.hostname,
                                control_addr: n.control_addr,
                                state: if age > dead {
                                    NodeState::Dead
                                } else if n.state == NodeState::Alive && age > suspect {
                                    NodeState::Suspect
                                } else {
                                    n.state
                                },
                                incarnation: n.incarnation,
                                last_seen: n.last_seen,
                                is_master: master_of(after, self_id, stepped_down) == Some(id),
                            },
                        )
                    }
                },
            }
        }),
{
    detection(rows, self_id, stepped_down, now, suspect, dead);
    let after = after_detection(rows, self_id, stepped_down, now, suspect, dead);
    assert(table::get(after, id) == table::get(after, id));
}

fn judge(n: &NodeInfo, now: Timestamp, suspect: Duration, dead: Duration) -> (r: NodeState)
    ensures
        r == judged(n.deep_view(), now, suspect.nanos as nat, dead.nanos as nat),
{
    match now.since(n.last_seen) {
        None => NodeState::Dead,
        Some(age) => if age.nanos > dead.nanos {
            NodeState::Dead
        } else if age.nanos > suspect.nanos && n.state == NodeState::Alive {
            NodeState::Suspect
        } else {
            n.state
        },
    }
}

fn keep(n: &NodeInfo, now: Timestamp) -> (r: bool)
    ensures
        r == kept(n.deep_view(), now),
{
    match now.since(n.last_seen) {
        Some(age) => age.nanos < CLEANUP_THRESHOLD,
        None => false,
    }
}

fn survive(
    members: &Vec<(u16, NodeInfo)>,
    now: Timestamp,
    suspect: Duration,
    dead: Duration,
) -> (r: Vec<(u16, NodeInfo)>)
    ensures
        r.deep_view() == survivors(
            members.deep_view(),
            now,
            suspect.nanos as nat,
            dead.nanos as nat,
        ),
{
    let ghost all = members.deep_view();
    let ghost (s, d) = (suspect.nanos as nat, dead.nanos as nat);
    let mut left: Vec<(u16, NodeInfo)> = Vec::new();
    let mut i: usize = 0;
    assert(all.take(0) =~= seq![]);
    assert(left.deep_view() =~= seq![]);
    while i < members.len()
        invariant
            i <= members@.len(),
            all == members.deep_view(),
            s == suspect.nanos,
            d == dead.nanos,
            left.deep_view() == survivors(all.take(i as int), now, s, d),
        decreases members@.len() - i,
    {
        let ghost before = left.deep_view();
        proof {
            let next = all.take(i + 1);
            assert(next.drop_last() =~= all.take(i as int));
            assert(next.last() == members@[i as int].deep_view());
        }
        let id: u16 = members[i].0;
        let n = &members[i].1;
        if keep(n, now) {
            let state = judge(n, now, suspect, dead);
            let m = NodeInfo { state, ..n.clone() };
            let ghost row = (id, m).deep_view();
            left.push((id, m));
            assert(left.deep_view() =~= before.push(row));
        }
        i += 1;
    }
    assert(all.take(all.len() as int) =~= all);
    left
}

fn flag(members: Vec<(u16, NodeInfo)>, master: Option<u16>) -> (r: Vec<(u16, NodeInfo)>)
    ensures
        r.deep_view() == flagged(members.deep_view(), master),
{
    let ghost all = members.deep_view();
    let mut out: Vec<(u16, NodeInfo)> = Vec::new();
    let mut i: usize = 0;
    while i < members.len()
        invariant
            i <= members@.len(),
            all == members.deep_view(),
            out.deep_view() == flagged(all, master).take(i as int),
        decreases members@.len() - i,
    {
        let ghost before = out.deep_view();
        let id: u16 = members[i].0;
        let n = &members[i].1;
        let is_master = match master {
            Some(m) => m == n.node_id,
            None => false,
        };
        let m = NodeInfo { is_master, ..n.clone() };
        let ghost row = (id, m).deep_view();
        assert(all[i as int] == members@[i as int].deep_view());
        assert(row == flagged(all, master)[i as int]);
        out.push((id, m));
        assert(out.deep_view() =~= before.push(row));
        assert(out.deep_view() =~= flagged(all, master).take(i + 1));
        i += 1;
    }
    assert(out.deep_view() =~= flagged(all, master));
    out
}

// ---------------------------------------------------------------------------
// From one node to another
// ---------------------------------------------------------------------------

/// No datagram removes a node: whatever arrives, every node that was in the
/// table still is. Only the failure detector forgets nodes.
pub proof fn datagram_removes_nobody(
    rows: Seq<(u16, Node)>,
    self_id: u16,
    data: Seq<u8>,
    from: SocketAddr,
    now: Timestamp,
    id: u16,
)
    requires
        table::holds(rows, id),
    ensures
        table::holds(after_datagram(rows, self_id, data, from, now).0, id),
{
    let sender = frame::header_sender(data);
    let body = data.skip(4);
    if frame::has_header(data) && sender != self_id {
        match frame::header_type(data) {
            Some(MsgType::Heartbeat) => {
                if let Ok(p) = wire::front::<HeartbeatPayload>(body) {
                    lemma_put_keeps(rows, sender, id);
                }
            },
            Some(MsgType::Announce) => {
                lemma_put_keeps(rows, sender, id);
            },
            Some(MsgType::Leave) => {
                lemma_put_keeps(rows, sender, id);
            },
            Some(MsgType::Gossip) => {
                if let Ok(entries) = wire::front::<GossipPayload>(body) {
                    lemma_gossip_keeps(rows, self_id, entries, from, now, id);
                }
            },
            _ => {},
        }
    }
}

proof fn lemma_put_keeps(rows: Seq<(u16, Node)>, k: u16, id: u16)
    requires
        table::holds(rows, id),
    ensures
        forall|n: Node| table::holds(#[trigger] table::put(rows, k, n), id),
{
    assert forall|n: Node| table::holds(#[trigger] table::put(rows, k, n), id) by {
        table::put_keeps(rows, k, n, id);
    }
}

proof fn lemma_gossip_keeps(
    rows: Seq<(u16, Node)>,
    self_id: u16,
    entries: Seq<GossipEntry>,
    from: SocketAddr,
    now: Timestamp,
    id: u16,
)
    requires
        table::holds(rows, id),
    ensures
        table::holds(after_gossip(rows, self_id, entries, from, now), id),
    decreases entries.len(),
{
    if entries.len() > 0 {
        lemma_put_keeps(rows, entries[0].node_id, id);
        lemma_gossip_keeps(
            after_entry(rows, self_id, entries[0], from, now),
            self_id,
            entries.drop_first(),
            from,
            now,
            id,
        );
    }
}

/// A heartbeat that reaches another node makes the sender alive there, with
/// the incarnation of the heartbeat and the time of arrival. It keeps the host
/// name, the address and the master flag that are known of it; one that was not
/// known gets a host name made of its number, and the address that the
/// heartbeat came from. Nothing changes of any other node, and nothing is
/// reported.
pub proof fn heartbeat_arrives(
    rows: Seq<(u16, Node)>,
    self_id: u16,
    id: u16,
    seq: u8,
    p: HeartbeatPayload,
    from: SocketAddr,
    now: Timestamp,
    other: u16,
)
    requires
        sound(rows, self_id),
        id != self_id,
    ensures
        ({
            let data = frame::header_bytes(MsgType::Heartbeat, seq, id) + HeartbeatPayload::wire(p);
            let after = after_datagram(rows, self_id, data, from, now).0;
            &&& table::get(after, id) matches Some(n) && n.node_id == id && n.state
                == NodeState::Alive && n.incarnation == p.incarnation && n.last_seen == now
            &&& table::get(after, id) matches Some(n) && match table::get(rows, id) {
                Some(m) => n.hostname == m.hostname && n.control_addr == m.control_addr
                    && n.is_master == m.is_master,
                None => n.hostname == "node-0x"@ + text::hex(id as nat, 4) && n.control_addr == from
                    && !n.is_master,
            }
            &&& after_datagram(rows, self_id, data, from, now).1 == News::Quiet
            &&& other != id ==> table::get(after, other) == table::get(rows, other)
        }),
{
    frame::header_round_trip(MsgType::Heartbeat, seq, id, HeartbeatPayload::wire(p));
    wire::lemma_front_of_wire::<HeartbeatPayload>(p, seq![]);
    lemma_get_sound(rows, self_id, id);
    table::put_then_get(rows, id, revived(rows, id, p.incarnation, from, now), other);
}

/// What becomes of a node after its last heartbeat: it is alive until the
/// suspect threshold has passed, then suspected, dead from the dead threshold
/// on, and forgotten after five minutes.
pub proof fn silence_is_noticed(
    rows: Seq<(u16, Node)>,
    self_id: u16,
    stepped_down: bool,
    id: u16,
    seq: u8,
    p: HeartbeatPayload,
    from: SocketAddr,
    heard: Timestamp,
    now: Timestamp,
    suspect: nat,
    dead: nat,
)
    requires
        sound(rows, self_id),
        id != self_id,
        heard.instant() <= now.instant(),
    ensures
        ({
            let data = frame::header_bytes(MsgType::Heartbeat, seq, id) + HeartbeatPayload::wire(p);
            let after = after_datagram(rows, self_id, data, from, heard).0;
            let found = table::get(
                after_detection(after, self_id, stepped_down, now, suspect, dead),
                id,
            );
            let age = now.instant() - heard.instant();
            if age >= CLEANUP_THRESHOLD {
                found is None
            } else {
                found matches Some(n) && n.state == (if age > dead {
                    NodeState::Dead
                } else if age > suspect {
                    NodeState::Suspect
                } else {
                    NodeState::Alive
                })
            }
        }),
{
    let data = frame::header_bytes(MsgType::Heartbeat, seq, id) + HeartbeatPayload::wire(p);
    let after = after_datagram(rows, self_id, data, from, heard).0;
    heartbeat_arrives(rows, self_id, id, seq, p, from, heard, id);
    datagram_keeps_sound(rows, self_id, data, from, heard);
    detection(after, self_id, stepped_down, now, suspect, dead);
}

/// An announcement that reaches another node enters the sender there as alive,
/// under the announced host name and address; a number that stood for another
/// host name or address is reported.
pub proof fn announcement_arrives(
    rows: Seq<(u16, Node)>,
    self_id: u16,
    id: u16,
    seq: u8,
    a: Announce,
    from: SocketAddr,
    now: Timestamp,
    other: u16,
)
    requires
        sound(rows, self_id),
        id != self_id,
        AnnouncePayload::fits(a),
    ensures
        ({
            let data = frame::header_bytes(MsgType::Announce, seq, id) + AnnouncePayload::wire(a);
            let (after, news) = after_datagram(rows, self_id, data, from, now);
            &&& table::get(after, id) == Some(
                Node {
                    node_id: id,
                    hostname: a.hostname,
                    control_addr: a.control_addr,
                    state: NodeState::Alive,
                    incarnation: a.incarnation,
                    last_seen: now,
                    is_master: false,
                },
            )
            &&& news matches News::Announced { node_id, hostname, control_addr, replaced }
                && node_id == id && hostname == a.hostname && control_addr == a.control_addr && (
            replaced matches Some((name, addr)) ==> (table::get(rows, id) matches Some(n)
                && n.hostname == name && n.control_addr == addr))
            &&& other != id ==> table::get(after, other) == table::get(rows, other)
            &&& news matches News::Announced { replaced, .. } && (replaced is Some <==> (table::get(
                rows,
                id,
            ) matches Some(n) && (n.hostname != a.hostname || n.control_addr != a.control_addr)))
        }),
{
    frame::header_round_trip(MsgType::Announce, seq, id, AnnouncePayload::wire(a));
    wire::lemma_front_of_wire::<AnnouncePayload>(a, seq![]);
    table::put_then_get(rows, id, introduced(id, a, now), other);
}

/// A farewell that reaches another node makes the sender dead there, if it is
/// known, and changes nothing else.
pub proof fn farewell_arrives(
    rows: Seq<(u16, Node)>,
    self_id: u16,
    id: u16,
    seq: u8,
    p: Leave,
    from: SocketAddr,
    now: Timestamp,
    other: u16,
)
    requires
        sound(rows, self_id),
        id != self_id,
        LeavePayload::fits(p),
    ensures
        ({
            let data = frame::header_bytes(MsgType::Leave, seq, id) + LeavePayload::wire(p);
            let after = after_datagram(rows, self_id, data, from, now).0;
            &&& match table::get(rows, id) {
                Some(n) => table::get(after, id) == Some(Node { state: NodeState::Dead, ..n }),
                None => table::get(after, id) is None,
            }
            &&& after_datagram(rows, self_id, data, from, now).1 == (News::Leaving {
                node_id: id,
                reason: p.reason,
            })
            &&& other != id ==> table::get(after, other) == table::get(rows, other)
        }),
{
    frame::header_round_trip(MsgType::Leave, seq, id, LeavePayload::wire(p));
    wire::lemma_front_of_wire::<LeavePayload>(p, seq![]);
    if let Some(n) = table::get(rows, id) {
        table::put_then_get(rows, id, Node { state: NodeState::Dead, ..n }, other);
    }
}

/// One entry of gossip that reaches another node. Of a node that is known
/// there it brings state and incarnation, if its incarnation is not lower than
/// the known one, and else nothing. A node that is not known is entered with
/// state and incarnation of the entry, a host name made of its number, and the
/// address that the gossip came from. What is said of the receiver itself is
/// ignored, no other node is affected, and nothing is reported.
pub proof fn gossip_entry_arrives(
    rows: Seq<(u16, Node)>,
    self_id: u16,
    id: u16,
    seq: u8,
    e: GossipEntry,
    from: SocketAddr,
    now: Timestamp,
    other: u16,
)
    requires
        sound(rows, self_id),
        id != self_id,
    ensures
        ({
            let data = frame::header_bytes(MsgType::Gossip, seq, id) + GossipPayload::wire(seq![e]);
            let (after, news) = after_datagram(rows, self_id, data, from, now);
            &&& news == News::Quiet
            &&& e.node_id == self_id ==> after == rows
            &&& e.node_id != self_id ==> table::get(after, e.node_id) == Some(
                match table::get(rows, e.node_id) {
                    Some(n) => if n.incarnation <= e.incarnation {
                        Node {
                            node_id: n.node_id,
                            hostname: n.hostname,
                            control_addr: n.control_addr,
                            state: e.state,
                            incarnation: e.incarnation,
                            last_seen: n.last_seen,
                            is_master: n.is_master,
                        }
                    } else {
                        n
                    },
                    None => Node {
                        node_id: e.node_id,
                        hostname: "node-0x"@ + text::hex(e.node_id as nat, 4),
                        control_addr: from,
                        state: e.state,
                        incarnation: e.incarnation,
                        last_seen: now,
                        is_master: false,
                    },
                },
            )
            &&& other != e.node_id ==> table::get(after, other) == table::get(rows, other)
        }),
{
    let entries = seq![e];
    frame::header_round_trip(MsgType::Gossip, seq, id, GossipPayload::wire(entries));
    wire::lemma_front_of_wire::<GossipPayload>(entries, seq![]);
    lemma_one_entry(rows, self_id, e, from, now);
    lemma_entry_merges(rows, self_id, e, from, now, other);
}

proof fn lemma_one_entry(
    rows: Seq<(u16, Node)>,
    self_id: u16,
    e: GossipEntry,
    from: SocketAddr,
    now: Timestamp,
)
    ensures
        after_gossip(rows, self_id, seq![e], from, now) == after_entry(rows, self_id, e, from, now),
{
    assert(seq![e].drop_first() =~= seq![]);
    let next = after_entry(rows, self_id, e, from, now);
    assert(after_gossip(next, self_id, seq![], from, now) == next);
}

/// What is known of a node after one entry of gossip.
spec fn merged(
    known: Option<Node>,
    e: GossipEntry,
    from: SocketAddr,
    now: Timestamp,
) -> Option<Node> {
    match known {
        Some(n) => if n.incarnation <= e.incarnation {
            Some(Node { state: e.state, incarnation: e.incarnation, ..n })
        } else {
            Some(n)
        },
        None => Some(newcomer(e.node_id, e.state, e.incarnation, from, now)),
    }
}

proof fn lemma_entry_merges(
    rows: Seq<(u16, Node)>,
    self_id: u16,
    e: GossipEntry,
    from: SocketAddr,
    now: Timestamp,
    other: u16,
)
    requires
        sound(rows, self_id),
    ensures
        ({
            let after = after_entry(rows, self_id, e, from, now);
            &&& sound(after, self_id)
            &&& e.node_id == self_id ==> after == rows
            &&& e.node_id != self_id ==> table::get(after, e.node_id) == merged(
                table::get(rows, e.node_id),
                e,
                from,
                now,
            )
            &&& other != e.node_id ==> table::get(after, other) == table::get(rows, other)
        }),
{
    entry_keeps_sound(rows, self_id, e, from, now);
    match table::get(rows, e.node_id) {
        Some(n) => {
            table::put_then_get(
                rows,
                e.node_id,
                Node { state: e.state, incarnation: e.incarnation, ..n },
                other,
            );
        },
        None => {
            table::put_then_get(
                rows,
                e.node_id,
                newcomer(e.node_id, e.state, e.incarnation, from, now),
                other,
            );
        },
    }
}

/// A gossip frame does what two frames do, the first with the entries at its
/// front and the second with the others; and one without entries does nothing.
pub proof fn gossip_adds_up(
    rows: Seq<(u16, Node)>,
    self_id: u16,
    id: u16,
    seq: u8,
    a: Seq<GossipEntry>,
    b: Seq<GossipEntry>,
    from: SocketAddr,
    now: Timestamp,
)
    requires
        id != self_id,
        a.len() + b.len() <= usize::MAX,
    ensures
        ({
            let head = frame::header_bytes(MsgType::Gossip, seq, id);
            let first = after_datagram(
                rows,
                self_id,
                head + GossipPayload::wire(a),
                from,
                now,
            ).0;
            &&& after_datagram(rows, self_id, head + GossipPayload::wire(a + b), from, now).0
                == after_datagram(first, self_id, head + GossipPayload::wire(b), from, now).0
            &&& a.len() == 0 ==> first == rows
        }),
{
    frame::header_round_trip(MsgType::Gossip, seq, id, GossipPayload::wire(a));
    frame::header_round_trip(MsgType::Gossip, seq, id, GossipPayload::wire(b));
    frame::header_round_trip(MsgType::Gossip, seq, id, GossipPayload::wire(a + b));
    wire::lemma_front_of_wire::<GossipPayload>(a, seq![]);
    wire::lemma_front_of_wire::<GossipPayload>(b, seq![]);
    wire::lemma_front_of_wire::<GossipPayload>(a + b, seq![]);
    lemma_gossip_adds_up(rows, self_id, a, b, from, now);
}

proof fn lemma_gossip_adds_up(
    rows: Seq<(u16, Node)>,
    self_id: u16,
    a: Seq<GossipEntry>,
    b: Seq<GossipEntry>,
    from: SocketAddr,
    now: Timestamp,
)
    ensures
        after_gossip(rows, self_id, a + b, from, now) == after_gossip(
            after_gossip(rows, self_id, a, from, now),
            self_id,
            b,
            from,
            now,
        ),
    decreases a.len(),
{
    if a.len() == 0 {
        assert(a + b =~= b);
    } else {
        assert((a + b).drop_first() =~= a.drop_first() + b);
        lemma_gossip_adds_up(
            after_entry(rows, self_id, a[0], from, now),
            self_id,
            a.drop_first(),
            b,
            from,
            now,
        );
    }
}

/// Gossip that says nothing of a node changes nothing of it.
pub(crate) proof fn lemma_gossip_is_local(
    rows: Seq<(u16, Node)>,
    self_id: u16,
    entries: Seq<GossipEntry>,
    from: SocketAddr,
    now: Timestamp,
    id: u16,
)
    requires
        sound(rows, self_id),
        forall|i: int| 0 <= i < entries.len() ==> (#[trigger] entries[i]).node_id != id,
    ensures
        sound(after_gossip(rows, self_id, entries, from, now), self_id),
        table::get(after_gossip(rows, self_id, entries, from, now), id) == table::get(rows, id),
    decreases entries.len(),
{
    if entries.len() > 0 {
        let rest = entries.drop_first();
        lemma_entry_merges(rows, self_id, entries[0], from, now, id);
        assert forall|i: int| 0 <= i < rest.len() implies (#[trigger] rest[i]).node_id != id by {
            assert(rest[i] == entries[i + 1]);
        }
        lemma_gossip_is_local(
            after_entry(rows, self_id, entries[0], from, now),
            self_id,
            rest,
            from,
            now,
            id,
        );
    }
}

/// Gossip with one entry about a node does to it what that entry does alone.
pub(crate) proof fn lemma_gossip_merges(
    rows: Seq<(u16, Node)>,
    self_id: u16,
    entries: Seq<GossipEntry>,
    k: int,
    from: SocketAddr,
    now: Timestamp,
)
    requires
        sound(rows, self_id),
        0 <= k < entries.len(),
        entries[k].node_id != self_id,
        forall|i: int|
            0 <= i < entries.len() && i != k ==> (#[trigger] entries[i]).node_id
                != entries[k].node_id,
    ensures
        table::get(after_gossip(rows, self_id, entries, from, now), entries[k].node_id) == (
        match table::get(rows, entries[k].node_id) {
            Some(n) => if entries[k].incarnation >= n.incarnation {
                Some(
                    Node {
                        state: entries[k].state,
                        incarnation: entries[k].incarnation,
                        ..n
                    },
                )
            } else {
                Some(n)
            },
            None => Some(
                newcomer(
                    entries[k].node_id,
                    entries[k].state,
                    entries[k].incarnation,
                    from,
                    now,
                ),
            ),
        }),
{
    let e = entries[k];
    let a = entries.take(k);
    let b = entries.skip(k + 1);
    assert(entries =~= (a + seq![e]) + b);
    lemma_gossip_adds_up(rows, self_id, a + seq![e], b, from, now);
    lemma_gossip_adds_up(rows, self_id, a, seq![e], from, now);
    lemma_gossip_is_local(rows, self_id, a, from, now, e.node_id);
    let first = after_gossip(rows, self_id, a, from, now);
    lemma_one_entry(first, self_id, e, from, now);
    lemma_entry_merges(first, self_id, e, from, now, e.node_id);
    let second = after_entry(first, self_id, e, from, now);
    assert forall|i: int| 0 <= i < b.len() implies (#[trigger] b[i]).node_id != e.node_id by {
        assert(b[i] == entries[i + k + 1]);
    }
    lemma_gossip_is_local(second, self_id, b, from, now, e.node_id);
}

/// What is no discovery frame is reported as such: less than four bytes, or
/// another first byte than 0xCA. A frame of a type that does not exist is
/// reported too, unless it is the node's own. Neither changes anything.
pub proof fn other_datagrams_change_nothing(
    rows: Seq<(u16, Node)>,
    self_id: u16,
    data: Seq<u8>,
    from: SocketAddr,
    now: Timestamp,
)
    ensures
        data.len() < 4 || data[0] != 0xCA ==> after_datagram(rows, self_id, data, from, now) == (
            rows,
            News::InvalidFrame,
        ),
        data.len() >= 4 && data[0] == 0xCA && data[1] >= 7 * 16 && 256 * data[2] + data[3]
            != self_id ==> after_datagram(rows, self_id, data, from, now) == (
            rows,
            News::UnknownType,
        ),
        data.len() >= 4 && data[0] == 0xCA && 256 * data[2] + data[3] == self_id
            ==> after_datagram(rows, self_id, data, from, now) == (rows, News::Quiet),
{
    if data.len() >= 4 {
        assert(data.subrange(2, 4) =~= seq![data[2], data[3]]);
        octets::two_bytes(data[2], data[3]);
    }
}

/// A frame whose payload cannot be read changes nothing and is not reported,
/// nor is an acknowledgement, a request for a vote or a vote.
pub proof fn unread_frames_change_nothing(
    rows: Seq<(u16, Node)>,
    self_id: u16,
    t: MsgType,
    seq: u8,
    id: u16,
    body: Seq<u8>,
    from: SocketAddr,
    now: Timestamp,
)
    requires
        match t {
            MsgType::Heartbeat => wire::front::<HeartbeatPayload>(body) is Err,
            MsgType::Announce => wire::front::<AnnouncePayload>(body) is Err,
            MsgType::Leave => wire::front::<LeavePayload>(body) is Err,
            MsgType::Gossip => wire::front::<GossipPayload>(body) is Err,
            MsgType::Ack | MsgType::VoteRequest | MsgType::VoteGrant => true,
        },
    ensures
        after_datagram(rows, self_id, frame::header_bytes(t, seq, id) + body, from, now) == (
            rows,
            News::Quiet,
        ),
{
    frame::header_round_trip(t, seq, id, body);
}

/// Gossip never takes a known node back to an older incarnation, and changes
/// nothing of it but its state and incarnation.
pub proof fn gossip_moves_forward(
    rows: Seq<(u16, Node)>,
    self_id: u16,
    entries: Seq<GossipEntry>,
    from: SocketAddr,
    now: Timestamp,
    id: u16,
)
    requires
        sound(rows, self_id),
    ensures
        table::get(rows, id) matches Some(n) ==> (table::get(
            after_gossip(rows, self_id, entries, from, now),
            id,
        ) matches Some(m) && m.incarnation >= n.incarnation && m == (Node {
            state: m.state,
            incarnation: m.incarnation,
            ..n
        })),
    decreases entries.len(),
{
    if entries.len() > 0 {
        let e = entries[0];
        let next = after_entry(rows, self_id, e, from, now);
        entry_keeps_sound(rows, self_id, e, from, now);
        match table::get(rows, e.node_id) {
            Some(n) => {
                table::put_then_get(
                    rows,
                    e.node_id,
                    Node { state: e.state, incarnation: e.incarnation, ..n },
                    id,
                );
            },
            None => {
                table::put_then_get(
                    rows,
                    e.node_id,
                    newcomer(e.node_id, e.state, e.incarnation, from, now),
                    id,
                );
            },
        }
        gossip_moves_forward(next, self_id, entries.drop_first(), from, now, id);
    }
}

/// A frame that a node hears of itself changes nothing.
pub proof fn own_frames_are_ignored(
    rows: Seq<(u16, Node)>,
    self_id: u16,
    t: MsgType,
    seq: u8,
    body: Seq<u8>,
    from: SocketAddr,
    now: Timestamp,
)
    ensures
        after_datagram(rows, self_id, frame::header_bytes(t, seq, self_id) + body, from, now) == (
            rows,
            News::Quiet,
        ),
{
    frame::header_round_trip(t, seq, self_id, body);
}

// ---------------------------------------------------------------------------
// The table itself
// ---------------------------------------------------------------------------

/// The membership table of a node.
#[derive(Debug)]
pub struct Members {
    self_id: u16,
    stepped_down: bool,
    table: Table<u16, NodeInfo>,
}

impl DeepView for Members {
    type V = Seq<(u16, Node)>;

    closed spec fn deep_view(&self) -> Seq<(u16, Node)> {
        self.table.deep_view()
    }
}

impl Members {
    /// The number of the node whose table this is.
    pub closed spec fn spec_self_id(&self) -> u16 {
        self.self_id
    }

    /// Whether the node has stepped down as the master.
    pub closed spec fn spec_stepped_down(&self) -> bool {
        self.stepped_down
    }

    #[verifier::type_invariant]
    spec fn inv(&self) -> bool {
        sound(self.table.deep_view(), self.self_id)
    }

    /// An empty table.
    pub fn new(self_id: u16) -> (r: Members)
        ensures
            r.spec_self_id() == self_id,
            !r.spec_stepped_down(),
            r.deep_view() == Seq::<(u16, Node)>::empty(),
    {
        Members { self_id, stepped_down: false, table: Table::new() }
    }

    /// The number of the node whose table this is.
    pub fn self_id(&self) -> (r: u16)
        ensures
            r == self.spec_self_id(),
    {
        self.self_id
    }

    /// The rows of the table.
    pub fn rows(&self) -> (r: &Vec<(u16, NodeInfo)>)
        ensures
            r.deep_view() == self.deep_view(),
            sound(self.deep_view(), self.spec_self_id()),
    {
        proof {
            use_type_invariant(self);
        }
        self.table.rows()
    }

    /// What is known of the node `id`.
    pub fn get(&self, id: u16) -> (r: Option<NodeInfo>)
        ensures
            match r {
                Some(n) => table::get(self.deep_view(), id) == Some(n.deep_view()),
                None => table::get(self.deep_view(), id) is None,
            },
    {
        match self.table.get(&id) {
            Some(n) => Some(n.clone()),
            None => None,
        }
    }

    /// The number of the master. There always is one, unless the node has
    /// stepped down.
    pub fn master_from(&self) -> (r: Option<u16>)
        ensures
            r == master_of(self.deep_view(), self.spec_self_id(), self.spec_stepped_down()),
            !self.spec_stepped_down() ==> r is Some,
            self.spec_stepped_down() ==> r != Some(self.spec_self_id()),
    {
        proof {
            use_type_invariant(self);
            let rows = self.table.deep_view();
            master_is_lowest_alive(rows, self.self_id, self.stepped_down);
            assert(!self.stepped_down ==> electable(
                rows,
                self.self_id,
                self.stepped_down,
                self.self_id,
            ));
            stepping_down_gives_way(rows, self.self_id);
        }
        master(self.table.rows(), self.self_id, self.stepped_down)
    }

    /// Makes the node step down as the master. It does not count itself as the
    /// master from then on, until the daemon is started again; other nodes are
    /// not told.
    pub fn step_down(&mut self)
        ensures
            final(self).spec_stepped_down(),
            final(self).deep_view() == old(self).deep_view(),
            final(self).spec_self_id() == old(self).spec_self_id(),
    {
        proof {
            use_type_invariant(&*self);
        }
        self.stepped_down = true;
    }

    /// Takes in a datagram that arrived from `from` at the time `now`.
    pub fn receive_at(&mut self, data: &[u8], from: SocketAddr, now: Timestamp) -> (r: Event)
        ensures
            (final(self).deep_view(), r.deep_view()) == after_datagram(
                old(self).deep_view(),
                old(self).spec_self_id(),
                data@,
                from,
                now,
            ),
            final(self).spec_self_id() == old(self).spec_self_id(),
            final(self).spec_stepped_down() == old(self).spec_stepped_down(),
            sound(final(self).deep_view(), final(self).spec_self_id()),
    {
        proof {
            use_type_invariant(&*self);
            datagram_keeps_sound(self.table.deep_view(), self.self_id, data@, from, now);
        }
        let mut t: Table<u16, NodeInfo> = Table::new();
        std::mem::swap(&mut t, &mut self.table);
        let r = datagram(&mut t, self.self_id, data, from, now);
        self.table = t;
        r
    }

    /// Takes in a datagram that arrives now.
    pub fn receive(&mut self, data: &[u8], from: SocketAddr) -> (r: Event)
        ensures
            exists|now: Timestamp|
                now.nanos < 1_000_000_000 && (final(self).deep_view(), r.deep_view())
                    == #[trigger] after_datagram(
                    old(self).deep_view(),
                    old(self).spec_self_id(),
                    data@,
                    from,
                    now,
                ),
            final(self).spec_self_id() == old(self).spec_self_id(),
            final(self).spec_stepped_down() == old(self).spec_stepped_down(),
            sound(final(self).deep_view(), final(self).spec_self_id()),
    {
        let now = system_now();
        self.receive_at(data, from, now)
    }

    /// Forgets, suspects and buries nodes by the time of their last sign of
    /// life, and puts the master flag where it belongs.
    pub fn detect_failures_at(&mut self, now: Timestamp, suspect: Duration, dead: Duration)
        ensures
            final(self).deep_view() == after_detection(
                old(self).deep_view(),
                old(self).spec_self_id(),
                old(self).spec_stepped_down(),
                now,
                suspect.nanos as nat,
                dead.nanos as nat,
            ),
            final(self).spec_self_id() == old(self).spec_self_id(),
            final(self).spec_stepped_down() == old(self).spec_stepped_down(),
            sound(final(self).deep_view(), final(self).spec_self_id()),
    {
        proof {
            use_type_invariant(&*self);
            detection(
                self.table.deep_view(),
                self.self_id,
                self.stepped_down,
                now,
                suspect.nanos as nat,
                dead.nanos as nat,
            );
        }
        let left = survive(self.table.rows(), now, suspect, dead);
        let id = master(&left, self.self_id, self.stepped_down);
        let after = flag(left, id);
        self.table = Table::from_rows(after);
    }

    /// Forgets, suspects and buries nodes by the system clock.
    pub fn detect_failures(&mut self, suspect: Duration, dead: Duration)
        ensures
            exists|now: Timestamp|
                now.nanos < 1_000_000_000 && final(self).deep_view() == #[trigger] after_detection(
                    old(self).deep_view(),
                    old(self).spec_self_id(),
                    old(self).spec_stepped_down(),
                    now,
                    suspect.nanos as nat,
                    dead.nanos as nat,
                ),
            final(self).spec_self_id() == old(self).spec_self_id(),
            final(self).spec_stepped_down() == old(self).spec_stepped_down(),
            sound(final(self).deep_view(), final(self).spec_self_id()),
    {
        let now = system_now();
        self.detect_failures_at(now, suspect, dead);
    }
}

/// Bytes behind a heartbeat do not count.
pub proof fn bytes_behind_heartbeat(
    rows: Seq<(u16, Node)>,
    self_id: u16,
    id: u16,
    seq: u8,
    p: HeartbeatPayload,
    rest: Seq<u8>,
    from: SocketAddr,
    now: Timestamp,
)
    ensures
        ({
            let data = frame::header_bytes(MsgType::Heartbeat, seq, id) + HeartbeatPayload::wire(p);
            after_datagram(rows, self_id, data + rest, from, now) == after_datagram(
                rows,
                self_id,
                data,
                from,
                now,
            )
        }),
{
    let data = frame::header_bytes(MsgType::Heartbeat, seq, id) + HeartbeatPayload::wire(p);
    lemma_frame_with_more::<HeartbeatPayload>(MsgType::Heartbeat, seq, id, p, rest);
    lemma_same_frame(rows, self_id, MsgType::Heartbeat, data + rest, data, from, now);
}

/// Bytes behind an announcement do not count.
pub proof fn bytes_behind_announcement(
    rows: Seq<(u16, Node)>,
    self_id: u16,
    id: u16,
    seq: u8,
    a: Announce,
    rest: Seq<u8>,
    from: SocketAddr,
    now: Timestamp,
)
    requires
        AnnouncePayload::fits(a),
    ensures
        ({
            let data = frame::header_bytes(MsgType::Announce, seq, id) + AnnouncePayload::wire(a);
            after_datagram(rows, self_id, data + rest, from, now) == after_datagram(
                rows,
                self_id,
                data,
                from,
                now,
            )
        }),
{
    let data = frame::header_bytes(MsgType::Announce, seq, id) + AnnouncePayload::wire(a);
    lemma_frame_with_more::<AnnouncePayload>(MsgType::Announce, seq, id, a, rest);
    lemma_same_frame(rows, self_id, MsgType::Announce, data + rest, data, from, now);
}

/// Bytes behind a farewell do not count.
pub proof fn bytes_behind_farewell(
    rows: Seq<(u16, Node)>,
    self_id: u16,
    id: u16,
    seq: u8,
    p: Leave,
    rest: Seq<u8>,
    from: SocketAddr,
    now: Timestamp,
)
    requires
        LeavePayload::fits(p),
    ensures
        ({
            let data = frame::header_bytes(MsgType::Leave, seq, id) + LeavePayload::wire(p);
            after_datagram(rows, self_id, data + rest, from, now) == after_datagram(
                rows,
                self_id,
                data,
                from,
                now,
            )
        }),
{
    let data = frame::header_bytes(MsgType::Leave, seq, id) + LeavePayload::wire(p);
    lemma_frame_with_more::<LeavePayload>(MsgType::Leave, seq, id, p, rest);
    lemma_same_frame(rows, self_id, MsgType::Leave, data + rest, data, from, now);
}

/// Bytes behind gossip do not count.
pub proof fn bytes_behind_gossip(
    rows: Seq<(u16, Node)>,
    self_id: u16,
    id: u16,
    seq: u8,
    entries: Seq<GossipEntry>,
    rest: Seq<u8>,
    from: SocketAddr,
    now: Timestamp,
)
    requires
        GossipPayload::fits(entries),
    ensures
        ({
            let data = frame::header_bytes(MsgType::Gossip, seq, id) + GossipPayload::wire(entries);
            after_datagram(rows, self_id, data + rest, from, now) == after_datagram(
                rows,
                self_id,
                data,
                from,
                now,
            )
        }),
{
    let data = frame::header_bytes(MsgType::Gossip, seq, id) + GossipPayload::wire(entries);
    lemma_frame_with_more::<GossipPayload>(MsgType::Gossip, seq, id, entries, rest);
    lemma_same_frame(rows, self_id, MsgType::Gossip, data + rest, data, from, now);
}

/// Frames of the same sender and type with the same payload do the same.
proof fn lemma_same_frame(
    rows: Seq<(u16, Node)>,
    self_id: u16,
    t: MsgType,
    a: Seq<u8>,
    b: Seq<u8>,
    from: SocketAddr,
    now: Timestamp,
)
    requires
        frame::has_header(a) && frame::has_header(b),
        frame::header_sender(a) == frame::header_sender(b),
        frame::header_type(a) == Some(t) && frame::header_type(b) == Some(t),
        match t {
            MsgType::Heartbeat => wire::front::<HeartbeatPayload>(a.skip(4)) == wire::front::<
                HeartbeatPayload,
            >(b.skip(4)),
            MsgType::Announce => wire::front::<AnnouncePayload>(a.skip(4)) == wire::front::<
                AnnouncePayload,
            >(b.skip(4)),
            MsgType::Leave => wire::front::<LeavePayload>(a.skip(4)) == wire::front::<
                LeavePayload,
            >(b.skip(4)),
            MsgType::Gossip => wire::front::<GossipPayload>(a.skip(4)) == wire::front::<
                GossipPayload,
            >(b.skip(4)),
            _ => true,
        },
    ensures
        after_datagram(rows, self_id, a, from, now) == after_datagram(rows, self_id, b, from, now),
{
}

proof fn lemma_frame_with_more<T: wire::Wire>(
    t: MsgType,
    seq: u8,
    id: u16,
    v: T::V,
    rest: Seq<u8>,
)
    requires
        T::fits(v),
    ensures
        ({
            let data = frame::header_bytes(t, seq, id) + T::wire(v);
            let more = data + rest;
            &&& frame::has_header(data) && frame::has_header(more)
            &&& frame::header_sender(data) == frame::header_sender(more)
            &&& frame::header_type(data) == Some(t) && frame::header_type(more) == Some(t)
            &&& wire::front::<T>(data.skip(4)) == Ok::<T::V, Seq<char>>(v)
            &&& wire::front::<T>(more.skip(4)) == Ok::<T::V, Seq<char>>(v)
        }),
{
    let head = frame::header_bytes(t, seq, id);
    frame::header_round_trip(t, seq, id, T::wire(v));
    frame::header_round_trip(t, seq, id, T::wire(v) + rest);
    assert(head + T::wire(v) + rest =~= head + (T::wire(v) + rest));
    wire::lemma_front_of_wire::<T>(v, rest);
}

} // verus!
