//! What the discovery daemon sends and answers.

use crate::addr::{IpAddr, Ipv4Addr, SocketAddr};
use crate::clock::{system_now, Duration, Timestamp};
use crate::control::{decode_control, ControlOp, ControlReply, Op, Reply};
use crate::frame;
use crate::frame::{encode_frame, next_seq, FrameHeader, MsgType, DISCOVERY_PORT};
use crate::membership;
use crate::membership::{Members, News};
use crate::node::{Node, NodeInfo, NodeState};
use crate::payload::{
    AnnouncePayload, GossipEntry, GossipPayload, HeartbeatPayload, LeavePayload,
};
use crate::table;
use crate::wire;
use crate::wire::Wire;
use vstd::prelude::*;

verus! {

// ---------------------------------------------------------------------------
// Settings
// ---------------------------------------------------------------------------

/// Milliseconds between heartbeats, unless configured.
pub fn default_hb_interval() -> (r: u64)
    ensures
        r == 150,
{
    150
}

/// Missed heartbeats before a node is suspected, unless configured.
pub fn default_suspect_misses() -> (r: u32)
    ensures
        r == 3,
{
    3
}

/// Seconds before a node is declared dead, unless configured.
pub fn default_dead_secs() -> (r: u64)
    ensures
        r == 30,
{
    30
}

/// How long a node may be silent before it is suspected: so many heartbeat
/// intervals. Nothing if that is beyond 64 bits of milliseconds.
pub fn suspect_threshold(heartbeat_interval_ms: u64, suspect_misses: u32) -> (r: Option<Duration>)
    ensures
        match r {
            Some(d) => heartbeat_interval_ms * suspect_misses <= u64::MAX && d.nanos
                == heartbeat_interval_ms * suspect_misses * 1_000_000,
            None => heartbeat_interval_ms * suspect_misses > u64::MAX,
        },
{
    match heartbeat_interval_ms.checked_mul(suspect_misses as u64) {
        Some(ms) => Some(Duration::from_millis(ms)),
        None => None,
    }
}

/// Where a node's control service is reached: the port after the discovery
/// port.
pub fn control_addr(cluster_addr: Ipv4Addr) -> (r: SocketAddr)
    ensures
        r == (SocketAddr { ip: IpAddr::V4(cluster_addr), port: 7778 }),
{
    SocketAddr { ip: IpAddr::V4(cluster_addr), port: DISCOVERY_PORT + 1 }
}

/// The incarnation of a node that starts at the given time: the low 32 bits of
/// the milliseconds.
pub fn first_incarnation(epoch_ms: u64) -> (r: u32)
    ensures
        r == epoch_ms % 0x1_0000_0000,
{
    assert(epoch_ms as u32 == epoch_ms % 0x1_0000_0000) by (bit_vector);
    epoch_ms as u32
}

// ---------------------------------------------------------------------------
// Frames
// ---------------------------------------------------------------------------

proof fn lemma_varint_len(v: nat)
    ensures
        v <= 0xffff_ffff ==> wire::varint_bytes(v).len() <= 5,
        wire::varint_bytes(v).len() <= 9,
{
    reveal_with_fuel(wire::le_bytes, 9);
}

/// The frame that proves the node `node_id` alive.
pub fn heartbeat_frame(node_id: u16, seq: u8, incarnation: u32, epoch_ms: u64) -> (r: Vec<u8>)
    ensures
        r@ == frame::header_bytes(MsgType::Heartbeat, seq, node_id) + HeartbeatPayload::wire(
            (HeartbeatPayload { incarnation, epoch_ms }),
        ),
        r@.len() <= 18,
{
    let header = FrameHeader::new(MsgType::Heartbeat, seq, node_id);
    let payload = HeartbeatPayload { incarnation, epoch_ms };
    proof {
        lemma_varint_len(incarnation as nat);
        lemma_varint_len(epoch_ms as nat);
    }
    match encode_frame(header, &payload) {
        Ok(buf) => buf,
        // A heartbeat is never too long.
        Err(_) => Vec::new(),
    }
}

/// The sequence number after `k` rounds, the first of which has the number 0.
pub open spec fn seq_after(k: nat) -> u8
    decreases k,
{
    if k == 0 {
        0
    } else {
        ((seq_after((k - 1) as nat) + 1) % 16) as u8
    }
}

/// Sequence numbers count the rounds modulo 16: that is the number after `k`
/// rounds, and the heartbeat of that round carries it, and the number of the
/// node.
pub proof fn heartbeats_are_counted(k: nat, node_id: u16, p: HeartbeatPayload)
    ensures
        seq_after(k) == k % 16,
        ({
            let sent = frame::header_bytes(MsgType::Heartbeat, seq_after(k), node_id)
                + HeartbeatPayload::wire(p);
            &&& frame::header_type(sent) == Some(MsgType::Heartbeat)
            &&& frame::header_seq(sent) == k % 16
            &&& frame::header_sender(sent) == node_id
        }),
    decreases k,
{
    if k > 0 {
        heartbeats_are_counted((k - 1) as nat, node_id, p);
    }
    frame::header_round_trip(
        MsgType::Heartbeat,
        seq_after(k),
        node_id,
        HeartbeatPayload::wire(p),
    );
}

/// The frame with which the node `node_id` joins, or the text of the error
/// where it would be too long.
pub fn announce_frame(node_id: u16, seq: u8, payload: &AnnouncePayload) -> (r: Result<
    Vec<u8>,
    String,
>)
    ensures
        match r {
            Ok(buf) => frame::frame_of(
                frame::header_bytes(MsgType::Announce, seq, node_id),
                AnnouncePayload::wire(payload.deep_view()),
            ) == Ok::<Seq<u8>, Seq<char>>(buf@),
            Err(text) => frame::frame_of(
                frame::header_bytes(MsgType::Announce, seq, node_id),
                AnnouncePayload::wire(payload.deep_view()),
            ) == Err::<Seq<u8>, Seq<char>>(text@),
        },
{
    encode_frame(FrameHeader::new(MsgType::Announce, seq, node_id), payload)
}

/// The frame with which the node `node_id` takes its leave before it shuts
/// down, or the text of the error where it would be too long.
pub fn leave_frame(node_id: u16, seq: u8, payload: &LeavePayload) -> (r: Result<Vec<u8>, String>)
    ensures
        match r {
            Ok(buf) => frame::frame_of(
                frame::header_bytes(MsgType::Leave, seq, node_id),
                LeavePayload::wire(payload.deep_view()),
            ) == Ok::<Seq<u8>, Seq<char>>(buf@),
            Err(text) => frame::frame_of(
                frame::header_bytes(MsgType::Leave, seq, node_id),
                LeavePayload::wire(payload.deep_view()),
            ) == Err::<Seq<u8>, Seq<char>>(text@),
        },
{
    encode_frame(FrameHeader::new(MsgType::Leave, seq, node_id), payload)
}

/// What is gossiped of the nodes in a table.
pub open spec fn entries_of(rows: Seq<(u16, Node)>, epoch_ms: u64) -> Seq<GossipEntry> {
    Seq::new(
        rows.len(),
        |i: int|
            GossipEntry {
                node_id: rows[i].1.node_id,
                incarnation: rows[i].1.incarnation,
                state: rows[i].1.state,
                epoch_ms,
            },
    )
}

/// What a round of gossip sends, and the sequence number of the next one. A
/// node that knows no other sends nothing and keeps its number; a frame that
/// would be too long is not sent.
pub open spec fn gossip_of(
    rows: Seq<(u16, Node)>,
    self_id: u16,
    seq: u8,
    epoch_ms: u64,
) -> (Option<Seq<u8>>, u8) {
    if rows.len() == 0 {
        (None, seq)
    } else {
        (
            match frame::frame_of(
                frame::header_bytes(MsgType::Gossip, seq, self_id),
                GossipPayload::wire(entries_of(rows, epoch_ms)),
            ) {
                Ok(buf) => Some(buf),
                Err(_) => None,
            },
            ((seq + 1) % 16) as u8,
        )
    }
}

/// A round of gossip.
pub fn gossip_round(members: &Members, seq: u8, epoch_ms: u64) -> (r: (Option<Vec<u8>>, u8))
    ensures
        gossip_of(members.deep_view(), members.spec_self_id(), seq, epoch_ms) == (
            match r.0 {
                Some(buf) => Some(buf@),
                None => None,
            },
            r.1,
        ),
{
    let rows = members.rows();
    let ghost all = rows.deep_view();
    if rows.len() == 0 {
        return (None, seq);
    }
    let mut entries: Vec<GossipEntry> = Vec::new();
    let mut i: usize = 0;
    while i < rows.len()
        invariant
            i <= rows@.len(),
            all == rows.deep_view(),
            entries@ == entries_of(all, epoch_ms).take(i as int),
        decreases rows@.len() - i,
    {
        let n = &rows[i].1;
        assert(all[i as int] == rows@[i as int].deep_view());
        entries.push(
            GossipEntry { node_id: n.node_id, incarnation: n.incarnation, state: n.state, epoch_ms },
        );
        assert(entries@ =~= entries_of(all, epoch_ms).take(i + 1));
        i += 1;
    }
    assert(entries@ =~= entries_of(all, epoch_ms));
    assert(entries.deep_view() =~= entries@);
    let header = FrameHeader::new(MsgType::Gossip, seq, members.self_id());
    let payload = GossipPayload { entries };
    match encode_frame(header, &payload) {
        Ok(buf) => (Some(buf), next_seq(seq)),
        Err(_) => (None, next_seq(seq)),
    }
}

/// A round of gossip that reaches another node does there what its entries,
/// one for each node of the sender's table, do one after the other.
pub proof fn gossip_arrives(
    rows: Seq<(u16, Node)>,
    id: u16,
    seq: u8,
    epoch_ms: u64,
    their_rows: Seq<(u16, Node)>,
    their_id: u16,
    from: SocketAddr,
    now: Timestamp,
)
    requires
        id != their_id,
        rows.len() <= usize::MAX,
    ensures
        gossip_of(rows, id, seq, epoch_ms).0 matches Some(sent) ==> membership::after_datagram(
            their_rows,
            their_id,
            sent,
            from,
            now,
        ) == (
            membership::after_gossip(
                their_rows,
                their_id,
                entries_of(rows, epoch_ms),
                from,
                now,
            ),
            News::Quiet,
        ),
{
    let entries = entries_of(rows, epoch_ms);
    frame::header_round_trip(MsgType::Gossip, seq, id, GossipPayload::wire(entries));
    wire::lemma_front_of_wire::<GossipPayload>(entries, seq![]);
}

/// A round of gossip sends the whole view of a node that knows others, one
/// entry for each, as long as that fits in a frame; then the sequence number
/// goes up by one, and from 15 back to 0. A node that knows no other sends
/// nothing and keeps its number.
pub proof fn gossip_sends_the_view(rows: Seq<(u16, Node)>, id: u16, seq: u8, epoch_ms: u64)
    requires
        rows.len() <= usize::MAX,
    ensures
        ({
            let (frame, next) = gossip_of(rows, id, seq, epoch_ms);
            let view = Seq::new(
                rows.len(),
                |i: int|
                    GossipEntry {
                        node_id: rows[i].1.node_id,
                        incarnation: rows[i].1.incarnation,
                        state: rows[i].1.state,
                        epoch_ms,
                    },
            );
            &&& rows.len() == 0 ==> frame is None && next == seq
            &&& rows.len() > 0 ==> next == (seq + 1) % 16 && (frame is Some <==> 4
                + GossipPayload::wire(view).len() <= 508)
            &&& frame matches Some(sent) ==> sent == frame::header_bytes(MsgType::Gossip, seq, id)
                + GossipPayload::wire(view) && wire::front::<GossipPayload>(sent.skip(4)) == Ok::<
                Seq<GossipEntry>,
                Seq<char>,
            >(view)
        }),
{
    let view = entries_of(rows, epoch_ms);
    let other = Seq::new(
        rows.len(),
        |i: int|
            GossipEntry {
                node_id: rows[i].1.node_id,
                incarnation: rows[i].1.incarnation,
                state: rows[i].1.state,
                epoch_ms,
            },
    );
    assert(view =~= other);
    frame::header_round_trip(MsgType::Gossip, seq, id, GossipPayload::wire(view));
    frame::header_layout(MsgType::Gossip, seq, id);
    wire::lemma_front_of_wire::<GossipPayload>(view, seq![]);
}

/// What a round of gossip brings to another node, for each node that the sender
/// knows: state and incarnation, where the receiver knows it with an incarnation
/// that is not higher, or does not know it; else nothing. Nodes that the sender
/// does not know stay as they are.
pub proof fn gossip_is_merged(
    rows: Seq<(u16, Node)>,
    id: u16,
    seq: u8,
    epoch_ms: u64,
    their_rows: Seq<(u16, Node)>,
    their_id: u16,
    from: SocketAddr,
    now: Timestamp,
    about: u16,
)
    requires
        id != their_id,
        about != their_id,
        rows.len() <= usize::MAX,
        membership::sound(rows, id),
        membership::sound(their_rows, their_id),
    ensures
        gossip_of(rows, id, seq, epoch_ms).0 matches Some(sent) ==> ({
            let after = membership::after_datagram(their_rows, their_id, sent, from, now).0;
            match (table::get(rows, about), table::get(their_rows, about)) {
                (None, _) => table::get(after, about) == table::get(their_rows, about),
                (Some(ours), Some(theirs)) => table::get(after, about) matches Some(n)
                    && n.hostname == theirs.hostname && n.control_addr == theirs.control_addr
                    && n.last_seen == theirs.last_seen && (if ours.incarnation
                    >= theirs.incarnation {
                    n.state == ours.state && n.incarnation == ours.incarnation
                } else {
                    n.state == theirs.state && n.incarnation == theirs.incarnation
                }),
                (Some(ours), None) => table::get(after, about) matches Some(n) && n.node_id == about
                    && n.state == ours.state && n.incarnation == ours.incarnation
                    && n.control_addr == from && n.last_seen == now && !n.is_master,
            }
        }),
{
    let view = entries_of(rows, epoch_ms);
    gossip_arrives(rows, id, seq, epoch_ms, their_rows, their_id, from, now);
    if table::holds(rows, about) {
        let k = table::place(rows, about);
        assert(rows[k].0 == about);
        assert forall|i: int| 0 <= i < view.len() && i != k implies (#[trigger] view[i]).node_id
            != view[k].node_id by {
            if i < k {
                assert(rows[i].0 != rows[k].0);
            } else {
                assert(rows[k].0 != rows[i].0);
            }
            assert(rows[i].0 == rows[i].1.node_id);
        }
        membership::lemma_gossip_merges(their_rows, their_id, view, k, from, now);
    } else {
        assert forall|i: int| 0 <= i < view.len() implies (#[trigger] view[i]).node_id != about by {
            assert(rows[i].0 == rows[i].1.node_id);
        }
        membership::lemma_gossip_is_local(their_rows, their_id, view, from, now, about);
    }
}

// ---------------------------------------------------------------------------
// Answers
// ---------------------------------------------------------------------------

/// The node itself, as it shows itself to others.
pub open spec fn local_node(
    node_id: u16,
    hostname: Seq<char>,
    control_addr: SocketAddr,
    incarnation: u32,
    now: Timestamp,
    is_master: bool,
) -> Node {
    Node {
        node_id,
        hostname,
        control_addr,
        state: NodeState::Alive,
        incarnation,
        last_seen: now,
        is_master,
    }
}

/// The node itself, as it shows itself to others.
pub fn local_node_info(
    node_id: u16,
    hostname: &str,
    control_addr: SocketAddr,
    incarnation: u32,
    now: Timestamp,
    is_master: bool,
) -> (r: NodeInfo)
    ensures
        r.deep_view() == local_node(node_id, hostname@, control_addr, incarnation, now, is_master),
{
    NodeInfo {
        node_id,
        hostname: hostname.to_owned(),
        control_addr,
        state: NodeState::Alive,
        incarnation,
        last_seen: now,
        is_master,
    }
}

/// Whether the nodes are in the order of their numbers, none of which comes
/// twice.
pub open spec fn ascending(nodes: Seq<Node>) -> bool {
    forall|i: int, j: int|
        0 <= i < j < nodes.len() ==> (#[trigger] nodes[i]).node_id < (#[trigger] nodes[j]).node_id
}

/// Whether `n` is the node itself or one of the table.
pub open spec fn among(n: Node, rows: Seq<(u16, Node)>, local: Node) -> bool {
    n == local || exists|i: int| 0 <= i < rows.len() && (#[trigger] rows[i]).1 == n
}

/// Whether `nodes` lists the node itself and all nodes of the table, in the
/// order of their numbers.
pub open spec fn lists(nodes: Seq<Node>, rows: Seq<(u16, Node)>, local: Node) -> bool {
    &&& ascending(nodes)
    &&& forall|n: Node| #[trigger] nodes.contains(n) <==> among(n, rows, local)
}

/// Only one sequence of nodes lists a table.
pub proof fn listing_is_unique(
    a: Seq<Node>,
    b: Seq<Node>,
    rows: Seq<(u16, Node)>,
    local: Node,
)
    requires
        lists(a, rows, local),
        lists(b, rows, local),
    ensures
        a == b,
{
    assert forall|n: Node| a.contains(n) <==> b.contains(n) by {
        assert(a.contains(n) <==> among(n, rows, local));
        assert(b.contains(n) <==> among(n, rows, local));
    }
    lemma_ascending_unique(a, b);
}

proof fn lemma_ascending_unique(a: Seq<Node>, b: Seq<Node>)
    requires
        ascending(a),
        ascending(b),
        forall|n: Node| #![trigger a.contains(n)] #![trigger b.contains(n)]
            a.contains(n) <==> b.contains(n),
    ensures
        a == b,
    decreases a.len(),
{
    if a.len() == 0 {
        if b.len() > 0 {
            assert(b.contains(b[0]));
            assert(a.contains(b[0]));
        }
        assert(a =~= b);
    } else {
        assert(a.contains(a[0]));
        assert(b.contains(a[0]));
        let x = a.last();
        let y = b.last();
        assert(a.contains(x));
        assert(b.contains(y));
        let i = choose|i: int| 0 <= i < b.len() && b[i] == x;
        let j = choose|j: int| 0 <= j < a.len() && a[j] == y;
        assert(b.contains(x) && a.contains(y));
        if i < b.len() - 1 {
            assert(b[i].node_id < b[b.len() - 1].node_id);
            if j < a.len() - 1 {
                assert(a[j].node_id < a[a.len() - 1].node_id);
            }
            assert(false);
        }
        assert(x == y);
        let a2 = a.drop_last();
        let b2 = b.drop_last();
        assert forall|n: Node| #![trigger a2.contains(n)] #![trigger b2.contains(n)]
            a2.contains(n) <==> b2.contains(n) by {
            if a2.contains(n) {
                let p = choose|p: int| 0 <= p < a2.len() && a2[p] == n;
                assert(a[p] == n);
                assert(a[p].node_id < a[a.len() - 1].node_id);
                assert(a.contains(n));
                assert(b.contains(n));
                let q = choose|q: int| 0 <= q < b.len() && b[q] == n;
                assert(q < b2.len());
                assert(b2[q] == n);
            }
            if b2.contains(n) {
                let p = choose|p: int| 0 <= p < b2.len() && b2[p] == n;
                assert(b[p] == n);
                assert(b[p].node_id < b[b.len() - 1].node_id);
                assert(b.contains(n));
                assert(a.contains(n));
                let q = choose|q: int| 0 <= q < a.len() && a[q] == n;
                assert(q < a2.len());
                assert(a2[q] == n);
            }
        }
        lemma_ascending_unique(a2, b2);
        assert(a =~= a2.push(x));
        assert(b =~= b2.push(y));
    }
}

/// Puts `n` where it belongs.
fn insert_node(nodes: &mut Vec<NodeInfo>, n: NodeInfo)
    requires
        ascending(old(nodes).deep_view()),
        forall|k: int|
            0 <= k < old(nodes).deep_view().len() ==> (#[trigger] old(nodes).deep_view()[k]).node_id
                != n.node_id,
    ensures
        ascending(final(nodes).deep_view()),
        forall|m: Node| #[trigger]
            final(nodes).deep_view().contains(m) <==> m == n.deep_view() || old(
                nodes,
            ).deep_view().contains(m),
{
    let ghost before = nodes.deep_view();
    let ghost gn = n.deep_view();
    let mut p: usize = 0;
    while p < nodes.len() && nodes[p].node_id < n.node_id
        invariant
            p <= nodes@.len(),
            before == nodes.deep_view(),
            forall|k: int| 0 <= k < p ==> (#[trigger] before[k]).node_id < n.node_id,
        decreases nodes@.len() - p,
    {
        assert(before[p as int] == nodes@[p as int].deep_view());
        p += 1;
    }
    proof {
        if p < nodes@.len() {
            assert(before[p as int] == nodes@[p as int].deep_view());
        }
    }
    nodes.insert(p, n);
    let ghost after = before.insert(p as int, gn);
    assert(nodes.deep_view() =~= after);
    proof {
        assert forall|i: int, j: int| 0 <= i < j < after.len() implies (#[trigger] after[i]).node_id
            < (#[trigger] after[j]).node_id by {
            if i < p {
                if j == p {
                    assert(before[i].node_id < n.node_id);
                } else if j < p {
                    assert(before[i].node_id < before[j].node_id);
                } else {
                    assert(before[i].node_id < before[j - 1].node_id);
                }
            } else if i == p {
                assert(before[p as int].node_id > n.node_id);
                if j - 1 > p {
                    assert(before[p as int].node_id < before[j - 1].node_id);
                }
            } else {
                assert(before[i - 1].node_id < before[j - 1].node_id);
            }
        }
        assert forall|m: Node| #[trigger] after.contains(m) <==> m == gn || before.contains(m) by {
            if after.contains(m) {
                let k = choose|k: int| 0 <= k < after.len() && after[k] == m;
                if k < p {
                    assert(before[k] == m);
                } else if k > p {
                    assert(before[k - 1] == m);
                }
            }
            if before.contains(m) {
                let k = choose|k: int| 0 <= k < before.len() && before[k] == m;
                if k < p {
                    assert(after[k] == m);
                } else {
                    assert(after[k + 1] == m);
                }
            }
            if m == gn {
                assert(after[p as int] == m);
            }
        }
    }
}

/// The node itself and all nodes of the table, in the order of their numbers.
fn list_nodes(members: &Members, local: NodeInfo) -> (r: Vec<NodeInfo>)
    requires
        local.node_id == members.spec_self_id(),
    ensures
        lists(r.deep_view(), members.deep_view(), local.deep_view()),
{
    let rows = members.rows();
    let ghost all = rows.deep_view();
    let ghost me = local.deep_view();
    let mut out: Vec<NodeInfo> = Vec::new();
    out.push(local);
    assert(out.deep_view() =~= seq![me]);
    proof {
        assert forall|n: Node| #[trigger] out.deep_view().contains(n) <==> among(
            n,
            all.take(0),
            me,
        ) by {
            if n == me {
                assert(out.deep_view()[0] == n);
            }
        }
    }
    let mut i: usize = 0;
    while i < rows.len()
        invariant
            i <= rows@.len(),
            all == rows.deep_view(),
            membership::sound(all, me.node_id),
            lists(out.deep_view(), all.take(i as int), me),
        decreases rows@.len() - i,
    {
        let ghost before = out.deep_view();
        let n = rows[i].1.clone();
        let ghost gn = n.deep_view();
        proof {
            assert(all[i as int] == rows@[i as int].deep_view());
            assert forall|k: int| 0 <= k < before.len() implies (#[trigger] before[k]).node_id
                != n.node_id by {
                assert(before.contains(before[k]));
                assert(among(before[k], all.take(i as int), me));
                if before[k] != me {
                    let j = choose|j: int|
                        0 <= j < all.take(i as int).len() && (#[trigger] all.take(i as int)[j]).1
                            == before[k];
                    assert(all[j].0 != all[i as int].0);
                }
            }
        }
        insert_node(&mut out, n);
        proof {
            let after = out.deep_view();
            let seen = all.take(i as int);
            let next = all.take(i + 1);
            assert forall|m: Node| #[trigger] after.contains(m) <==> among(m, next, me) by {
                assert(after.contains(m) <==> m == gn || before.contains(m));
                assert(before.contains(m) <==> among(m, seen, me));
                if among(m, seen, me) && m != me {
                    let j = choose|j: int| 0 <= j < seen.len() && (#[trigger] seen[j]).1 == m;
                    assert(next[j].1 == m);
                }
                if m == gn {
                    assert(next[i as int].1 == m);
                }
                if among(m, next, me) && m != me {
                    let j = choose|j: int| 0 <= j < next.len() && (#[trigger] next[j]).1 == m;
                    if j < i {
                        assert(seen[j].1 == m);
                    }
                }
            }
        }
        i += 1;
    }
    assert(all.take(all.len() as int) =~= all);
    out
}

/// What the daemon answers to the payload of a request, nothing where it exits
/// instead; and whether the node has stepped down afterwards.
pub open spec fn answered(
    rows: Seq<(u16, Node)>,
    self_id: u16,
    stepped_down: bool,
    hostname: Seq<char>,
    control_addr: SocketAddr,
    incarnation: u32,
    now: Timestamp,
    payload: Seq<u8>,
    reply: Option<Reply>,
    down_after: bool,
) -> bool {
    let master = membership::master_of(rows, self_id, stepped_down);
    let local = local_node(
        self_id,
        hostname,
        control_addr,
        incarnation,
        now,
        master == Some(self_id),
    );
    let asked = wire::front::<ControlOp>(payload);
    &&& down_after == (stepped_down || asked == Ok::<Op, Seq<char>>(Op::StepDown))
    &&& match asked {
        Err(message) => reply == Some(Reply::Error { message }),
        Ok(Op::Ping) => reply == Some(Reply::Done),
        Ok(Op::GetNodes) => reply matches Some(Reply::Nodes(nodes)) && lists(nodes, rows, local),
        Ok(Op::GetMaster) => reply == Some(
            Reply::Master(
                match master {
                    None => None,
                    Some(id) => if id == self_id {
                        Some(local)
                    } else {
                        table::get(rows, id)
                    },
                },
            ),
        ),
        Ok(Op::StepDown) => reply == Some(Reply::Done),
        Ok(Op::Shutdown) => reply is None,
        Ok(Op::Custom { .. }) => reply == Some(Reply::Error { message: "unsupported op"@ }),
    }
}

/// A question for the master is answered with a node: the node itself or one
/// of the table, which is alive and has the master's number. No node is named
/// only by a node that has stepped down and knows of no other that is alive.
pub proof fn master_is_named(
    rows: Seq<(u16, Node)>,
    self_id: u16,
    stepped_down: bool,
    hostname: Seq<char>,
    control_addr: SocketAddr,
    incarnation: u32,
    now: Timestamp,
    payload: Seq<u8>,
    reply: Option<Reply>,
    down_after: bool,
)
    requires
        membership::sound(rows, self_id),
        wire::front::<ControlOp>(payload) == Ok::<Op, Seq<char>>(Op::GetMaster),
        answered(
            rows,
            self_id,
            stepped_down,
            hostname,
            control_addr,
            incarnation,
            now,
            payload,
            reply,
            down_after,
        ),
    ensures
        reply matches Some(Reply::Master(found)) && match found {
            Some(n) => membership::master_of(rows, self_id, stepped_down) == Some(n.node_id)
                && n.state == NodeState::Alive,
            None => stepped_down && forall|i: int|
                0 <= i < rows.len() ==> (#[trigger] rows[i]).1.state != NodeState::Alive,
        },
{
    membership::master_is_lowest_alive(rows, self_id, stepped_down);
    match membership::master_of(rows, self_id, stepped_down) {
        Some(master) => {
            if master != self_id {
                let i = choose|i: int|
                    0 <= i < rows.len() && (#[trigger] rows[i]).1.state == NodeState::Alive
                        && rows[i].1.node_id == master;
                assert(rows[i].0 == master);
                table::lemma_place(rows, i);
            }
        },
        None => {
            assert(!membership::electable(rows, self_id, stepped_down, self_id));
            assert forall|i: int| 0 <= i < rows.len() implies (#[trigger] rows[i]).1.state
                != NodeState::Alive by {
                assert(!membership::electable(rows, self_id, stepped_down, rows[i].1.node_id));
            }
        },
    }
}

/// The answers that need no table: the daemon says that it is there, steps
/// down, exits without an answer, refuses requests of other daemons, and answers
/// what it cannot read with the reason. Only the order to step down makes the
/// node step down, and nothing takes that back.
pub proof fn simple_questions_are_answered(
    rows: Seq<(u16, Node)>,
    self_id: u16,
    stepped_down: bool,
    hostname: Seq<char>,
    control_addr: SocketAddr,
    incarnation: u32,
    now: Timestamp,
    op: Op,
    rest: Seq<u8>,
    unread: Seq<u8>,
    reply: Option<Reply>,
    down_after: bool,
)
    requires
        ControlOp::fits(op),
    ensures
        answered(
            rows,
            self_id,
            stepped_down,
            hostname,
            control_addr,
            incarnation,
            now,
            ControlOp::wire(op) + rest,
            reply,
            down_after,
        ) ==> (match op {
            Op::Ping | Op::StepDown => reply == Some(Reply::Done),
            Op::Shutdown => reply is None,
            Op::Custom { .. } => reply == Some(Reply::Error { message: "unsupported op"@ }),
            Op::GetNodes => reply matches Some(Reply::Nodes(_)),
            Op::GetMaster => reply matches Some(Reply::Master(_)),
        }) && down_after == (stepped_down || op == Op::StepDown),
        answered(
            rows,
            self_id,
            stepped_down,
            hostname,
            control_addr,
            incarnation,
            now,
            unread,
            reply,
            down_after,
        ) ==> (wire::front::<ControlOp>(unread) matches Err(message) ==> reply == Some(
            Reply::Error { message },
        ) && down_after == stepped_down),
{
    wire::lemma_front_of_wire::<ControlOp>(op, rest);
}

/// The answer to the question for all nodes: the nodes of the table as they
/// stand there and the node itself, alive, seen now, and the master exactly if
/// its number is that of the master; each once, in the order of the numbers.
pub proof fn all_nodes_are_listed(
    rows: Seq<(u16, Node)>,
    self_id: u16,
    stepped_down: bool,
    hostname: Seq<char>,
    control_addr: SocketAddr,
    incarnation: u32,
    now: Timestamp,
    rest: Seq<u8>,
    reply: Option<Reply>,
    down_after: bool,
)
    requires
        membership::sound(rows, self_id),
        answered(
            rows,
            self_id,
            stepped_down,
            hostname,
            control_addr,
            incarnation,
            now,
            ControlOp::wire(Op::GetNodes) + rest,
            reply,
            down_after,
        ),
    ensures
        reply matches Some(Reply::Nodes(nodes)) && ({
            &&& forall|i: int, j: int|
                0 <= i < j < nodes.len() ==> (#[trigger] nodes[i]).node_id < (
                #[trigger] nodes[j]).node_id
            &&& nodes.contains(
                Node {
                    node_id: self_id,
                    hostname,
                    control_addr,
                    state: NodeState::Alive,
                    incarnation,
                    last_seen: now,
                    is_master: membership::master_of(rows, self_id, stepped_down) == Some(self_id),
                },
            )
            &&& forall|i: int| 0 <= i < rows.len() ==> nodes.contains((#[trigger] rows[i]).1)
            &&& forall|i: int|
                0 <= i < nodes.len() ==> (#[trigger] nodes[i]).node_id == self_id || table::get(
                    rows,
                    nodes[i].node_id,
                ) == Some(nodes[i])
        }),
{
    wire::lemma_front_of_wire::<ControlOp>(Op::GetNodes, rest);
    let nodes = reply->0->Nodes_0;
    let local = local_node(
        self_id,
        hostname,
        control_addr,
        incarnation,
        now,
        membership::master_of(rows, self_id, stepped_down) == Some(self_id),
    );
    assert(among(local, rows, local));
    assert(nodes.contains(local));
    assert forall|i: int| 0 <= i < rows.len() implies nodes.contains((#[trigger] rows[i]).1) by {
        assert(among(rows[i].1, rows, local));
    }
    assert forall|i: int| 0 <= i < nodes.len() implies (#[trigger] nodes[i]).node_id == self_id
        || table::get(rows, nodes[i].node_id) == Some(nodes[i]) by {
        assert(nodes.contains(nodes[i]));
        assert(among(nodes[i], rows, local));
        if nodes[i] != local {
            let k = choose|k: int| 0 <= k < rows.len() && (#[trigger] rows[k]).1 == nodes[i];
            table::lemma_place(rows, k);
        }
    }
}

/// The node that is named as the master is the one of the table that has its
/// number, as it stands there, or the node itself as it shows itself: alive,
/// seen now, and flagged as the master.
pub proof fn master_is_shown_as_known(
    rows: Seq<(u16, Node)>,
    self_id: u16,
    stepped_down: bool,
    hostname: Seq<char>,
    control_addr: SocketAddr,
    incarnation: u32,
    now: Timestamp,
    rest: Seq<u8>,
    reply: Option<Reply>,
    down_after: bool,
)
    requires
        membership::sound(rows, self_id),
        answered(
            rows,
            self_id,
            stepped_down,
            hostname,
            control_addr,
            incarnation,
            now,
            ControlOp::wire(Op::GetMaster) + rest,
            reply,
            down_after,
        ),
    ensures
        reply matches Some(Reply::Master(found)) && match membership::master_of(
            rows,
            self_id,
            stepped_down,
        ) {
            None => found is None,
            Some(m) => found == (if m == self_id {
                Some(
                    Node {
                        node_id: self_id,
                        hostname,
                        control_addr,
                        state: NodeState::Alive,
                        incarnation,
                        last_seen: now,
                        is_master: true,
                    },
                )
            } else {
                table::get(rows, m)
            }),
        },
{
    wire::lemma_front_of_wire::<ControlOp>(Op::GetMaster, rest);
}

/// A node that is told to step down says that it is done, and from then on is
/// not named as the master: whatever it is asked later, with whatever nodes it
/// then knows, the master is another node or none, and in a list of all nodes
/// it does not show itself as the master.
pub proof fn stepping_down_lasts(
    rows: Seq<(u16, Node)>,
    later: Seq<(u16, Node)>,
    self_id: u16,
    stepped_down: bool,
    hostname: Seq<char>,
    control_addr: SocketAddr,
    incarnation: u32,
    now: Timestamp,
    then: Timestamp,
    order: Seq<u8>,
    reply: Option<Reply>,
    down_after: bool,
    payload: Seq<u8>,
    answer: Option<Reply>,
    down_then: bool,
)
    requires
        membership::sound(later, self_id),
        wire::front::<ControlOp>(order) == Ok::<Op, Seq<char>>(Op::StepDown),
        answered(
            rows,
            self_id,
            stepped_down,
            hostname,
            control_addr,
            incarnation,
            now,
            order,
            reply,
            down_after,
        ),
        answered(
            later,
            self_id,
            down_after,
            hostname,
            control_addr,
            incarnation,
            then,
            payload,
            answer,
            down_then,
        ),
    ensures
        reply == Some(Reply::Done),
        down_after && down_then,
        answer matches Some(Reply::Master(Some(n))) ==> n.node_id != self_id,
        answer matches Some(Reply::Nodes(nodes)) ==> forall|i: int|
            0 <= i < nodes.len() && (#[trigger] nodes[i]).node_id == self_id
                ==> !nodes[i].is_master,
{
    membership::stepping_down_gives_way(later, self_id);
    let master = membership::master_of(later, self_id, true);
    let local = local_node(self_id, hostname, control_addr, incarnation, then, false);
    if let Some(Reply::Master(Some(n))) = answer {
        let id = master->0;
        let k = table::place(later, id);
        assert(later[k].0 == id);
        assert(later[k].0 == later[k].1.node_id);
    }
    if let Some(Reply::Nodes(nodes)) = answer {
        assert forall|i: int|
            0 <= i < nodes.len() && (#[trigger] nodes[i]).node_id == self_id implies !nodes[i].is_master by {
            assert(nodes.contains(nodes[i]));
            assert(among(nodes[i], later, local));
            if nodes[i] != local {
                let k = choose|k: int| 0 <= k < later.len() && (#[trigger] later[k]).1 == nodes[i];
                assert(later[k].0 == later[k].1.node_id);
            }
        }
    }
}

/// After a round of failure detection, a list of all nodes shows one master,
/// the node that is named as the master, or none where none is named.
pub proof fn one_master_is_listed(
    rows: Seq<(u16, Node)>,
    self_id: u16,
    stepped_down: bool,
    now: Timestamp,
    suspect: nat,
    dead: nat,
    hostname: Seq<char>,
    control_addr: SocketAddr,
    incarnation: u32,
    then: Timestamp,
    nodes: Seq<Node>,
)
    requires
        membership::sound(rows, self_id),
        ({
            let after = membership::after_detection(
                rows,
                self_id,
                stepped_down,
                now,
                suspect,
                dead,
            );
            let is_master = membership::master_of(after, self_id, stepped_down) == Some(self_id);
            lists(
                nodes,
                after,
                local_node(self_id, hostname, control_addr, incarnation, then, is_master),
            )
        }),
    ensures
        ({
            let after = membership::after_detection(
                rows,
                self_id,
                stepped_down,
                now,
                suspect,
                dead,
            );
            let master = membership::master_of(after, self_id, stepped_down);
            &&& forall|i: int|
                0 <= i < nodes.len() ==> ((#[trigger] nodes[i]).is_master <==> master == Some(
                    nodes[i].node_id,
                ))
            &&& master is Some ==> exists|i: int|
                0 <= i < nodes.len() && master == Some((#[trigger] nodes[i]).node_id)
        }),
{
    let after = membership::after_detection(rows, self_id, stepped_down, now, suspect, dead);
    let master = membership::master_of(after, self_id, stepped_down);
    let local = local_node(
        self_id,
        hostname,
        control_addr,
        incarnation,
        then,
        master == Some(self_id),
    );
    membership::detection(rows, self_id, stepped_down, now, suspect, dead);
    membership::master_is_lowest_alive(after, self_id, stepped_down);
    assert forall|i: int| 0 <= i < nodes.len() implies ((#[trigger] nodes[i]).is_master
        <==> master == Some(nodes[i].node_id)) by {
        assert(nodes.contains(nodes[i]));
        assert(among(nodes[i], after, local));
        if nodes[i] != local {
            let k = choose|k: int| 0 <= k < after.len() && (#[trigger] after[k]).1 == nodes[i];
            table::lemma_place(after, k);
            assert(table::get(after, after[k].0) == Some(nodes[i]));
        }
    }
    if let Some(id) = master {
        let wanted = if id == self_id && !stepped_down {
            local
        } else {
            let k = choose|k: int|
                0 <= k < after.len() && (#[trigger] after[k]).1.state == NodeState::Alive
                    && after[k].1.node_id == id;
            after[k].1
        };
        assert(among(wanted, after, local));
        assert(nodes.contains(wanted));
        let i = choose|i: int| 0 <= i < nodes.len() && nodes[i] == wanted;
        assert(nodes[i].node_id == id);
    }
}

/// Answers the payload of a request at the time `now`; nothing where the
/// daemon is to exit instead.
pub fn answer_at(
    members: &mut Members,
    hostname: &str,
    control_addr: SocketAddr,
    incarnation: u32,
    now: Timestamp,
    payload: &[u8],
) -> (r: Option<ControlReply>)
    ensures
        answered(
            old(members).deep_view(),
            old(members).spec_self_id(),
            old(members).spec_stepped_down(),
            hostname@,
            control_addr,
            incarnation,
            now,
            payload@,
            r.deep_view(),
            final(members).spec_stepped_down(),
        ),
        final(members).deep_view() == old(members).deep_view(),
        final(members).spec_self_id() == old(members).spec_self_id(),
{
    let self_id: u16 = members.self_id();
    let master_id = members.master_from();
    let is_master = match master_id {
        Some(id) => id == self_id,
        None => false,
    };
    match decode_control::<ControlOp>(payload) {
        Err(message) => Some(ControlReply::Error { message }),
        Ok(ControlOp::Ping) => Some(ControlReply::Done),
        Ok(ControlOp::GetNodes) => {
            let local = local_node_info(
                self_id,
                hostname,
                control_addr,
                incarnation,
                now,
                is_master,
            );
            Some(ControlReply::Nodes(list_nodes(members, local)))
        },
        Ok(ControlOp::GetMaster) => {
            let master = if is_master {
                Some(
                    local_node_info(self_id, hostname, control_addr, incarnation, now, true),
                )
            } else {
                match master_id {
                    Some(id) => members.get(id),
                    None => None,
                }
            };
            Some(ControlReply::Master(master))
        },
        Ok(ControlOp::StepDown) => {
            members.step_down();
            Some(ControlReply::Done)
        },
        Ok(ControlOp::Shutdown) => None,
        Ok(ControlOp::Custom { .. }) => Some(
            ControlReply::Error { message: "unsupported op".to_owned() },
        ),
    }
}

/// Answers the payload of a request that arrives now.
pub fn answer(
    members: &mut Members,
    hostname: &str,
    control_addr: SocketAddr,
    incarnation: u32,
    payload: &[u8],
) -> (r: Option<ControlReply>)
    ensures
        exists|now: Timestamp|
            now.nanos < 1_000_000_000 && #[trigger] answered(
                old(members).deep_view(),
                old(members).spec_self_id(),
                old(members).spec_stepped_down(),
                hostname@,
                control_addr,
                incarnation,
                now,
                payload@,
                r.deep_view(),
                final(members).spec_stepped_down(),
            ),
        final(members).deep_view() == old(members).deep_view(),
        final(members).spec_self_id() == old(members).spec_self_id(),
{
    let now = system_now();
    answer_at(members, hostname, control_addr, incarnation, now, payload)
}

} // verus!
