//! What is known of a node.

use crate::addr::SocketAddr;
use crate::clock::{system_now, Duration, Timestamp};
use crate::wire;
use crate::wire::Wire;
use vstd::prelude::*;

verus! {

/// What the failure detector thinks of a node.
#[derive(Debug, Clone, Copy, PartialEq, Eq, Structural)]
pub enum NodeState {
    Alive,
    Suspect,
    Dead,
}

impl DeepView for NodeState {
    type V = NodeState;

    open spec fn deep_view(&self) -> NodeState {
        *self
    }
}

impl Wire for NodeState {
    open spec fn wire(v: NodeState) -> Seq<u8> {
        <u32 as Wire>::wire(
            match v {
                NodeState::Alive => 0,
                NodeState::Suspect => 1,
                NodeState::Dead => 2,
            },
        )
    }

    open spec fn parse(b: Seq<u8>) -> Result<(NodeState, Seq<u8>), Seq<char>> {
        match <u32 as Wire>::parse(b) {
            Err(text) => Err(text),
            Ok((i, rest)) => if i == 0 {
                Ok((NodeState::Alive, rest))
            } else if i == 1 {
                Ok((NodeState::Suspect, rest))
            } else if i == 2 {
                Ok((NodeState::Dead, rest))
            } else {
                Err(wire::variant_refusal(i, "variant index 0 <= i < 3"@))
            },
        }
    }

    open spec fn fits(v: NodeState) -> bool {
        true
    }

    open spec fn encodable(v: NodeState) -> bool {
        true
    }

    proof fn round_trip(v: NodeState, rest: Seq<u8>) {
        <u32 as Wire>::round_trip(0, rest);
        <u32 as Wire>::round_trip(1, rest);
        <u32 as Wire>::round_trip(2, rest);
    }

    fn is_encodable(&self) -> (r: bool) {
        true
    }

    fn encode(&self, out: &mut Vec<u8>) {
        let i: u32 = match *self {
            NodeState::Alive => 0,
            NodeState::Suspect => 1,
            NodeState::Dead => 2,
        };
        i.encode(out);
    }

    fn decode(b: &[u8]) -> (r: Result<(NodeState, &[u8]), String>) {
        match <u32 as Wire>::decode(b) {
            Err(text) => Err(text),
            Ok((i, rest)) => if i == 0 {
                Ok((NodeState::Alive, rest))
            } else if i == 1 {
                Ok((NodeState::Suspect, rest))
            } else if i == 2 {
                Ok((NodeState::Dead, rest))
            } else {
                Err(wire::bincode_bad_variant(i, "variant index 0 <= i < 3"))
            },
        }
    }
}

/// A node as the cluster sees it.
#[derive(Debug)]
pub struct NodeInfo {
    pub node_id: u16,
    pub hostname: String,
    pub control_addr: SocketAddr,
    pub state: NodeState,
    pub incarnation: u32,
    pub last_seen: Timestamp,
    pub is_master: bool,
}

/// The mathematical form of a [`NodeInfo`].
#[verifier::ext_equal]
pub struct Node {
    pub node_id: u16,
    pub hostname: Seq<char>,
    pub control_addr: SocketAddr,
    pub state: NodeState,
    pub incarnation: u32,
    pub last_seen: Timestamp,
    pub is_master: bool,
}

impl DeepView for NodeInfo {
    type V = Node;

    open spec fn deep_view(&self) -> Node {
        Node {
            node_id: self.node_id,
            hostname: self.hostname@,
            control_addr: self.control_addr,
            state: self.state,
            incarnation: self.incarnation,
            last_seen: self.last_seen,
            is_master: self.is_master,
        }
    }
}

impl Clone for NodeInfo {
    fn clone(&self) -> (r: NodeInfo)
        ensures
            r.deep_view() == self.deep_view(),
    {
        NodeInfo {
            node_id: self.node_id,
            hostname: self.hostname.clone(),
            control_addr: self.control_addr,
            state: self.state,
            incarnation: self.incarnation,
            last_seen: self.last_seen,
            is_master: self.is_master,
        }
    }
}

impl Node {
    /// Whether the node was last seen longer than `threshold` before `now`; one
    /// that was last seen after `now` counts as well.
    pub open spec fn timed_out(self, now: Timestamp, threshold: nat) -> bool {
        match now.spec_since(self.last_seen) {
            Some(age) => age > threshold,
            None => true,
        }
    }
}

/// A node is timed out exactly if the time from its last sign of life to now is
/// longer than the threshold, or if that lies in the future.
pub proof fn time_out_goes_by_age(n: Node, now: Timestamp, threshold: nat)
    ensures
        ({
            let age = (now.secs - n.last_seen.secs) * 1_000_000_000 + now.nanos - n.last_seen.nanos;
            n.timed_out(now, threshold) <==> age < 0 || age > threshold
        }),
{
}

impl NodeInfo {
    /// Whether the node was last seen longer than `dead_threshold` before
    /// `now`, or after it.
    pub fn is_timed_out_at(&self, now: Timestamp, dead_threshold: Duration) -> (r: bool)
        ensures
            r == self.deep_view().timed_out(now, dead_threshold.nanos as nat),
    {
        match now.since(self.last_seen) {
            Some(age) => age.nanos > dead_threshold.nanos,
            None => true,
        }
    }

    /// Whether the node should be considered timed out by the system clock.
    pub fn is_timed_out(&self, dead_threshold: Duration) -> (r: bool)
        ensures
            exists|now: Timestamp|
                now.nanos < 1_000_000_000 && r == #[trigger] self.deep_view().timed_out(
                    now,
                    dead_threshold.nanos as nat,
                ),
    {
        let now = system_now();
        self.is_timed_out_at(now, dead_threshold)
    }
}

type NodeFields = (u16, (String, (SocketAddr, (NodeState, (u32, (Timestamp, bool))))));

impl Wire for NodeInfo {
    open spec fn wire(v: Node) -> Seq<u8> {
        <NodeFields as Wire>::wire(
            (
                v.node_id,
                (
                    v.hostname,
                    (v.control_addr, (v.state, (v.incarnation, (v.last_seen, v.is_master)))),
                ),
            ),
        )
    }

    open spec fn parse(b: Seq<u8>) -> Result<(Node, Seq<u8>), Seq<char>> {
        match <NodeFields as Wire>::parse(b) {
            Err(text) => Err(text),
            Ok(
                (
                    (
                        node_id,
                        (hostname, (control_addr, (state, (incarnation, (last_seen, is_master))))),
                    ),
                    rest,
                ),
            ) => Ok(
                (
                    Node {
                        node_id,
                        hostname,
                        control_addr,
                        state,
                        incarnation,
                        last_seen,
                        is_master,
                    },
                    rest,
                ),
            ),
        }
    }

    open spec fn fits(v: Node) -> bool {
        <String as Wire>::fits(v.hostname) && <Timestamp as Wire>::fits(v.last_seen)
    }

    open spec fn encodable(v: Node) -> bool {
        <Timestamp as Wire>::encodable(v.last_seen)
    }

    proof fn round_trip(v: Node, rest: Seq<u8>) {
        <NodeFields as Wire>::round_trip(
            (
                v.node_id,
                (
                    v.hostname,
                    (v.control_addr, (v.state, (v.incarnation, (v.last_seen, v.is_master)))),
                ),
            ),
            rest,
        );
    }

    fn is_encodable(&self) -> (r: bool) {
        self.last_seen.is_encodable()
    }

    fn encode(&self, out: &mut Vec<u8>) {
        self.node_id.encode(out);
        self.hostname.encode(out);
        self.control_addr.encode(out);
        self.state.encode(out);
        self.incarnation.encode(out);
        self.last_seen.encode(out);
        self.is_master.encode(out);
        assert(out@ =~= old(out)@ + Self::wire(self.deep_view()));
    }

    fn decode(b: &[u8]) -> (r: Result<(NodeInfo, &[u8]), String>) {
        match <NodeFields as Wire>::decode(b) {
            Err(text) => Err(text),
            Ok(
                (
                    (
                        node_id,
                        (hostname, (control_addr, (state, (incarnation, (last_seen, is_master))))),
                    ),
                    rest,
                ),
            ) => Ok(
                (
                    NodeInfo {
                        node_id,
                        hostname,
                        control_addr,
                        state,
                        incarnation,
                        last_seen,
                        is_master,
                    },
                    rest,
                ),
            ),
        }
    }
}

/// The states are numbered, and so are they sent; other numbers are refused.
pub proof fn states_are_numbered(other: u32, rest: Seq<u8>)
    requires
        other > 2,
    ensures
        <NodeState as Wire>::wire(NodeState::Alive) == seq![0u8],
        <NodeState as Wire>::wire(NodeState::Suspect) == seq![1u8],
        <NodeState as Wire>::wire(NodeState::Dead) == seq![2u8],
        <NodeState as Wire>::parse(<u32 as Wire>::wire(other) + rest) is Err,
{
    <u32 as Wire>::round_trip(other, rest);
}

/// A node is sent as its number, host name, address, state, incarnation, last
/// sign of life and whether it is the master, in this order.
pub proof fn node_layout(n: Node)
    ensures
        <NodeInfo as Wire>::wire(n) == wire::varint_bytes(n.node_id as nat) + <String as Wire>::wire(
            n.hostname,
        ) + <SocketAddr as Wire>::wire(n.control_addr) + <NodeState as Wire>::wire(n.state)
            + wire::varint_bytes(n.incarnation as nat) + <Timestamp as Wire>::wire(n.last_seen)
            + seq![
            if n.is_master {
                1u8
            } else {
                0u8
            },
        ],
{
    let a = wire::varint_bytes(n.node_id as nat);
    let b = <String as Wire>::wire(n.hostname);
    let c = <SocketAddr as Wire>::wire(n.control_addr);
    let d = <NodeState as Wire>::wire(n.state);
    let e = wire::varint_bytes(n.incarnation as nat);
    let f = <Timestamp as Wire>::wire(n.last_seen);
    let g = <bool as Wire>::wire(n.is_master);
    assert(a + (b + (c + (d + (e + (f + g))))) =~= a + b + c + d + e + f + g);
}

} // verus!
