//! What discovery frames carry.

use crate::addr::SocketAddr;
use crate::node::NodeState;
use crate::wire;
use crate::wire::Wire;
use vstd::prelude::*;

verus! {

/// Sent periodically to prove that the node is alive.
#[derive(Debug, Clone, Copy, PartialEq, Eq, Structural)]
pub struct HeartbeatPayload {
    /// Grows with each start of the node.
    pub incarnation: u32,
    /// Milliseconds since the Unix epoch.
    pub epoch_ms: u64,
}

/// Broadcast when a node joins.
#[derive(Debug, Clone)]
pub struct AnnouncePayload {
    pub incarnation: u32,
    pub hostname: String,
    /// Where the node's control service can be reached.
    pub control_addr: SocketAddr,
    /// Version of the software.
    pub version: String,
}

/// The mathematical form of an [`AnnouncePayload`].
#[verifier::ext_equal]
pub struct Announce {
    pub incarnation: u32,
    pub hostname: Seq<char>,
    pub control_addr: SocketAddr,
    pub version: Seq<char>,
}

/// Sent on graceful shutdown.
#[derive(Debug, Clone)]
pub struct LeavePayload {
    pub incarnation: u32,
    pub reason: String,
}

/// The mathematical form of a [`LeavePayload`].
#[verifier::ext_equal]
pub struct Leave {
    pub incarnation: u32,
    pub reason: Seq<char>,
}

/// A partial view of the membership table.
#[derive(Debug, Clone)]
pub struct GossipPayload {
    pub entries: Vec<GossipEntry>,
}

/// What is gossiped of one node.
#[derive(Debug, Clone, Copy, PartialEq, Eq, Structural)]
pub struct GossipEntry {
    pub node_id: u16,
    pub incarnation: u32,
    pub state: NodeState,
    pub epoch_ms: u64,
}

/// A candidate asks for a vote.
#[derive(Debug, Clone, Copy, PartialEq, Eq, Structural)]
pub struct VoteRequestPayload {
    pub term: u64,
    pub candidate_id: u16,
    pub last_log_index: u64,
    pub last_log_term: u64,
}

/// The answer to a request for a vote.
#[derive(Debug, Clone, Copy, PartialEq, Eq, Structural)]
pub struct VoteGrantPayload {
    pub term: u64,
    pub granted: bool,
}

impl DeepView for HeartbeatPayload {
    type V = HeartbeatPayload;

    open spec fn deep_view(&self) -> HeartbeatPayload {
        *self
    }
}

impl DeepView for AnnouncePayload {
    type V = Announce;

    open spec fn deep_view(&self) -> Announce {
        Announce {
            incarnation: self.incarnation,
            hostname: self.hostname@,
            control_addr: self.control_addr,
            version: self.version@,
        }
    }
}

impl DeepView for LeavePayload {
    type V = Leave;

    open spec fn deep_view(&self) -> Leave {
        Leave { incarnation: self.incarnation, reason: self.reason@ }
    }
}

impl DeepView for GossipPayload {
    type V = Seq<GossipEntry>;

    open spec fn deep_view(&self) -> Seq<GossipEntry> {
        self.entries.deep_view()
    }
}

impl DeepView for GossipEntry {
    type V = GossipEntry;

    open spec fn deep_view(&self) -> GossipEntry {
        *self
    }
}

impl DeepView for VoteRequestPayload {
    type V = VoteRequestPayload;

    open spec fn deep_view(&self) -> VoteRequestPayload {
        *self
    }
}

impl DeepView for VoteGrantPayload {
    type V = VoteGrantPayload;

    open spec fn deep_view(&self) -> VoteGrantPayload {
        *self
    }
}

impl Wire for HeartbeatPayload {
    open spec fn wire(v: HeartbeatPayload) -> Seq<u8> {
        <(u32, u64) as Wire>::wire((v.incarnation, v.epoch_ms))
    }

    open spec fn parse(b: Seq<u8>) -> Result<(HeartbeatPayload, Seq<u8>), Seq<char>> {
        match <(u32, u64) as Wire>::parse(b) {
            Err(text) => Err(text),
            Ok(((incarnation, epoch_ms), rest)) => Ok(
                (HeartbeatPayload { incarnation, epoch_ms }, rest),
            ),
        }
    }

    open spec fn fits(v: HeartbeatPayload) -> bool {
        true
    }

    open spec fn encodable(v: HeartbeatPayload) -> bool {
        true
    }

    proof fn round_trip(v: HeartbeatPayload, rest: Seq<u8>) {
        <(u32, u64) as Wire>::round_trip((v.incarnation, v.epoch_ms), rest);
    }

    fn is_encodable(&self) -> (r: bool) {
        true
    }

    fn encode(&self, out: &mut Vec<u8>) {
        (self.incarnation, self.epoch_ms).encode(out);
    }

    fn decode(b: &[u8]) -> (r: Result<(HeartbeatPayload, &[u8]), String>) {
        match <(u32, u64) as Wire>::decode(b) {
            Err(text) => Err(text),
            Ok(((incarnation, epoch_ms), rest)) => Ok(
                (HeartbeatPayload { incarnation, epoch_ms }, rest),
            ),
        }
    }
}

type AnnounceFields = (u32, (String, (SocketAddr, String)));

impl Wire for AnnouncePayload {
    open spec fn wire(v: Announce) -> Seq<u8> {
        <AnnounceFields as Wire>::wire(
            (v.incarnation, (v.hostname, (v.control_addr, v.version))),
        )
    }

    open spec fn parse(b: Seq<u8>) -> Result<(Announce, Seq<u8>), Seq<char>> {
        match <AnnounceFields as Wire>::parse(b) {
            Err(text) => Err(text),
            Ok(((incarnation, (hostname, (control_addr, version))), rest)) => Ok(
                (Announce { incarnation, hostname, control_addr, version }, rest),
            ),
        }
    }

    open spec fn fits(v: Announce) -> bool {
        <String as Wire>::fits(v.hostname) && <String as Wire>::fits(v.version)
    }

    open spec fn encodable(v: Announce) -> bool {
        true
    }

    proof fn round_trip(v: Announce, rest: Seq<u8>) {
        <AnnounceFields as Wire>::round_trip(
            (v.incarnation, (v.hostname, (v.control_addr, v.version))),
            rest,
        );
    }

    fn is_encodable(&self) -> (r: bool) {
        true
    }

    fn encode(&self, out: &mut Vec<u8>) {
        self.incarnation.encode(out);
        self.hostname.encode(out);
        self.control_addr.encode(out);
        self.version.encode(out);
        assert(out@ =~= old(out)@ + Self::wire(self.deep_view()));
    }

    fn decode(b: &[u8]) -> (r: Result<(AnnouncePayload, &[u8]), String>) {
        match <AnnounceFields as Wire>::decode(b) {
            Err(text) => Err(text),
            Ok(((incarnation, (hostname, (control_addr, version))), rest)) => Ok(
                (AnnouncePayload { incarnation, hostname, control_addr, version }, rest),
            ),
        }
    }
}

impl Wire for LeavePayload {
    open spec fn wire(v: Leave) -> Seq<u8> {
        <(u32, String) as Wire>::wire((v.incarnation, v.reason))
    }

    open spec fn parse(b: Seq<u8>) -> Result<(Leave, Seq<u8>), Seq<char>> {
        match <(u32, String) as Wire>::parse(b) {
            Err(text) => Err(text),
            Ok(((incarnation, reason), rest)) => Ok((Leave { incarnation, reason }, rest)),
        }
    }

    open spec fn fits(v: Leave) -> bool {
        <String as Wire>::fits(v.reason)
    }

    open spec fn encodable(v: Leave) -> bool {
        true
    }

    proof fn round_trip(v: Leave, rest: Seq<u8>) {
        <(u32, String) as Wire>::round_trip((v.incarnation, v.reason), rest);
    }

    fn is_encodable(&self) -> (r: bool) {
        true
    }

    fn encode(&self, out: &mut Vec<u8>) {
        self.incarnation.encode(out);
        self.reason.encode(out);
        assert(out@ =~= old(out)@ + Self::wire(self.deep_view()));
    }

    fn decode(b: &[u8]) -> (r: Result<(LeavePayload, &[u8]), String>) {
        match <(u32, String) as Wire>::decode(b) {
            Err(text) => Err(text),
            Ok(((incarnation, reason), rest)) => Ok((LeavePayload { incarnation, reason }, rest)),
        }
    }
}

type EntryFields = (u16, (u32, (NodeState, u64)));

impl Wire for GossipEntry {
    open spec fn wire(v: GossipEntry) -> Seq<u8> {
        <EntryFields as Wire>::wire((v.node_id, (v.incarnation, (v.state, v.epoch_ms))))
    }

    open spec fn parse(b: Seq<u8>) -> Result<(GossipEntry, Seq<u8>), Seq<char>> {
        match <EntryFields as Wire>::parse(b) {
            Err(text) => Err(text),
            Ok(((node_id, (incarnation, (state, epoch_ms))), rest)) => Ok(
                (GossipEntry { node_id, incarnation, state, epoch_ms }, rest),
            ),
        }
    }

    open spec fn fits(v: GossipEntry) -> bool {
        true
    }

    open spec fn encodable(v: GossipEntry) -> bool {
        true
    }

    proof fn round_trip(v: GossipEntry, rest: Seq<u8>) {
        <EntryFields as Wire>::round_trip(
            (v.node_id, (v.incarnation, (v.state, v.epoch_ms))),
            rest,
        );
    }

    fn is_encodable(&self) -> (r: bool) {
        true
    }

    fn encode(&self, out: &mut Vec<u8>) {
        (self.node_id, (self.incarnation, (self.state, self.epoch_ms))).encode(out);
    }

    fn decode(b: &[u8]) -> (r: Result<(GossipEntry, &[u8]), String>) {
        match <EntryFields as Wire>::decode(b) {
            Err(text) => Err(text),
            Ok(((node_id, (incarnation, (state, epoch_ms))), rest)) => Ok(
                (GossipEntry { node_id, incarnation, state, epoch_ms }, rest),
            ),
        }
    }
}

impl Wire for GossipPayload {
    open spec fn wire(v: Seq<GossipEntry>) -> Seq<u8> {
        <Vec<GossipEntry> as Wire>::wire(v)
    }

    open spec fn parse(b: Seq<u8>) -> Result<(Seq<GossipEntry>, Seq<u8>), Seq<char>> {
        <Vec<GossipEntry> as Wire>::parse(b)
    }

    open spec fn fits(v: Seq<GossipEntry>) -> bool {
        v.len() <= usize::MAX
    }

    open spec fn encodable(v: Seq<GossipEntry>) -> bool {
        true
    }

    proof fn round_trip(v: Seq<GossipEntry>, rest: Seq<u8>) {
        <Vec<GossipEntry> as Wire>::round_trip(v, rest);
    }

    fn is_encodable(&self) -> (r: bool) {
        true
    }

    fn encode(&self, out: &mut Vec<u8>) {
        self.entries.encode(out);
    }

    fn decode(b: &[u8]) -> (r: Result<(GossipPayload, &[u8]), String>) {
        match <Vec<GossipEntry> as Wire>::decode(b) {
            Err(text) => Err(text),
            Ok((entries, rest)) => Ok((GossipPayload { entries }, rest)),
        }
    }
}

type VoteRequestFields = (u64, (u16, (u64, u64)));

impl Wire for VoteRequestPayload {
    open spec fn wire(v: VoteRequestPayload) -> Seq<u8> {
        <VoteRequestFields as Wire>::wire(
            (v.term, (v.candidate_id, (v.last_log_index, v.last_log_term))),
        )
    }

    open spec fn parse(b: Seq<u8>) -> Result<(VoteRequestPayload, Seq<u8>), Seq<char>> {
        match <VoteRequestFields as Wire>::parse(b) {
            Err(text) => Err(text),
            Ok(((term, (candidate_id, (last_log_index, last_log_term))), rest)) => Ok(
                (VoteRequestPayload { term, candidate_id, last_log_index, last_log_term }, rest),
            ),
        }
    }

    open spec fn fits(v: VoteRequestPayload) -> bool {
        true
    }

    open spec fn encodable(v: VoteRequestPayload) -> bool {
        true
    }

    proof fn round_trip(v: VoteRequestPayload, rest: Seq<u8>) {
        <VoteRequestFields as Wire>::round_trip(
            (v.term, (v.candidate_id, (v.last_log_index, v.last_log_term))),
            rest,
        );
    }

    fn is_encodable(&self) -> (r: bool) {
        true
    }

    fn encode(&self, out: &mut Vec<u8>) {
        (self.term, (self.candidate_id, (self.last_log_index, self.last_log_term))).encode(out);
    }

    fn decode(b: &[u8]) -> (r: Result<(VoteRequestPayload, &[u8]), String>) {
        match <VoteRequestFields as Wire>::decode(b) {
            Err(text) => Err(text),
            Ok(((term, (candidate_id, (last_log_index, last_log_term))), rest)) => Ok(
                (VoteRequestPayload { term, candidate_id, last_log_index, last_log_term }, rest),
            ),
        }
    }
}

impl Wire for VoteGrantPayload {
    open spec fn wire(v: VoteGrantPayload) -> Seq<u8> {
        <(u64, bool) as Wire>::wire((v.term, v.granted))
    }

    open spec fn parse(b: Seq<u8>) -> Result<(VoteGrantPayload, Seq<u8>), Seq<char>> {
        match <(u64, bool) as Wire>::parse(b) {
            Err(text) => Err(text),
            Ok(((term, granted), rest)) => Ok((VoteGrantPayload { term, granted }, rest)),
        }
    }

    open spec fn fits(v: VoteGrantPayload) -> bool {
        true
    }

    open spec fn encodable(v: VoteGrantPayload) -> bool {
        true
    }

    proof fn round_trip(v: VoteGrantPayload, rest: Seq<u8>) {
        <(u64, bool) as Wire>::round_trip((v.term, v.granted), rest);
    }

    fn is_encodable(&self) -> (r: bool) {
        true
    }

    fn encode(&self, out: &mut Vec<u8>) {
        (self.term, self.granted).encode(out);
    }

    fn decode(b: &[u8]) -> (r: Result<(VoteGrantPayload, &[u8]), String>) {
        match <(u64, bool) as Wire>::decode(b) {
            Err(text) => Err(text),
            Ok(((term, granted), rest)) => Ok((VoteGrantPayload { term, granted }, rest)),
        }
    }
}

/// What the frames between nodes hold, field by field in the order in which it
/// is sent.
pub proof fn payloads_layout(
    heartbeat: HeartbeatPayload,
    announce: Announce,
    leave: Leave,
    entry: GossipEntry,
    request: VoteRequestPayload,
    grant: VoteGrantPayload,
)
    ensures
        <HeartbeatPayload as Wire>::wire(heartbeat) == wire::varint_bytes(heartbeat.incarnation as nat)
            + wire::varint_bytes(heartbeat.epoch_ms as nat),
        <AnnouncePayload as Wire>::wire(announce) == wire::varint_bytes(announce.incarnation as nat)
            + <String as Wire>::wire(announce.hostname) + <SocketAddr as Wire>::wire(
            announce.control_addr,
        ) + <String as Wire>::wire(announce.version),
        <LeavePayload as Wire>::wire(leave) == wire::varint_bytes(leave.incarnation as nat)
            + <String as Wire>::wire(leave.reason),
        <GossipEntry as Wire>::wire(entry) == wire::varint_bytes(entry.node_id as nat) + wire::varint_bytes(
            entry.incarnation as nat,
        ) + <NodeState as Wire>::wire(entry.state) + wire::varint_bytes(entry.epoch_ms as nat),
        <VoteRequestPayload as Wire>::wire(request) == wire::varint_bytes(request.term as nat)
            + wire::varint_bytes(request.candidate_id as nat) + wire::varint_bytes(
            request.last_log_index as nat,
        ) + wire::varint_bytes(request.last_log_term as nat),
        <VoteGrantPayload as Wire>::wire(grant) == wire::varint_bytes(grant.term as nat) + seq![
            if grant.granted {
                1u8
            } else {
                0u8
            },
        ],
{
    wire::lemma_four(
        wire::varint_bytes(announce.incarnation as nat),
        <String as Wire>::wire(announce.hostname),
        <SocketAddr as Wire>::wire(announce.control_addr),
        <String as Wire>::wire(announce.version),
    );
    wire::lemma_four(
        wire::varint_bytes(entry.node_id as nat),
        wire::varint_bytes(entry.incarnation as nat),
        <NodeState as Wire>::wire(entry.state),
        wire::varint_bytes(entry.epoch_ms as nat),
    );
    wire::lemma_four(
        wire::varint_bytes(request.term as nat),
        wire::varint_bytes(request.candidate_id as nat),
        wire::varint_bytes(request.last_log_index as nat),
        wire::varint_bytes(request.last_log_term as nat),
    );
}

/// Gossip is sent as the list of its entries.
pub proof fn gossip_layout(a: Seq<GossipEntry>, e: GossipEntry, b: Seq<GossipEntry>)
    ensures
        <GossipPayload as Wire>::wire(seq![]) == seq![0u8],
        <GossipPayload as Wire>::wire(a + seq![e] + b) == wire::varint_bytes(a.len() + 1 + b.len())
            + wire::items_wire::<GossipEntry>(a) + <GossipEntry as Wire>::wire(e) + wire::items_wire::<
            GossipEntry,
        >(b),
{
    wire::list_layout::<GossipEntry>(a, e, b);
}

} // verus!
