//! The network daemon: the state that the node's interfaces and firewall are
//! to have.

use crate::addr::{IpAddr, Ipv4Addr};
use crate::control;
use crate::control::{
    read_request, unknown_tag_reply, ControlOp, ControlReply, Op, Reply, Request, Verdict,
};
use crate::text::same_text;
use crate::wire;
use crate::wire::Wire;
use vstd::prelude::*;

verus! {

/// Seconds between reconciliations, unless configured.
pub fn default_reconcile_secs() -> (r: u64)
    ensures
        r == 5,
{
    5
}

/// The settings of the daemon.
#[derive(Debug, Clone, Copy, PartialEq, Eq, Structural)]
pub struct NetopConfig {
    /// Seconds between reconciliations.
    pub reconcile_secs: u64,
}

impl Default for NetopConfig {
    fn default() -> (r: NetopConfig)
        ensures
            r.reconcile_secs == 5,
    {
        NetopConfig { reconcile_secs: default_reconcile_secs() }
    }
}

/// What an interface is.
#[derive(Debug, Clone)]
pub enum IfaceKind {
    Veth { peer: String },
    Bridge,
    Tun { tap: bool },
    Vxlan { vni: u32, remote: Ipv4Addr },
}

/// The mathematical form of an [`IfaceKind`].
#[verifier::ext_equal]
pub enum Kind {
    Veth { peer: Seq<char> },
    Bridge,
    Tun { tap: bool },
    Vxlan { vni: u32, remote: Ipv4Addr },
}

/// An interface.
#[derive(Debug, Clone)]
pub struct IfaceSpec {
    pub name: String,
    pub kind: IfaceKind,
    pub addresses: Vec<IpAddr>,
    pub up: bool,
}

/// The mathematical form of an [`IfaceSpec`].
#[verifier::ext_equal]
pub struct Iface {
    pub name: Seq<char>,
    pub kind: Kind,
    pub addresses: Seq<IpAddr>,
    pub up: bool,
}

/// A firewall rule.
#[derive(Debug, Clone)]
pub struct NftRule {
    /// The rule as nftables reads it.
    pub json: String,
}

/// What the node's network is to be.
#[derive(Debug, Clone)]
pub struct DesiredState {
    pub interfaces: Vec<IfaceSpec>,
    pub nft_rules: Vec<NftRule>,
}

/// The mathematical form of a [`DesiredState`]; a rule is its text.
#[verifier::ext_equal]
pub struct Desired {
    pub interfaces: Seq<Iface>,
    pub nft_rules: Seq<Seq<char>>,
}

impl DeepView for IfaceKind {
    type V = Kind;

    open spec fn deep_view(&self) -> Kind {
        match self {
            IfaceKind::Veth { peer } => Kind::Veth { peer: peer@ },
            IfaceKind::Bridge => Kind::Bridge,
            IfaceKind::Tun { tap } => Kind::Tun { tap: *tap },
            IfaceKind::Vxlan { vni, remote } => Kind::Vxlan { vni: *vni, remote: *remote },
        }
    }
}

impl DeepView for IfaceSpec {
    type V = Iface;

    open spec fn deep_view(&self) -> Iface {
        Iface {
            name: self.name@,
            kind: self.kind.deep_view(),
            addresses: self.addresses.deep_view(),
            up: self.up,
        }
    }
}

impl DeepView for NftRule {
    type V = Seq<char>;

    open spec fn deep_view(&self) -> Seq<char> {
        self.json@
    }
}

impl DeepView for DesiredState {
    type V = Desired;

    open spec fn deep_view(&self) -> Desired {
        Desired {
            interfaces: self.interfaces.deep_view(),
            nft_rules: self.nft_rules.deep_view(),
        }
    }
}

impl Default for DesiredState {
    fn default() -> (r: DesiredState)
        ensures
            r.deep_view() == (Desired { interfaces: seq![], nft_rules: seq![] }),
    {
        let r = DesiredState { interfaces: Vec::new(), nft_rules: Vec::new() };
        assert(r.deep_view() =~= (Desired { interfaces: seq![], nft_rules: seq![] }));
        r
    }
}

impl Wire for IfaceKind {
    open spec fn wire(v: Kind) -> Seq<u8> {
        match v {
            Kind::Veth { peer } => <(u32, String) as Wire>::wire((0, peer)),
            Kind::Bridge => <u32 as Wire>::wire(1),
            Kind::Tun { tap } => <(u32, bool) as Wire>::wire((2, tap)),
            Kind::Vxlan { vni, remote } => <(u32, (u32, Ipv4Addr)) as Wire>::wire(
                (3, (vni, remote)),
            ),
        }
    }

    open spec fn parse(b: Seq<u8>) -> Result<(Kind, Seq<u8>), Seq<char>> {
        match <u32 as Wire>::parse(b) {
            Err(text) => Err(text),
            Ok((i, rest)) => if i == 0 {
                match <String as Wire>::parse(rest) {
                    Err(text) => Err(text),
                    Ok((peer, end)) => Ok((Kind::Veth { peer }, end)),
                }
            } else if i == 1 {
                Ok((Kind::Bridge, rest))
            } else if i == 2 {
                match <bool as Wire>::parse(rest) {
                    Err(text) => Err(text),
                    Ok((tap, end)) => Ok((Kind::Tun { tap }, end)),
                }
            } else if i == 3 {
                match <(u32, Ipv4Addr) as Wire>::parse(rest) {
                    Err(text) => Err(text),
                    Ok(((vni, remote), end)) => Ok((Kind::Vxlan { vni, remote }, end)),
                }
            } else {
                Err(wire::variant_refusal(i, "variant index 0 <= i < 4"@))
            },
        }
    }

    open spec fn fits(v: Kind) -> bool {
        v matches Kind::Veth { peer } ==> <String as Wire>::fits(peer)
    }

    open spec fn encodable(v: Kind) -> bool {
        true
    }

    proof fn round_trip(v: Kind, rest: Seq<u8>) {
        match v {
            Kind::Veth { peer } => {
                <(u32, String) as Wire>::round_trip((0, peer), rest);
            },
            Kind::Bridge => {
                <u32 as Wire>::round_trip(1, rest);
            },
            Kind::Tun { tap } => {
                <(u32, bool) as Wire>::round_trip((2, tap), rest);
            },
            Kind::Vxlan { vni, remote } => {
                <(u32, (u32, Ipv4Addr)) as Wire>::round_trip((3, (vni, remote)), rest);
            },
        }
    }

    fn is_encodable(&self) -> (r: bool) {
        true
    }

    fn encode(&self, out: &mut Vec<u8>) {
        match self {
            IfaceKind::Veth { peer } => {
                0u32.encode(out);
                peer.encode(out);
            },
            IfaceKind::Bridge => {
                1u32.encode(out);
            },
            IfaceKind::Tun { tap } => {
                2u32.encode(out);
                tap.encode(out);
            },
            IfaceKind::Vxlan { vni, remote } => {
                3u32.encode(out);
                vni.encode(out);
                remote.encode(out);
            },
        }
        assert(out@ =~= old(out)@ + Self::wire(self.deep_view()));
    }

    fn decode(b: &[u8]) -> (r: Result<(IfaceKind, &[u8]), String>) {
        match <u32 as Wire>::decode(b) {
            Err(text) => Err(text),
            Ok((i, rest)) => if i == 0 {
                match <String as Wire>::decode(rest) {
                    Err(text) => Err(text),
                    Ok((peer, end)) => Ok((IfaceKind::Veth { peer }, end)),
                }
            } else if i == 1 {
                Ok((IfaceKind::Bridge, rest))
            } else if i == 2 {
                match <bool as Wire>::decode(rest) {
                    Err(text) => Err(text),
                    Ok((tap, end)) => Ok((IfaceKind::Tun { tap }, end)),
                }
            } else if i == 3 {
                match <(u32, Ipv4Addr) as Wire>::decode(rest) {
                    Err(text) => Err(text),
                    Ok(((vni, remote), end)) => Ok((IfaceKind::Vxlan { vni, remote }, end)),
                }
            } else {
                Err(wire::bincode_bad_variant(i, "variant index 0 <= i < 4"))
            },
        }
    }
}

type IfaceFields = (String, (IfaceKind, (Vec<IpAddr>, bool)));

impl Wire for IfaceSpec {
    open spec fn wire(v: Iface) -> Seq<u8> {
        <IfaceFields as Wire>::wire((v.name, (v.kind, (v.addresses, v.up))))
    }

    open spec fn parse(b: Seq<u8>) -> Result<(Iface, Seq<u8>), Seq<char>> {
        match <IfaceFields as Wire>::parse(b) {
            Err(text) => Err(text),
            Ok(((name, (kind, (addresses, up))), rest)) => Ok(
                (Iface { name, kind, addresses, up }, rest),
            ),
        }
    }

    open spec fn fits(v: Iface) -> bool {
        <IfaceFields as Wire>::fits((v.name, (v.kind, (v.addresses, v.up))))
    }

    open spec fn encodable(v: Iface) -> bool {
        true
    }

    proof fn round_trip(v: Iface, rest: Seq<u8>) {
        <IfaceFields as Wire>::round_trip((v.name, (v.kind, (v.addresses, v.up))), rest);
    }

    fn is_encodable(&self) -> (r: bool) {
        true
    }

    fn encode(&self, out: &mut Vec<u8>) {
        self.name.encode(out);
        self.kind.encode(out);
        self.addresses.encode(out);
        self.up.encode(out);
        assert(out@ =~= old(out)@ + Self::wire(self.deep_view()));
    }

    fn decode(b: &[u8]) -> (r: Result<(IfaceSpec, &[u8]), String>) {
        match <IfaceFields as Wire>::decode(b) {
            Err(text) => Err(text),
            Ok(((name, (kind, (addresses, up))), rest)) => Ok(
                (IfaceSpec { name, kind, addresses, up }, rest),
            ),
        }
    }
}

impl Wire for NftRule {
    open spec fn wire(v: Seq<char>) -> Seq<u8> {
        <String as Wire>::wire(v)
    }

    open spec fn parse(b: Seq<u8>) -> Result<(Seq<char>, Seq<u8>), Seq<char>> {
        <String as Wire>::parse(b)
    }

    open spec fn fits(v: Seq<char>) -> bool {
        <String as Wire>::fits(v)
    }

    open spec fn encodable(v: Seq<char>) -> bool {
        true
    }

    proof fn round_trip(v: Seq<char>, rest: Seq<u8>) {
        <String as Wire>::round_trip(v, rest);
    }

    fn is_encodable(&self) -> (r: bool) {
        true
    }

    fn encode(&self, out: &mut Vec<u8>) {
        self.json.encode(out);
    }

    fn decode(b: &[u8]) -> (r: Result<(NftRule, &[u8]), String>) {
        match <String as Wire>::decode(b) {
            Err(text) => Err(text),
            Ok((json, rest)) => Ok((NftRule { json }, rest)),
        }
    }
}

impl Wire for DesiredState {
    open spec fn wire(v: Desired) -> Seq<u8> {
        <(Vec<IfaceSpec>, Vec<NftRule>) as Wire>::wire((v.interfaces, v.nft_rules))
    }

    open spec fn parse(b: Seq<u8>) -> Result<(Desired, Seq<u8>), Seq<char>> {
        match <(Vec<IfaceSpec>, Vec<NftRule>) as Wire>::parse(b) {
            Err(text) => Err(text),
            Ok(((interfaces, nft_rules), rest)) => Ok((Desired { interfaces, nft_rules }, rest)),
        }
    }

    open spec fn fits(v: Desired) -> bool {
        <(Vec<IfaceSpec>, Vec<NftRule>) as Wire>::fits((v.interfaces, v.nft_rules))
    }

    open spec fn encodable(v: Desired) -> bool {
        true
    }

    proof fn round_trip(v: Desired, rest: Seq<u8>) {
        <(Vec<IfaceSpec>, Vec<NftRule>) as Wire>::round_trip((v.interfaces, v.nft_rules), rest);
    }

    fn is_encodable(&self) -> (r: bool) {
        true
    }

    fn encode(&self, out: &mut Vec<u8>) {
        self.interfaces.encode(out);
        self.nft_rules.encode(out);
        assert(out@ =~= old(out)@ + Self::wire(self.deep_view()));
    }

    fn decode(b: &[u8]) -> (r: Result<(DesiredState, &[u8]), String>) {
        match <(Vec<IfaceSpec>, Vec<NftRule>) as Wire>::decode(b) {
            Err(text) => Err(text),
            Ok(((interfaces, nft_rules), rest)) => Ok(
                (DesiredState { interfaces, nft_rules }, rest),
            ),
        }
    }
}

/// The desired state after a request, and the answer; no answer where the
/// daemon exits instead.
pub open spec fn after_netop_request(state: Desired, payload: Seq<u8>) -> (Desired, Option<Reply>) {
    match control::verdict(payload) {
        Verdict::Reply(reply) => (state, Some(reply)),
        Verdict::Exit => (state, None),
        Verdict::Custom { tag, payload } => if tag == "state.set"@ {
            match wire::front::<DesiredState>(payload) {
                Ok(new_state) => (new_state, Some(Reply::Done)),
                Err(message) => (state, Some(Reply::Error { message })),
            }
        } else {
            (state, Some(control::unknown_tag(tag)))
        },
    }
}

/// Carries out a request; gives no answer where the daemon is to exit.
pub fn netop_request(state: &mut DesiredState, payload: &[u8]) -> (r: Option<ControlReply>)
    ensures
        (final(state).deep_view(), r.deep_view()) == after_netop_request(
            old(state).deep_view(),
            payload@,
        ),
{
    match read_request(payload) {
        Request::Reply(reply) => Some(reply),
        Request::Exit => None,
        Request::Custom { tag, payload } => {
            if same_text(tag.as_str(), "state.set") {
                match wire::from_slice::<DesiredState>(payload.as_slice()) {
                    Ok(new_state) => {
                        *state = new_state;
                        Some(ControlReply::Done)
                    },
                    Err(message) => Some(ControlReply::Error { message }),
                }
            } else {
                Some(unknown_tag_reply(tag.as_str()))
            }
        },
    }
}

/// The request that sets the desired state.
pub open spec fn set_op(state: Desired) -> Op {
    Op::Custom { tag: "state.set"@, payload: DesiredState::wire(state) }
}

/// The state that was set is the state, whatever it was before.
pub proof fn state_is_set(before: Desired, state: Desired)
    requires
        DesiredState::fits(state),
        ControlOp::fits(set_op(state)),
    ensures
        after_netop_request(before, ControlOp::wire(set_op(state))) == (state, Some(Reply::Done)),
{
    control::custom_request_arrives("state.set"@, DesiredState::wire(state));
    wire::lemma_front_of_wire::<DesiredState>(state, seq![]);
}

/// A state that cannot be read is refused with the reason, and any other
/// command is refused as unknown; neither changes the state, nor does any
/// request that is not the daemon's own.
pub proof fn other_requests_change_nothing(
    state: Desired,
    tag: Seq<char>,
    inner: Seq<u8>,
    rest: Seq<u8>,
    unread: Seq<u8>,
)
    requires
        ControlOp::fits((Op::Custom { tag, payload: inner })),
    ensures
        tag == "state.set"@ ==> (wire::front::<DesiredState>(inner) matches Err(message)
            ==> after_netop_request(
            state,
            ControlOp::wire((Op::Custom { tag, payload: inner })),
        ) == (state, Some(Reply::Error { message }))),
        tag != "state.set"@ ==> after_netop_request(
            state,
            ControlOp::wire((Op::Custom { tag, payload: inner })),
        ) == (state, Some(Reply::Error { message: "unknown tag: "@ + tag })),
        after_netop_request(state, ControlOp::wire(Op::Ping) + rest) == (state, Some(Reply::Done)),
        after_netop_request(state, ControlOp::wire(Op::Shutdown) + rest) == (
            state,
            None::<Reply>,
        ),
        after_netop_request(state, ControlOp::wire(Op::GetNodes) + rest) == (
            state,
            Some(Reply::Error { message: "unsupported op"@ }),
        ),
        wire::front::<ControlOp>(unread) matches Err(message) ==> after_netop_request(
            state,
            unread,
        ) == (state, Some(Reply::Error { message })),
{
    control::custom_request_arrives(tag, inner);
    control::plain_requests(unread, rest);
}

/// The kinds of interface are numbered, with what belongs to them behind the
/// number; there are no others.
pub proof fn kinds_are_numbered(
    peer: Seq<char>,
    tap: bool,
    vni: u32,
    remote: Ipv4Addr,
    other: u32,
    rest: Seq<u8>,
)
    requires
        other > 3,
    ensures
        IfaceKind::wire(Kind::Veth { peer }) == seq![0u8] + <String as Wire>::wire(peer),
        IfaceKind::wire(Kind::Bridge) == seq![1u8],
        IfaceKind::wire(Kind::Tun { tap }) == seq![
            2u8,
            if tap {
                1u8
            } else {
                0u8
            },
        ],
        IfaceKind::wire(Kind::Vxlan { vni, remote }) == seq![3u8] + wire::varint_bytes(vni as nat)
            + remote.spec_octets(),
        IfaceKind::parse(<u32 as Wire>::wire(other) + rest) is Err,
{
    <u32 as Wire>::round_trip(other, rest);
    let n = wire::varint_bytes(vni as nat);
    assert(seq![3u8] + (n + remote.spec_octets()) =~= seq![3u8] + n + remote.spec_octets());
    assert(seq![2u8] + <bool as Wire>::wire(tap) =~= seq![
        2u8,
        if tap {
            1u8
        } else {
            0u8
        },
    ]);
}

/// An interface is sent as its name, its kind, its addresses and whether it is
/// up; a desired state as its interfaces and then its rules.
pub proof fn desired_state_layout(iface: Iface, state: Desired)
    ensures
        IfaceSpec::wire(iface) == <String as Wire>::wire(iface.name) + IfaceKind::wire(iface.kind)
            + <Vec<IpAddr> as Wire>::wire(iface.addresses) + seq![
            if iface.up {
                1u8
            } else {
                0u8
            },
        ],
        DesiredState::wire(state) == <Vec<IfaceSpec> as Wire>::wire(state.interfaces) + <Vec<
            String,
        > as Wire>::wire(state.nft_rules),
{
    wire::lemma_four(
        <String as Wire>::wire(iface.name),
        IfaceKind::wire(iface.kind),
        <Vec<IpAddr> as Wire>::wire(iface.addresses),
        <bool as Wire>::wire(iface.up),
    );
    lemma_rules_are_texts(state.nft_rules);
}

proof fn lemma_rules_are_texts(rules: Seq<Seq<char>>)
    ensures
        wire::items_wire::<NftRule>(rules) == wire::items_wire::<String>(rules),
    decreases rules.len(),
{
    if rules.len() > 0 {
        lemma_rules_are_texts(rules.drop_first());
    }
}

/// Bytes behind a desired state do not count.
pub proof fn bytes_behind_do_not_count(before: Desired, state: Desired, rest: Seq<u8>)
    requires
        DesiredState::fits(state),
        ControlOp::fits(set_op(state)),
        ControlOp::fits(
            (Op::Custom { tag: "state.set"@, payload: DesiredState::wire(state) + rest }),
        ),
    ensures
        after_netop_request(
            before,
            ControlOp::wire(
                (Op::Custom { tag: "state.set"@, payload: DesiredState::wire(state) + rest }),
            ),
        ) == after_netop_request(before, ControlOp::wire(set_op(state))),
{
    control::custom_request_arrives("state.set"@, DesiredState::wire(state));
    control::custom_request_arrives("state.set"@, DesiredState::wire(state) + rest);
    wire::lemma_front_of_wire::<DesiredState>(state, rest);
}

} // verus!
