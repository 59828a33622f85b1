//! The control protocol: one request and one reply per connection, each in an
//! envelope.
//!
//! ```text
//! marker(1B) | payload_len(2B BE) | payload
//! ```

use crate::node::{Node, NodeInfo};
use crate::octets;
use crate::octets::{from_be16, to_be};
use crate::text;
use crate::text::decimal_text;
use crate::wire;
use crate::wire::Wire;
use vstd::prelude::*;

verus! {

/// First byte of every control frame.
pub const CONTROL_FRAME_MARKER: u8 = 0x01;

/// Longest payload that a receiver accepts, in bytes.
pub const MAX_CONTROL_PAYLOAD: usize = 60 * 1024;

/// Directory of the control sockets.
pub const SOCKET_DIR: &'static str = "/var/run/hivebus";

/// A request.
#[derive(Debug, Clone)]
pub enum ControlOp {
    Ping,
    /// Asks for the whole membership table.
    GetNodes,
    /// Asks for the current master.
    GetMaster,
    /// Asks the node to step down as master.
    StepDown,
    /// Asks the daemon to exit.
    Shutdown,
    /// A request of the daemon's own.
    Custom { tag: String, payload: Vec<u8> },
}

/// The mathematical form of a [`ControlOp`].
#[verifier::ext_equal]
pub enum Op {
    Ping,
    GetNodes,
    GetMaster,
    StepDown,
    Shutdown,
    Custom { tag: Seq<char>, payload: Seq<u8> },
}

/// A reply.
#[derive(Debug, Clone)]
pub enum ControlReply {
    /// The request was carried out.
    Done,
    Error { message: String },
    Nodes(Vec<NodeInfo>),
    Master(Option<NodeInfo>),
    Data { tag: String, payload: Vec<u8> },
}

/// The mathematical form of a [`ControlReply`].
#[verifier::ext_equal]
pub enum Reply {
    Done,
    Error { message: Seq<char> },
    Nodes(Seq<Node>),
    Master(Option<Node>),
    Data { tag: Seq<char>, payload: Seq<u8> },
}

impl DeepView for ControlOp {
    type V = Op;

    open spec fn deep_view(&self) -> Op {
        match self {
            ControlOp::Ping => Op::Ping,
            ControlOp::GetNodes => Op::GetNodes,
            ControlOp::GetMaster => Op::GetMaster,
            ControlOp::StepDown => Op::StepDown,
            ControlOp::Shutdown => Op::Shutdown,
            ControlOp::Custom { tag, payload } => Op::Custom { tag: tag@, payload: payload@ },
        }
    }
}

impl DeepView for ControlReply {
    type V = Reply;

    open spec fn deep_view(&self) -> Reply {
        match self {
            ControlReply::Done => Reply::Done,
            ControlReply::Error { message } => Reply::Error { message: message@ },
            ControlReply::Nodes(nodes) => Reply::Nodes(nodes.deep_view()),
            ControlReply::Master(node) => Reply::Master(node.deep_view()),
            ControlReply::Data { tag, payload } => Reply::Data { tag: tag@, payload: payload@ },
        }
    }
}

impl Wire for ControlOp {
    open spec fn wire(v: Op) -> Seq<u8> {
        match v {
            Op::Ping => <u32 as Wire>::wire(0),
            Op::GetNodes => <u32 as Wire>::wire(1),
            Op::GetMaster => <u32 as Wire>::wire(2),
            Op::StepDown => <u32 as Wire>::wire(3),
            Op::Shutdown => <u32 as Wire>::wire(4),
            Op::Custom { tag, payload } => <(u32, (String, Vec<u8>)) as Wire>::wire(
                (5, (tag, payload)),
            ),
        }
    }

    open spec fn parse(b: Seq<u8>) -> Result<(Op, Seq<u8>), Seq<char>> {
        match <u32 as Wire>::parse(b) {
            Err(text) => Err(text),
            Ok((i, rest)) => if i == 0 {
                Ok((Op::Ping, rest))
            } else if i == 1 {
                Ok((Op::GetNodes, rest))
            } else if i == 2 {
                Ok((Op::GetMaster, rest))
            } else if i == 3 {
                Ok((Op::StepDown, rest))
            } else if i == 4 {
                Ok((Op::Shutdown, rest))
            } else if i == 5 {
                match <(String, Vec<u8>) as Wire>::parse(rest) {
                    Err(text) => Err(text),
                    Ok(((tag, payload), end)) => Ok((Op::Custom { tag, payload }, end)),
                }
            } else {
                Err(wire::variant_refusal(i, "variant index 0 <= i < 6"@))
            },
        }
    }

    open spec fn fits(v: Op) -> bool {
        v matches Op::Custom { tag, payload } ==> <(String, Vec<u8>) as Wire>::fits((tag, payload))
    }

    open spec fn encodable(v: Op) -> bool {
        true
    }

    proof fn round_trip(v: Op, rest: Seq<u8>) {
        match v {
            Op::Custom { tag, payload } => {
                <(u32, (String, Vec<u8>)) as Wire>::round_trip((5, (tag, payload)), rest);
            },
            Op::Ping => {
                <u32 as Wire>::round_trip(0, rest);
            },
            Op::GetNodes => {
                <u32 as Wire>::round_trip(1, rest);
            },
            Op::GetMaster => {
                <u32 as Wire>::round_trip(2, rest);
            },
            Op::StepDown => {
                <u32 as Wire>::round_trip(3, rest);
            },
            Op::Shutdown => {
                <u32 as Wire>::round_trip(4, rest);
            },
        }
    }

    fn is_encodable(&self) -> (r: bool) {
        true
    }

    fn encode(&self, out: &mut Vec<u8>) {
        match self {
            ControlOp::Ping => 0u32.encode(out),
            ControlOp::GetNodes => 1u32.encode(out),
            ControlOp::GetMaster => 2u32.encode(out),
            ControlOp::StepDown => 3u32.encode(out),
            ControlOp::Shutdown => 4u32.encode(out),
            ControlOp::Custom { tag, payload } => {
                5u32.encode(out);
                tag.encode(out);
                payload.encode(out);
                proof {
                    wire::lemma_bytes_deep(*payload);
                }
                assert(out@ =~= old(out)@ + Self::wire(self.deep_view()));
            },
        }
    }

    fn decode(b: &[u8]) -> (r: Result<(ControlOp, &[u8]), String>) {
        match <u32 as Wire>::decode(b) {
            Err(text) => Err(text),
            Ok((i, rest)) => if i == 0 {
                Ok((ControlOp::Ping, rest))
            } else if i == 1 {
                Ok((ControlOp::GetNodes, rest))
            } else if i == 2 {
                Ok((ControlOp::GetMaster, rest))
            } else if i == 3 {
                Ok((ControlOp::StepDown, rest))
            } else if i == 4 {
                Ok((ControlOp::Shutdown, rest))
            } else if i == 5 {
                match <(String, Vec<u8>) as Wire>::decode(rest) {
                    Err(text) => Err(text),
                    Ok(((tag, payload), end)) => {
                        proof {
                            wire::lemma_bytes_deep(payload);
                        }
                        Ok((ControlOp::Custom { tag, payload }, end))
                    },
                }
            } else {
                Err(wire::bincode_bad_variant(i, "variant index 0 <= i < 6"))
            },
        }
    }
}

impl Wire for ControlReply {
    open spec fn wire(v: Reply) -> Seq<u8> {
        match v {
            Reply::Done => <u32 as Wire>::wire(0),
            Reply::Error { message } => <(u32, String) as Wire>::wire((1, message)),
            Reply::Nodes(nodes) => <(u32, Vec<NodeInfo>) as Wire>::wire((2, nodes)),
            Reply::Master(node) => <(u32, Option<NodeInfo>) as Wire>::wire((3, node)),
            Reply::Data { tag, payload } => <(u32, (String, Vec<u8>)) as Wire>::wire(
                (4, (tag, payload)),
            ),
        }
    }

    open spec fn parse(b: Seq<u8>) -> Result<(Reply, Seq<u8>), Seq<char>> {
        match <u32 as Wire>::parse(b) {
            Err(text) => Err(text),
            Ok((i, rest)) => if i == 0 {
                Ok((Reply::Done, rest))
            } else if i == 1 {
                match <String as Wire>::parse(rest) {
                    Err(text) => Err(text),
                    Ok((message, end)) => Ok((Reply::Error { message }, end)),
                }
            } else if i == 2 {
                match <Vec<NodeInfo> as Wire>::parse(rest) {
                    Err(text) => Err(text),
                    Ok((nodes, end)) => Ok((Reply::Nodes(nodes), end)),
                }
            } else if i == 3 {
                match <Option<NodeInfo> as Wire>::parse(rest) {
                    Err(text) => Err(text),
                    Ok((node, end)) => Ok((Reply::Master(node), end)),
                }
            } else if i == 4 {
                match <(String, Vec<u8>) as Wire>::parse(rest) {
                    Err(text) => Err(text),
                    Ok(((tag, payload), end)) => Ok((Reply::Data { tag, payload }, end)),
                }
            } else {
                Err(wire::variant_refusal(i, "variant index 0 <= i < 5"@))
            },
        }
    }

    open spec fn fits(v: Reply) -> bool {
        match v {
            Reply::Done => true,
            Reply::Error { message } => <String as Wire>::fits(message),
            Reply::Nodes(nodes) => <Vec<NodeInfo> as Wire>::fits(nodes),
            Reply::Master(node) => <Option<NodeInfo> as Wire>::fits(node),
            Reply::Data { tag, payload } => <(String, Vec<u8>) as Wire>::fits((tag, payload)),
        }
    }

    open spec fn encodable(v: Reply) -> bool {
        match v {
            Reply::Nodes(nodes) => <Vec<NodeInfo> as Wire>::encodable(nodes),
            Reply::Master(node) => <Option<NodeInfo> as Wire>::encodable(node),
            _ => true,
        }
    }

    proof fn round_trip(v: Reply, rest: Seq<u8>) {
        match v {
            Reply::Done => {
                <u32 as Wire>::round_trip(0, rest);
            },
            Reply::Error { message } => {
                <(u32, String) as Wire>::round_trip((1, message), rest);
            },
            Reply::Nodes(nodes) => {
                <(u32, Vec<NodeInfo>) as Wire>::round_trip((2, nodes), rest);
            },
            Reply::Master(node) => {
                <(u32, Option<NodeInfo>) as Wire>::round_trip((3, node), rest);
            },
            Reply::Data { tag, payload } => {
                <(u32, (String, Vec<u8>)) as Wire>::round_trip((4, (tag, payload)), rest);
            },
        }
    }

    fn is_encodable(&self) -> (r: bool) {
        match self {
            ControlReply::Nodes(nodes) => nodes.is_encodable(),
            ControlReply::Master(node) => node.is_encodable(),
            _ => true,
        }
    }

    fn encode(&self, out: &mut Vec<u8>) {
        match self {
            ControlReply::Done => {
                0u32.encode(out);
            },
            ControlReply::Error { message } => {
                1u32.encode(out);
                message.encode(out);
            },
            ControlReply::Nodes(nodes) => {
                2u32.encode(out);
                nodes.encode(out);
            },
            ControlReply::Master(node) => {
                3u32.encode(out);
                node.encode(out);
            },
            ControlReply::Data { tag, payload } => {
                4u32.encode(out);
                tag.encode(out);
                payload.encode(out);
                proof {
                    wire::lemma_bytes_deep(*payload);
                }
            },
        }
        assert(out@ =~= old(out)@ + Self::wire(self.deep_view()));
    }

    fn decode(b: &[u8]) -> (r: Result<(ControlReply, &[u8]), String>) {
        match <u32 as Wire>::decode(b) {
            Err(text) => Err(text),
            Ok((i, rest)) => if i == 0 {
                Ok((ControlReply::Done, rest))
            } else if i == 1 {
                match <String as Wire>::decode(rest) {
                    Err(text) => Err(text),
                    Ok((message, end)) => Ok((ControlReply::Error { message }, end)),
                }
            } else if i == 2 {
                match <Vec<NodeInfo> as Wire>::decode(rest) {
                    Err(text) => Err(text),
                    Ok((nodes, end)) => Ok((ControlReply::Nodes(nodes), end)),
                }
            } else if i == 3 {
                match <Option<NodeInfo> as Wire>::decode(rest) {
                    Err(text) => Err(text),
                    Ok((node, end)) => Ok((ControlReply::Master(node), end)),
                }
            } else if i == 4 {
                match <(String, Vec<u8>) as Wire>::decode(rest) {
                    Err(text) => Err(text),
                    Ok(((tag, payload), end)) => {
                        proof {
                            wire::lemma_bytes_deep(payload);
                        }
                        Ok((ControlReply::Data { tag, payload }, end))
                    },
                }
            } else {
                Err(wire::bincode_bad_variant(i, "variant index 0 <= i < 5"))
            },
        }
    }
}

// ---------------------------------------------------------------------------
// The envelope
// ---------------------------------------------------------------------------

/// The envelope around a payload.
pub open spec fn envelope(payload: Seq<u8>) -> Seq<u8> {
    seq![CONTROL_FRAME_MARKER] + octets::be_bytes(payload.len(), 2) + payload
}

/// Why the three bytes in front of a payload are refused.
#[derive(Debug, Clone, Copy, PartialEq, Eq, Structural)]
pub enum EnvelopeError {
    /// The first byte is not the marker.
    Marker(u8),
    /// The announced length is over the limit.
    TooLong(usize),
}

/// What the three bytes in front of a payload say: its length, or why they are
/// refused.
pub open spec fn envelope_len(header: Seq<u8>) -> Result<nat, EnvelopeError> {
    let len = octets::be_value(header.subrange(1, 3));
    if header[0] != CONTROL_FRAME_MARKER {
        Err(EnvelopeError::Marker(header[0]))
    } else if len > MAX_CONTROL_PAYLOAD {
        Err(EnvelopeError::TooLong(len as usize))
    } else {
        Ok(len)
    }
}

/// A message in its envelope, or the text of the error where it has no
/// encoding. The length field holds payloads of up to 65535 bytes.
pub fn encode_control<T: Wire>(msg: &T) -> (r: Result<Vec<u8>, String>)
    requires
        T::encodable(msg.deep_view()) ==> T::wire(msg.deep_view()).len() <= 0xffff,
    ensures
        match r {
            Ok(out) => T::encodable(msg.deep_view()) && out@ == envelope(
                T::wire(msg.deep_view()),
            ),
            Err(text) => !T::encodable(msg.deep_view()) && text@ == wire::no_encoding(),
        },
{
    if !msg.is_encodable() {
        return Err(wire::no_encoding_text());
    }
    let payload = wire::to_vec(msg);
    Ok(envelop(payload))
}

/// A message in its envelope, or the text of the error where it has no
/// encoding; nothing where the length field cannot hold its length.
pub fn try_encode_control<T: Wire>(msg: &T) -> (r: Option<Result<Vec<u8>, String>>)
    ensures
        match r {
            Some(Ok(out)) => T::encodable(msg.deep_view()) && T::wire(msg.deep_view()).len()
                <= 0xffff && out@ == envelope(T::wire(msg.deep_view())),
            Some(Err(text)) => !T::encodable(msg.deep_view()) && text@ == wire::no_encoding(),
            None => T::encodable(msg.deep_view()) && T::wire(msg.deep_view()).len() > 0xffff,
        },
{
    if !msg.is_encodable() {
        return Some(Err(wire::no_encoding_text()));
    }
    let payload = wire::to_vec(msg);
    if payload.len() > 0xffff {
        None
    } else {
        Some(Ok(envelop(payload)))
    }
}

fn envelop(payload: Vec<u8>) -> (r: Vec<u8>)
    requires
        payload@.len() <= 0xffff,
    ensures
        r@ == envelope(payload@),
{
    let mut payload = payload;
    let mut out: Vec<u8> = Vec::new();
    out.push(CONTROL_FRAME_MARKER);
    let mut len = to_be(payload.len() as u128, 2);
    out.append(&mut len);
    let ghost body = payload@;
    out.append(&mut payload);
    assert(out@ =~= envelope(body));
    out
}

/// Reads a payload. What follows the message is ignored.
pub fn decode_control<T: Wire>(bytes: &[u8]) -> (r: Result<T, String>)
    ensures
        match r {
            Ok(v) => wire::front::<T>(bytes@) == Ok::<T::V, Seq<char>>(v.deep_view()),
            Err(text) => wire::front::<T>(bytes@) == Err::<T::V, Seq<char>>(text@),
        },
{
    wire::from_slice(bytes)
}

/// How many bytes of payload follow the three bytes of an envelope.
pub fn payload_len(header: [u8; 3]) -> (r: Result<usize, EnvelopeError>)
    ensures
        match r {
            Ok(len) => envelope_len(header@) == Ok::<nat, EnvelopeError>(len as nat),
            Err(e) => envelope_len(header@) == Err::<nat, EnvelopeError>(e),
        },
{
    assert(header@.subrange(1, 3) =~= seq![header@[1], header@[2]]);
    let len: usize = from_be16(header[1], header[2]) as usize;
    if header[0] != CONTROL_FRAME_MARKER {
        Err(EnvelopeError::Marker(header[0]))
    } else if len > MAX_CONTROL_PAYLOAD {
        Err(EnvelopeError::TooLong(len))
    } else {
        Ok(len)
    }
}

impl EnvelopeError {
    /// The text of the error.
    pub open spec fn spec_message(self) -> Seq<char> {
        match self {
            EnvelopeError::Marker(marker) => "invalid control frame marker: "@ + text::decimal(
                marker as nat,
            ),
            EnvelopeError::TooLong(len) => "control reply too large: "@ + text::decimal(len as nat)
                + " bytes"@,
        }
    }

    /// The text of the error.
    pub fn message(&self) -> (r: String)
        ensures
            r@ == self.spec_message(),
    {
        match *self {
            EnvelopeError::Marker(marker) => {
                let mut s = "invalid control frame marker: ".to_owned();
                s.append(decimal_text(marker as u128).as_str());
                s
            },
            EnvelopeError::TooLong(len) => {
                let mut s = "control reply too large: ".to_owned();
                s.append(decimal_text(len as u128).as_str());
                s.append(" bytes");
                s
            },
        }
    }
}

/// A message that was put in an envelope comes out of it: the receiver takes
/// the header, learns how many bytes follow, and reads the message from them.
/// (A payload over the receiver's limit is refused instead.)
pub proof fn envelope_round_trip<T: Wire>(v: T::V)
    requires
        T::fits(v),
        T::wire(v).len() <= 0xffff,
    ensures
        ({
            let sent = envelope(T::wire(v));
            let len = envelope_len(sent.take(3));
            &&& T::wire(v).len() <= MAX_CONTROL_PAYLOAD ==> len == Ok::<nat, EnvelopeError>(
                T::wire(v).len(),
            )
            &&& T::wire(v).len() > MAX_CONTROL_PAYLOAD ==> len == Err::<nat, EnvelopeError>(
                EnvelopeError::TooLong(T::wire(v).len() as usize),
            )
            &&& sent.len() == 3 + T::wire(v).len()
            &&& wire::front::<T>(sent.skip(3)) == Ok::<T::V, Seq<char>>(v)
        }),
{
    let payload = T::wire(v);
    let sent = envelope(payload);
    octets::lemma_be_round_trip(payload.len(), 2);
    octets::lemma_widths();
    assert(sent.take(3).subrange(1, 3) =~= octets::be_bytes(payload.len(), 2));
    assert(sent.skip(3) =~= payload);
    wire::lemma_front_of_wire::<T>(v, seq![]);
}

// ---------------------------------------------------------------------------
// What every daemon does with a request
// ---------------------------------------------------------------------------

/// What a daemon without cluster queries does with a request.
#[derive(Debug)]
pub enum Request {
    /// Answer this.
    Reply(ControlReply),
    /// Exit without an answer.
    Exit,
    /// Look at the tag.
    Custom { tag: String, payload: Vec<u8> },
}

/// The mathematical form of a [`Request`].
#[verifier::ext_equal]
pub enum Verdict {
    Reply(Reply),
    Exit,
    Custom { tag: Seq<char>, payload: Seq<u8> },
}

impl DeepView for Request {
    type V = Verdict;

    open spec fn deep_view(&self) -> Verdict {
        match self {
            Request::Reply(reply) => Verdict::Reply(reply.deep_view()),
            Request::Exit => Verdict::Exit,
            Request::Custom { tag, payload } => Verdict::Custom { tag: tag@, payload: payload@ },
        }
    }
}

/// What a daemon without cluster queries does with the payload of a request.
pub open spec fn verdict(payload: Seq<u8>) -> Verdict {
    match wire::front::<ControlOp>(payload) {
        Err(message) => Verdict::Reply(Reply::Error { message }),
        Ok(Op::Ping) => Verdict::Reply(Reply::Done),
        Ok(Op::Shutdown) => Verdict::Exit,
        Ok(Op::Custom { tag, payload }) => Verdict::Custom { tag, payload },
        Ok(_) => Verdict::Reply(Reply::Error { message: "unsupported op"@ }),
    }
}

/// Decides what to do with the payload of a request.
pub fn read_request(payload: &[u8]) -> (r: Request)
    ensures
        r.deep_view() == verdict(payload@),
{
    match decode_control::<ControlOp>(payload) {
        Err(message) => Request::Reply(ControlReply::Error { message }),
        Ok(ControlOp::Ping) => Request::Reply(ControlReply::Done),
        Ok(ControlOp::Shutdown) => Request::Exit,
        Ok(ControlOp::Custom { tag, payload }) => Request::Custom { tag, payload },
        Ok(_) => Request::Reply(ControlReply::Error { message: "unsupported op".to_owned() }),
    }
}

/// A request of a daemon's own reaches it as it was sent.
pub proof fn custom_request_arrives(tag: Seq<char>, payload: Seq<u8>)
    requires
        ControlOp::fits((Op::Custom { tag, payload })),
    ensures
        verdict(ControlOp::wire((Op::Custom { tag, payload }))) == (Verdict::Custom {
            tag,
            payload,
        }),
{
    wire::lemma_front_of_wire::<ControlOp>(Op::Custom { tag, payload }, seq![]);
}

/// The requests that are not a daemon's own: it says that it is there, exits
/// without an answer, refuses what only the discovery daemon answers, and
/// answers what it cannot read with the reason.
pub proof fn plain_requests(payload: Seq<u8>, rest: Seq<u8>)
    ensures
        verdict(ControlOp::wire(Op::Ping) + rest) == Verdict::Reply(Reply::Done),
        verdict(ControlOp::wire(Op::Shutdown) + rest) == Verdict::Exit,
        verdict(ControlOp::wire(Op::GetNodes) + rest) == Verdict::Reply(
            Reply::Error { message: "unsupported op"@ },
        ),
        verdict(ControlOp::wire(Op::GetMaster) + rest) == Verdict::Reply(
            Reply::Error { message: "unsupported op"@ },
        ),
        verdict(ControlOp::wire(Op::StepDown) + rest) == Verdict::Reply(
            Reply::Error { message: "unsupported op"@ },
        ),
        wire::front::<ControlOp>(payload) matches Err(message) ==> verdict(payload)
            == Verdict::Reply(Reply::Error { message }),
{
    wire::lemma_front_of_wire::<ControlOp>(Op::Ping, rest);
    wire::lemma_front_of_wire::<ControlOp>(Op::Shutdown, rest);
    wire::lemma_front_of_wire::<ControlOp>(Op::GetNodes, rest);
    wire::lemma_front_of_wire::<ControlOp>(Op::GetMaster, rest);
    wire::lemma_front_of_wire::<ControlOp>(Op::StepDown, rest);
}

/// An envelope is the marker 1, the length in two bytes, the high one first,
/// and the payload. One with another marker is refused for it, and else one of
/// more than 61440 bytes for its length.
pub proof fn envelope_layout(payload: Seq<u8>, header: Seq<u8>)
    requires
        payload.len() <= 0xffff,
        header.len() == 3,
    ensures
        envelope(payload) == seq![
            1u8,
            (payload.len() / 256) as u8,
            (payload.len() % 256) as u8,
        ] + payload,
        envelope_len(header) == (if header[0] != 1 {
            Err::<nat, EnvelopeError>(EnvelopeError::Marker(header[0]))
        } else if 256 * header[1] + header[2] > 61440 {
            Err(EnvelopeError::TooLong((256 * header[1] + header[2]) as usize))
        } else {
            Ok((256 * header[1] + header[2]) as nat)
        }),
{
    octets::number_of_two_bytes(payload.len() as u16);
    assert(envelope(payload) =~= seq![
        1u8,
        (payload.len() / 256) as u8,
        (payload.len() % 256) as u8,
    ] + payload);
    assert(header.subrange(1, 3) =~= seq![header[1], header[2]]);
    octets::two_bytes(header[1], header[2]);
}

/// The answer to a tag that a daemon does not know.
pub open spec fn unknown_tag(tag: Seq<char>) -> Reply {
    Reply::Error { message: "unknown tag: "@ + tag }
}

/// Answers a tag that a daemon does not know.
pub fn unknown_tag_reply(tag: &str) -> (r: ControlReply)
    ensures
        r.deep_view() == unknown_tag(tag@),
{
    let mut message = "unknown tag: ".to_owned();
    message.append(tag);
    ControlReply::Error { message }
}

/// The requests and replies are numbered, with what they hold behind the number.
pub proof fn requests_and_replies_layout(
    tag: Seq<char>,
    payload: Seq<u8>,
    nodes: Seq<Node>,
    master: Option<Node>,
)
    ensures
        ControlOp::wire(Op::Ping) == seq![0u8],
        ControlOp::wire(Op::GetNodes) == seq![1u8],
        ControlOp::wire(Op::GetMaster) == seq![2u8],
        ControlOp::wire(Op::StepDown) == seq![3u8],
        ControlOp::wire(Op::Shutdown) == seq![4u8],
        ControlOp::wire(Op::Custom { tag, payload }) == seq![5u8] + <String as Wire>::wire(tag)
            + wire::varint_bytes(payload.len()) + payload,
        ControlReply::wire(Reply::Done) == seq![0u8],
        ControlReply::wire(Reply::Error { message: tag }) == seq![1u8] + <String as Wire>::wire(tag),
        ControlReply::wire(Reply::Nodes(nodes)) == seq![2u8] + <Vec<NodeInfo> as Wire>::wire(nodes),
        ControlReply::wire(Reply::Master(master)) == seq![3u8] + <Option<
            NodeInfo,
        > as Wire>::wire(master),
        ControlReply::wire(Reply::Data { tag, payload }) == seq![4u8] + <String as Wire>::wire(tag)
            + wire::varint_bytes(payload.len()) + payload,
{
    wire::bytes_layout(payload);
    let t = <String as Wire>::wire(tag);
    let n = wire::varint_bytes(payload.len());
    wire::lemma_four(seq![5u8], t, n, payload);
    wire::lemma_four(seq![4u8], t, n, payload);
}

/// There are no other requests and replies.
pub proof fn other_numbers_are_refused(number: u32, rest: Seq<u8>)
    ensures
        number > 5 ==> ControlOp::parse(<u32 as Wire>::wire(number) + rest) is Err,
        number > 4 ==> ControlReply::parse(<u32 as Wire>::wire(number) + rest) is Err,
{
    <u32 as Wire>::round_trip(number, rest);
}

/// The wording of the errors of an envelope.
pub proof fn envelope_errors_are_worded(marker: u8, len: usize)
    ensures
        EnvelopeError::Marker(marker).spec_message() == "invalid control frame marker: "@
            + text::decimal(marker as nat),
        EnvelopeError::TooLong(len).spec_message() == "control reply too large: "@ + text::decimal(
            len as nat,
        ) + " bytes"@,
{
}

/// Bytes behind a request do not count.
pub proof fn bytes_behind_do_not_count(op: Op, rest: Seq<u8>)
    requires
        ControlOp::fits(op),
    ensures
        verdict(ControlOp::wire(op) + rest) == verdict(ControlOp::wire(op)),
{
    wire::lemma_front_of_wire::<ControlOp>(op, rest);
}

} // verus!
