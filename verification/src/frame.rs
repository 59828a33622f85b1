//! The discovery frame: a fixed header of four bytes, then an encoded payload.
//!
//! ```text
//! magic(1B) | type_seq(1B: high half = message type, low half = sequence) | node_id(2B BE) | payload
//! ```

use crate::octets;
use crate::octets::{from_be16, to_be};
use crate::text;
use crate::text::decimal_text;
use crate::wire;
use crate::wire::Wire;
use vstd::prelude::*;

verus! {

/// First byte of every discovery frame.
pub const FRAME_MAGIC: u8 = 0xCA;

/// UDP port of the discovery protocol.
pub const DISCOVERY_PORT: u16 = 7777;

/// IPv4 multicast group of the discovery protocol.
pub const MULTICAST_ADDR: &'static str = "224.0.133.7";

/// Longest frame that is sent, in bytes.
pub const MAX_FRAME: usize = 508;

/// What a discovery frame is about.
#[derive(Debug, Clone, Copy, PartialEq, Eq, Structural)]
pub enum MsgType {
    Heartbeat,
    Announce,
    Leave,
    Ack,
    Gossip,
    VoteRequest,
    VoteGrant,
}

impl MsgType {
    /// The number that stands for the type in a header.
    pub open spec fn spec_code(self) -> u8 {
        match self {
            MsgType::Heartbeat => 0,
            MsgType::Announce => 1,
            MsgType::Leave => 2,
            MsgType::Ack => 3,
            MsgType::Gossip => 4,
            MsgType::VoteRequest => 5,
            MsgType::VoteGrant => 6,
        }
    }

    /// The type that a number stands for.
    pub open spec fn of_code(v: u8) -> Option<MsgType> {
        match v {
            0 => Some(MsgType::Heartbeat),
            1 => Some(MsgType::Announce),
            2 => Some(MsgType::Leave),
            3 => Some(MsgType::Ack),
            4 => Some(MsgType::Gossip),
            5 => Some(MsgType::VoteRequest),
            6 => Some(MsgType::VoteGrant),
            _ => None,
        }
    }

    /// The number that stands for the type in a header.
    pub fn code(&self) -> (r: u8)
        ensures
            r == self.spec_code(),
    {
        match *self {
            MsgType::Heartbeat => 0,
            MsgType::Announce => 1,
            MsgType::Leave => 2,
            MsgType::Ack => 3,
            MsgType::Gossip => 4,
            MsgType::VoteRequest => 5,
            MsgType::VoteGrant => 6,
        }
    }

    /// The type that a number stands for.
    pub fn from_u8(v: u8) -> (r: Option<MsgType>)
        ensures
            r == MsgType::of_code(v),
    {
        match v {
            0 => Some(MsgType::Heartbeat),
            1 => Some(MsgType::Announce),
            2 => Some(MsgType::Leave),
            3 => Some(MsgType::Ack),
            4 => Some(MsgType::Gossip),
            5 => Some(MsgType::VoteRequest),
            6 => Some(MsgType::VoteGrant),
            _ => None,
        }
    }
}

/// The numbers of the message types are pairwise different and fit in the high
/// half of a byte.
pub proof fn msg_type_codes(t: MsgType)
    ensures
        MsgType::of_code(t.spec_code()) == Some(t),
        t.spec_code() < 16,
{
}

/// The header of a discovery frame.
#[derive(Debug, Clone, Copy)]
pub struct FrameHeader {
    pub magic: u8,
    /// Message type times sixteen, plus the sequence number.
    pub type_seq: u8,
    /// The sender, most significant byte first.
    pub node_id: [u8; 2],
}

/// The header bytes of a frame of the given type, sequence number and sender.
pub open spec fn header_bytes(t: MsgType, seq: u8, node_id: u16) -> Seq<u8> {
    seq![FRAME_MAGIC, (16 * t.spec_code() + seq % 16) as u8] + octets::be_bytes(node_id as nat, 2)
}

/// Whether `b` starts with a header.
pub open spec fn has_header(b: Seq<u8>) -> bool {
    b.len() >= 4 && b[0] == FRAME_MAGIC
}

/// The message type in a header, if its number stands for one.
pub open spec fn header_type(b: Seq<u8>) -> Option<MsgType> {
    MsgType::of_code(b[1] / 16)
}

/// The sequence number in a header.
pub open spec fn header_seq(b: Seq<u8>) -> u8 {
    b[1] % 16
}

/// The sender in a header.
pub open spec fn header_sender(b: Seq<u8>) -> u16 {
    octets::be_value(b.subrange(2, 4)) as u16
}

/// A header says what it was made of, whatever follows it.
pub proof fn header_round_trip(t: MsgType, seq: u8, node_id: u16, rest: Seq<u8>)
    ensures
        ({
            let b = header_bytes(t, seq, node_id) + rest;
            &&& has_header(b)
            &&& header_type(b) == Some(t)
            &&& header_seq(b) == seq % 16
            &&& header_sender(b) == node_id
            &&& b.skip(4) == rest
        }),
{
    octets::lemma_be_round_trip(node_id as nat, 2);
    octets::lemma_widths();
    let b = header_bytes(t, seq, node_id) + rest;
    assert(b.subrange(2, 4) =~= octets::be_bytes(node_id as nat, 2));
    assert(b.skip(4) =~= rest);
}

/// A header is four bytes: 0xCA, the number of the message type in the high
/// half of a byte with the sequence number in its low half, and the sender,
/// high byte first.
pub proof fn header_layout(t: MsgType, seq: u8, node_id: u16)
    ensures
        header_bytes(t, seq, node_id) == seq![
            0xCAu8,
            (16 * (match t {
                MsgType::Heartbeat => 0int,
                MsgType::Announce => 1,
                MsgType::Leave => 2,
                MsgType::Ack => 3,
                MsgType::Gossip => 4,
                MsgType::VoteRequest => 5,
                MsgType::VoteGrant => 6,
            }) + seq % 16) as u8,
            (node_id / 256) as u8,
            (node_id % 256) as u8,
        ],
{
    octets::number_of_two_bytes(node_id);
    assert(header_bytes(t, seq, node_id) =~= seq![
        0xCAu8,
        (16 * t.spec_code() + seq % 16) as u8,
        (node_id / 256) as u8,
        (node_id % 256) as u8,
    ]);
}

/// Whatever bytes come, they have a header exactly if there are four of them
/// and the first is 0xCA; and the header says what stands in its bytes.
pub proof fn header_is_read(b: Seq<u8>)
    requires
        b.len() >= 4,
    ensures
        has_header(b) <==> b[0] == 0xCA,
        header_sender(b) == 256 * b[2] + b[3],
        header_seq(b) == b[1] % 16,
        header_type(b) is None <==> b[1] >= 7 * 16,
        header_type(b) matches Some(t) ==> header_bytes(t, header_seq(b), header_sender(b))[1]
            == b[1],
{
    assert(b.subrange(2, 4) =~= seq![b[2], b[3]]);
    octets::two_bytes(b[2], b[3]);
}

/// A frame is the header and the payload, and is refused exactly if that is
/// more than 508 bytes.
pub proof fn frames_are_limited(header: Seq<u8>, payload: Seq<u8>)
    ensures
        match frame_of(header, payload) {
            Ok(sent) => sent == header + payload && header.len() + payload.len() <= 508,
            Err(text) => header.len() + payload.len() > 508 && text
                == "discovery frame too large: "@ + text::decimal(header.len() + payload.len())
                + " bytes"@,
        },
{
}

impl FrameHeader {
    /// The four bytes of the header.
    pub open spec fn spec_bytes(self) -> Seq<u8> {
        seq![self.magic, self.type_seq, self.node_id@[0], self.node_id@[1]]
    }

    pub fn new(msg_type: MsgType, seq: u8, node_id: u16) -> (r: FrameHeader)
        ensures
            r.spec_bytes() == header_bytes(msg_type, seq, node_id),
            r.magic == FRAME_MAGIC,
    {
        let t: u8 = msg_type.code();
        let digits = to_be(node_id as u128, 2);
        proof {
            octets::lemma_be_round_trip(node_id as nat, 2);
            assert((t << 4) | (seq & 0x0F) == 16 * t + seq % 16) by (bit_vector)
                requires
                    t < 16,
            ;
        }
        let r = FrameHeader {
            magic: FRAME_MAGIC,
            type_seq: (t << 4) | (seq & 0x0F),
            node_id: [digits[0], digits[1]],
        };
        assert(r.spec_bytes() =~= header_bytes(msg_type, seq, node_id));
        r
    }

    pub fn msg_type(&self) -> (r: Option<MsgType>)
        ensures
            r == header_type(self.spec_bytes()),
    {
        let v: u8 = self.type_seq;
        assert(v >> 4 == v / 16) by (bit_vector);
        MsgType::from_u8(v >> 4)
    }

    pub fn seq(&self) -> (r: u8)
        ensures
            r == header_seq(self.spec_bytes()),
    {
        let v: u8 = self.type_seq;
        assert(v & 0x0F == v % 16) by (bit_vector);
        v & 0x0F
    }

    pub fn node_id(&self) -> (r: u16)
        ensures
            r == header_sender(self.spec_bytes()),
    {
        assert(self.spec_bytes().subrange(2, 4) =~= seq![self.node_id@[0], self.node_id@[1]]);
        from_be16(self.node_id[0], self.node_id[1])
    }

    /// The four bytes of the header.
    pub fn to_bytes(&self) -> (r: [u8; 4])
        ensures
            r@ == self.spec_bytes(),
    {
        let r = [self.magic, self.type_seq, self.node_id[0], self.node_id[1]];
        assert(r@ =~= self.spec_bytes());
        r
    }

    /// The header that `b` starts with.
    pub fn from_bytes(b: &[u8]) -> (r: Option<FrameHeader>)
        ensures
            match r {
                Some(h) => has_header(b@) && h.spec_bytes() == b@.take(4),
                None => !has_header(b@),
            },
    {
        if b.len() < 4 || b[0] != FRAME_MAGIC {
            return None;
        }
        let h = FrameHeader { magic: b[0], type_seq: b[1], node_id: [b[2], b[3]] };
        assert(h.spec_bytes() =~= b@.take(4));
        Some(h)
    }
}

/// The frame for a header and a payload, or the text of the error where it
/// would be too long.
pub open spec fn frame_of(header: Seq<u8>, payload: Seq<u8>) -> Result<Seq<u8>, Seq<char>> {
    let all = header + payload;
    if all.len() > MAX_FRAME {
        Err("discovery frame too large: "@ + text::decimal(all.len()) + " bytes"@)
    } else {
        Ok(all)
    }
}

/// Puts a frame together, or gives the text of the error where the payload has
/// no encoding or the frame would be too long.
pub fn encode_frame<T: Wire>(header: FrameHeader, payload: &T) -> (r: Result<Vec<u8>, String>)
    ensures
        (match r {
            Ok(buf) => Ok::<Seq<u8>, Seq<char>>(buf@),
            Err(e) => Err(e@),
        }) == (if T::encodable(payload.deep_view()) {
            frame_of(header.spec_bytes(), T::wire(payload.deep_view()))
        } else {
            Err(wire::no_encoding())
        }),
{
    if !payload.is_encodable() {
        return Err(wire::no_encoding_text());
    }
    let mut buf: Vec<u8> = Vec::new();
    buf.extend_from_slice(header.to_bytes().as_slice());
    assert(buf@ =~= header.spec_bytes());
    payload.encode(&mut buf);
    if buf.len() > MAX_FRAME {
        let mut message = "discovery frame too large: ".to_owned();
        message.append(decimal_text(buf.len() as u128).as_str());
        message.append(" bytes");
        return Err(message);
    }
    Ok(buf)
}

/// The sequence number after `seq`; it stays below sixteen.
pub fn next_seq(seq: u8) -> (r: u8)
    ensures
        r == (seq + 1) % 16,
{
    let up: u8 = seq.wrapping_add(1);
    assert(up & 0x0F == up % 16) by (bit_vector);
    up & 0x0F
}

} // verus!
