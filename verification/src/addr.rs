//! Network addresses, as plain numbers.

use crate::octets;
use crate::octets::{from_be, to_be};
use crate::wire;
use crate::wire::Wire;
use vstd::prelude::*;

verus! {

/// An IPv4 address; `bits` is its four octets read as one big-endian number.
#[derive(Debug, Clone, Copy, PartialEq, Eq, Structural)]
pub struct Ipv4Addr {
    pub bits: u32,
}

/// An IPv6 address; `bits` is its sixteen octets read as one big-endian number.
#[derive(Debug, Clone, Copy, PartialEq, Eq, Structural)]
pub struct Ipv6Addr {
    pub bits: u128,
}

/// An IP address of either version.
#[derive(Debug, Clone, Copy, PartialEq, Eq, Structural)]
pub enum IpAddr {
    V4(Ipv4Addr),
    V6(Ipv6Addr),
}

/// An IP address and a port.
#[derive(Debug, Clone, Copy, PartialEq, Eq, Structural)]
pub struct SocketAddr {
    pub ip: IpAddr,
    pub port: u16,
}

impl DeepView for Ipv4Addr {
    type V = Ipv4Addr;

    open spec fn deep_view(&self) -> Ipv4Addr {
        *self
    }
}

impl DeepView for Ipv6Addr {
    type V = Ipv6Addr;

    open spec fn deep_view(&self) -> Ipv6Addr {
        *self
    }
}

impl DeepView for IpAddr {
    type V = IpAddr;

    open spec fn deep_view(&self) -> IpAddr {
        *self
    }
}

impl DeepView for SocketAddr {
    type V = SocketAddr;

    open spec fn deep_view(&self) -> SocketAddr {
        *self
    }
}

impl Ipv4Addr {
    /// The four octets.
    pub open spec fn spec_octets(self) -> Seq<u8> {
        octets::be_bytes(self.bits as nat, 4)
    }

    /// The address made of four octets.
    pub fn new(a: u8, b: u8, c: u8, d: u8) -> (r: Ipv4Addr)
        ensures
            r.spec_octets() == seq![a, b, c, d],
            r.bits == octets::be_value(seq![a, b, c, d]),
    {
        let all: [u8; 4] = [a, b, c, d];
        assert(all@ =~= seq![a, b, c, d]);
        proof {
            octets::lemma_be_digits(all@);
            octets::lemma_widths();
        }
        Ipv4Addr { bits: from_be(all.as_slice()) as u32 }
    }

    /// The four octets.
    pub fn octets(&self) -> (r: Vec<u8>)
        ensures
            r@ == self.spec_octets(),
            r@.len() == 4,
    {
        proof {
            octets::lemma_be_round_trip(self.bits as nat, 4);
        }
        to_be(self.bits as u128, 4)
    }
}

impl Wire for Ipv4Addr {
    open spec fn wire(v: Ipv4Addr) -> Seq<u8> {
        v.spec_octets()
    }

    open spec fn parse(b: Seq<u8>) -> Result<(Ipv4Addr, Seq<u8>), Seq<char>> {
        match wire::octets_parse(b, 4) {
            Ok((s, rest)) => Ok((Ipv4Addr { bits: octets::be_value(s) as u32 }, rest)),
            Err(text) => Err(text),
        }
    }

    open spec fn fits(v: Ipv4Addr) -> bool {
        true
    }

    open spec fn encodable(v: Ipv4Addr) -> bool {
        true
    }

    proof fn round_trip(v: Ipv4Addr, rest: Seq<u8>) {
        octets::lemma_be_round_trip(v.bits as nat, 4);
        octets::lemma_widths();
        <[u8; 4] as Wire>::round_trip(v.spec_octets(), rest);
    }

    fn is_encodable(&self) -> (r: bool) {
        true
    }

    fn encode(&self, out: &mut Vec<u8>) {
        let mut bytes = self.octets();
        out.append(&mut bytes);
    }

    fn decode(b: &[u8]) -> (r: Result<(Ipv4Addr, &[u8]), String>) {
        match wire::decode_octets(b, 4) {
            Ok((front, rest)) => Ok((Ipv4Addr { bits: from_be(front) as u32 }, rest)),
            Err(text) => Err(text),
        }
    }
}

impl Wire for Ipv6Addr {
    open spec fn wire(v: Ipv6Addr) -> Seq<u8> {
        octets::be_bytes(v.bits as nat, 16)
    }

    open spec fn parse(b: Seq<u8>) -> Result<(Ipv6Addr, Seq<u8>), Seq<char>> {
        match wire::octets_parse(b, 16) {
            Ok((s, rest)) => Ok((Ipv6Addr { bits: octets::be_value(s) as u128 }, rest)),
            Err(text) => Err(text),
        }
    }

    open spec fn fits(v: Ipv6Addr) -> bool {
        true
    }

    open spec fn encodable(v: Ipv6Addr) -> bool {
        true
    }

    proof fn round_trip(v: Ipv6Addr, rest: Seq<u8>) {
        octets::lemma_be_round_trip(v.bits as nat, 16);
        octets::lemma_widths();
        <[u8; 16] as Wire>::round_trip(octets::be_bytes(v.bits as nat, 16), rest);
    }

    fn is_encodable(&self) -> (r: bool) {
        true
    }

    fn encode(&self, out: &mut Vec<u8>) {
        let mut bytes = to_be(self.bits, 16);
        out.append(&mut bytes);
    }

    fn decode(b: &[u8]) -> (r: Result<(Ipv6Addr, &[u8]), String>) {
        match wire::decode_octets(b, 16) {
            Ok((front, rest)) => Ok((Ipv6Addr { bits: from_be(front) }, rest)),
            Err(text) => Err(text),
        }
    }
}

impl Wire for IpAddr {
    open spec fn wire(v: IpAddr) -> Seq<u8> {
        match v {
            IpAddr::V4(a) => <(u32, Ipv4Addr) as Wire>::wire((0, a)),
            IpAddr::V6(a) => <(u32, Ipv6Addr) as Wire>::wire((1, a)),
        }
    }

    open spec fn parse(b: Seq<u8>) -> Result<(IpAddr, Seq<u8>), Seq<char>> {
        match <u32 as Wire>::parse(b) {
            Err(text) => Err(text),
            Ok((version, rest)) => if version == 0 {
                match <Ipv4Addr as Wire>::parse(rest) {
                    Err(text) => Err(text),
                    Ok((a, end)) => Ok((IpAddr::V4(a), end)),
                }
            } else if version == 1 {
                match <Ipv6Addr as Wire>::parse(rest) {
                    Err(text) => Err(text),
                    Ok((a, end)) => Ok((IpAddr::V6(a), end)),
                }
            } else {
                Err(wire::variant_refusal(version, "`V4` or `V6`"@))
            },
        }
    }

    open spec fn fits(v: IpAddr) -> bool {
        true
    }

    open spec fn encodable(v: IpAddr) -> bool {
        true
    }

    proof fn round_trip(v: IpAddr, rest: Seq<u8>) {
        match v {
            IpAddr::V4(a) => {
                <(u32, Ipv4Addr) as Wire>::round_trip((0, a), rest);
            },
            IpAddr::V6(a) => {
                <(u32, Ipv6Addr) as Wire>::round_trip((1, a), rest);
            },
        }
    }

    fn is_encodable(&self) -> (r: bool) {
        true
    }

    fn encode(&self, out: &mut Vec<u8>) {
        match *self {
            IpAddr::V4(a) => (0u32, a).encode(out),
            IpAddr::V6(a) => (1u32, a).encode(out),
        }
    }

    fn decode(b: &[u8]) -> (r: Result<(IpAddr, &[u8]), String>) {
        match <u32 as Wire>::decode(b) {
            Err(text) => Err(text),
            Ok((version, rest)) => if version == 0 {
                match <Ipv4Addr as Wire>::decode(rest) {
                    Err(text) => Err(text),
                    Ok((a, end)) => Ok((IpAddr::V4(a), end)),
                }
            } else if version == 1 {
                match <Ipv6Addr as Wire>::decode(rest) {
                    Err(text) => Err(text),
                    Ok((a, end)) => Ok((IpAddr::V6(a), end)),
                }
            } else {
                Err(wire::bincode_bad_variant(version, "`V4` or `V6`"))
            },
        }
    }
}

impl Wire for SocketAddr {
    open spec fn wire(v: SocketAddr) -> Seq<u8> {
        <(IpAddr, u16) as Wire>::wire((v.ip, v.port))
    }

    open spec fn parse(b: Seq<u8>) -> Result<(SocketAddr, Seq<u8>), Seq<char>> {
        match <(IpAddr, u16) as Wire>::parse(b) {
            Err(text) => Err(text),
            Ok(((ip, port), rest)) => Ok((SocketAddr { ip, port }, rest)),
        }
    }

    open spec fn fits(v: SocketAddr) -> bool {
        true
    }

    open spec fn encodable(v: SocketAddr) -> bool {
        true
    }

    proof fn round_trip(v: SocketAddr, rest: Seq<u8>) {
        <(IpAddr, u16) as Wire>::round_trip((v.ip, v.port), rest);
    }

    fn is_encodable(&self) -> (r: bool) {
        true
    }

    fn encode(&self, out: &mut Vec<u8>) {
        (self.ip, self.port).encode(out);
    }

    fn decode(b: &[u8]) -> (r: Result<(SocketAddr, &[u8]), String>) {
        match <(IpAddr, u16) as Wire>::decode(b) {
            Err(text) => Err(text),
            Ok(((ip, port), rest)) => Ok((SocketAddr { ip, port }, rest)),
        }
    }
}

/// An address of version 4 is a 0 and its four bytes, one of version 6 a 1 and
/// its sixteen bytes, the most significant first; a port stands behind.
pub proof fn addresses_layout(four: Ipv4Addr, six: Ipv6Addr, port: u16)
    ensures
        <Ipv4Addr as Wire>::wire(four) == octets::be_bytes(four.bits as nat, 4),
        <IpAddr as Wire>::wire(IpAddr::V4(four)) == seq![0u8] + octets::be_bytes(
            four.bits as nat,
            4,
        ),
        <IpAddr as Wire>::wire(IpAddr::V6(six)) == seq![1u8] + octets::be_bytes(
            six.bits as nat,
            16,
        ),
        <SocketAddr as Wire>::wire(SocketAddr { ip: IpAddr::V4(four), port }) == seq![0u8]
            + octets::be_bytes(four.bits as nat, 4) + wire::varint_bytes(port as nat),
        <SocketAddr as Wire>::wire(SocketAddr { ip: IpAddr::V6(six), port }) == seq![1u8]
            + octets::be_bytes(six.bits as nat, 16) + wire::varint_bytes(port as nat),
{
    assert(<u32 as Wire>::wire(0) == seq![0u8]);
    assert(<u32 as Wire>::wire(1) == seq![1u8]);
}

/// There is no other version.
pub proof fn other_versions_are_refused(version: u32, rest: Seq<u8>)
    requires
        version > 1,
    ensures
        <IpAddr as Wire>::parse(<u32 as Wire>::wire(version) + rest) is Err,
{
    <u32 as Wire>::round_trip(version, rest);
}

} // verus!
