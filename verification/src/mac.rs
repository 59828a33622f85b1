//! Hardware addresses, and the node numbers that are made of them.

use crate::octets;
use crate::octets::from_be16;
use crate::text;
use crate::text::{find_from, hex_text};
use vstd::prelude::*;

verus! {

/// A hardware address.
pub type Mac = [u8; 6];

/// The node number for a hardware address: its even octets and its odd octets,
/// each folded into one byte.
pub open spec fn node_id_of(mac: Seq<u8>) -> u16 {
    octets::be_value(seq![mac[0] ^ mac[2] ^ mac[4], mac[1] ^ mac[3] ^ mac[5]]) as u16
}

/// The node number for a hardware address.
pub fn node_id_from_mac(mac: &[u8; 6]) -> (r: u16)
    ensures
        r == node_id_of(mac@),
        r == 256 * (mac@[0] ^ mac@[2] ^ mac@[4]) + (mac@[1] ^ mac@[3] ^ mac@[5]),
{
    let hi: u8 = mac[0] ^ mac[2] ^ mac[4];
    let lo: u8 = mac[1] ^ mac[3] ^ mac[5];
    from_be16(hi, lo)
}

/// Addresses that differ in one octet only get different numbers.
pub proof fn one_octet_decides(a: Seq<u8>, i: int, v: u8)
    requires
        a.len() == 6,
        0 <= i < 6,
        v != a[i],
    ensures
        node_id_of(a.update(i, v)) != node_id_of(a),
{
    let b = a.update(i, v);
    let (a0, a2, a4) = (a[0], a[2], a[4]);
    let (a1, a3, a5) = (a[1], a[3], a[5]);
    let (b0, b2, b4) = (b[0], b[2], b[4]);
    let (b1, b3, b5) = (b[1], b[3], b[5]);
    if i % 2 == 0 {
        assert(a0 ^ a2 ^ a4 != b0 ^ b2 ^ b4) by (bit_vector)
            requires
                (a0 != b0 && a2 == b2 && a4 == b4) || (a0 == b0 && a2 != b2 && a4 == b4) || (a0
                    == b0 && a2 == b2 && a4 != b4),
        ;
    } else {
        assert(a1 ^ a3 ^ a5 != b1 ^ b3 ^ b5) by (bit_vector)
            requires
                (a1 != b1 && a3 == b3 && a5 == b5) || (a1 == b1 && a3 != b3 && a5 == b5) || (a1
                    == b1 && a3 == b3 && a5 != b5),
        ;
    }
    lemma_two_bytes(a0 ^ a2 ^ a4, a1 ^ a3 ^ a5);
    lemma_two_bytes(b0 ^ b2 ^ b4, b1 ^ b3 ^ b5);
}

proof fn lemma_two_bytes(hi: u8, lo: u8)
    ensures
        octets::be_value(seq![hi, lo]) == 256 * hi + lo,
{
    reveal_with_fuel(octets::be_value, 3);
    assert(seq![hi, lo].drop_last() =~= seq![hi]);
    assert(seq![hi].drop_last() =~= seq![]);
}

// ---------------------------------------------------------------------------
// The written form
// ---------------------------------------------------------------------------

/// The written form: two hexadecimal digits per octet, with colons between.
pub open spec fn mac_text(mac: Seq<u8>) -> Seq<char>
    decreases mac.len(),
{
    if mac.len() == 0 {
        seq![]
    } else if mac.len() == 1 {
        text::hex(mac[0] as nat, 2)
    } else {
        text::hex(mac[0] as nat, 2) + seq![':'] + mac_text(mac.drop_first())
    }
}

/// The written form of a hardware address.
pub fn fmt_mac(mac: &Mac) -> (r: String)
    ensures
        r@ == mac_text(mac@),
{
    let mut s = hex_text(mac[5] as u64, 2);
    let mut i: usize = 5;
    proof {
        reveal_strlit(":");
    }
    assert(mac@.skip(5) =~= seq![mac@[5]]);
    while i > 0
        invariant
            i <= 5,
            s@ == mac_text(mac@.skip(i as int)),
            ":"@ =~= seq![':'],
        decreases i,
    {
        i -= 1;
        let mut front = hex_text(mac[i] as u64, 2);
        front.append(":");
        front.append(s.as_str());
        assert(mac@.skip(i as int).drop_first() =~= mac@.skip(i + 1));
        s = front;
    }
    assert(mac@.skip(0) =~= mac@);
    s
}

/// The value of a hexadecimal digit of either case.
pub open spec fn hex_digit(c: char) -> Option<nat> {
    if '0' <= c <= '9' {
        Some((c as nat - '0' as nat) as nat)
    } else if 'a' <= c <= 'f' {
        Some((c as nat - 'a' as nat + 10) as nat)
    } else if 'A' <= c <= 'F' {
        Some((c as nat - 'A' as nat + 10) as nat)
    } else {
        None
    }
}

/// The value of a row of hexadecimal digits.
pub open spec fn hex_number(s: Seq<char>) -> Option<nat>
    decreases s.len(),
{
    if s.len() == 0 {
        Some(0)
    } else {
        match (hex_number(s.drop_last()), hex_digit(s.last())) {
            (Some(v), Some(d)) => Some(16 * v + d),
            _ => None,
        }
    }
}

/// The octet that `s` spells: at least one hexadecimal digit, behind a plus
/// sign or not, with a value that fits.
pub open spec fn octet(s: Seq<char>) -> Option<u8> {
    let digits = if s.len() > 0 && s[0] == '+' {
        s.drop_first()
    } else {
        s
    };
    match hex_number(digits) {
        Some(v) => if digits.len() > 0 && v <= 0xff {
            Some(v as u8)
        } else {
            None
        },
        None => None,
    }
}

/// The text of the error with which `u8::from_str_radix` refuses `s` in base
/// sixteen.
pub uninterp spec fn octet_refusal(s: Seq<char>) -> Seq<char>;

/// `u8::from_str_radix` in base sixteen: an optional plus sign and digits of
/// either case, of a value that fits; else the text of the error.
#[verifier::external_body]
fn parse_octet(s: &str) -> (r: Result<u8, String>)
    ensures
        match r {
            Ok(v) => octet(s@) == Some(v),
            Err(cause) => octet(s@) is None && cause@ == octet_refusal(s@),
        },
{
    u8::from_str_radix(s, 16).map_err(|e| e.to_string())
}

/// Why a text is no hardware address.
#[derive(Debug, Clone)]
pub enum MacError {
    /// A part is no octet, for this reason.
    Octet { mac: String, cause: String },
    /// There are more or less than six octets.
    Length { mac: String },
}

/// The mathematical form of a [`MacError`].
#[verifier::ext_equal]
pub enum MacFault {
    Octet { mac: Seq<char>, cause: Seq<char> },
    Length { mac: Seq<char> },
}

impl DeepView for MacError {
    type V = MacFault;

    open spec fn deep_view(&self) -> MacFault {
        match self {
            MacError::Octet { mac, cause } => MacFault::Octet { mac: mac@, cause: cause@ },
            MacError::Length { mac } => MacFault::Length { mac: mac@ },
        }
    }
}

impl MacError {
    /// The text of the error, without the reason.
    pub fn message(&self) -> (r: String)
        ensures
            r@ == match self.deep_view() {
                MacFault::Octet { mac, .. } => "parsing MAC "@ + mac,
                MacFault::Length { mac } => "unexpected MAC length: "@ + mac,
            },
    {
        match self {
            MacError::Octet { mac, cause: _ } => {
                let mut s = "parsing MAC ".to_owned();
                s.append(mac.as_str());
                s
            },
            MacError::Length { mac } => {
                let mut s = "unexpected MAC length: ".to_owned();
                s.append(mac.as_str());
                s
            },
        }
    }
}

/// The octets between the colons of `s`, or why the first part that is none is
/// refused.
pub open spec fn octets_in(s: Seq<char>) -> Result<Seq<u8>, Seq<char>>
    decreases s.len(),
    via octets_in_decreases
{
    let k = text::first_of(s, ':');
    let part = s.take(k as int);
    match octet(part) {
        None => Err(octet_refusal(part)),
        Some(v) => if k == s.len() {
            Ok(seq![v])
        } else {
            match octets_in(s.skip(k as int + 1)) {
                Err(cause) => Err(cause),
                Ok(rest) => Ok(seq![v] + rest),
            }
        },
    }
}

#[via_fn]
proof fn octets_in_decreases(s: Seq<char>) {
    text::lemma_first_of(s, ':');
}

/// The hardware address that `s` spells: six octets between colons.
pub open spec fn mac_in(s: Seq<char>) -> Result<Seq<u8>, MacFault> {
    match octets_in(s) {
        Err(cause) => Err(MacFault::Octet { mac: s, cause }),
        Ok(all) => if all.len() != 6 {
            Err(MacFault::Length { mac: s })
        } else {
            Ok(all)
        },
    }
}

fn parse_octets(s: &str) -> (r: Result<Vec<u8>, String>)
    ensures
        match r {
            Ok(all) => octets_in(s@) == Ok::<Seq<u8>, Seq<char>>(all@),
            Err(cause) => octets_in(s@) == Err::<Seq<u8>, Seq<char>>(cause@),
        },
{
    let len: usize = s.unicode_len();
    let mut out: Vec<u8> = Vec::new();
    let mut start: usize = 0;
    assert(s@.skip(0) =~= s@);
    proof {
        match octets_in(s@) {
            Ok(all) => {
                assert(out@ + all =~= all);
            },
            Err(_) => {},
        }
    }
    loop
        invariant
            start <= len == s@.len(),
            octets_in(s@) == (match octets_in(s@.skip(start as int)) {
                Ok(rest) => Ok::<Seq<u8>, Seq<char>>(out@ + rest),
                Err(cause) => Err(cause),
            }),
        decreases len - start,
    {
        let ghost tail = s@.skip(start as int);
        let end: usize = find_from(s, ':', start);
        proof {
            text::lemma_first_of(tail, ':');
            assert(tail.take(end - start) =~= s@.subrange(start as int, end as int));
        }
        let part = s.substring_char(start, end);
        match parse_octet(part) {
            Err(cause) => {
                return Err(cause);
            },
            Ok(v) => {
                let ghost before = out@;
                out.push(v);
                if end == len {
                    assert(before + seq![v] =~= out@);
                    return Ok(out);
                }
                proof {
                    let rest = tail.skip(end - start + 1);
                    assert(rest =~= s@.skip(end + 1));
                    match octets_in(rest) {
                        Ok(more) => {
                            assert(before + (seq![v] + more) =~= out@ + more);
                        },
                        Err(_) => {},
                    }
                }
                start = end + 1;
            },
        }
    }
}

/// The hardware address that a text spells.
pub fn parse_mac(s: &str) -> (r: Result<Mac, MacError>)
    ensures
        match r {
            Ok(mac) => mac_in(s@) == Ok::<Seq<u8>, MacFault>(mac@),
            Err(e) => mac_in(s@) == Err::<Seq<u8>, MacFault>(e.deep_view()),
        },
{
    match parse_octets(s) {
        Err(cause) => Err(MacError::Octet { mac: s.to_owned(), cause }),
        Ok(all) => {
            if all.len() != 6 {
                Err(MacError::Length { mac: s.to_owned() })
            } else {
                let mac: Mac = [all[0], all[1], all[2], all[3], all[4], all[5]];
                assert(mac@ =~= all@);
                Ok(mac)
            }
        },
    }
}

proof fn lemma_hex_octet(v: u8)
    ensures
        text::hex(v as nat, 2).len() == 2,
        octet(text::hex(v as nat, 2)) == Some(v),
        forall|i: int| 0 <= i < 2 ==> text::hex(v as nat, 2)[i] != ':',
{
    reveal_with_fuel(text::hex, 3);
    reveal_with_fuel(hex_number, 3);
    let s = text::hex(v as nat, 2);
    let hi = text::digit((v as nat / 16) % 16);
    let lo = text::digit(v as nat % 16);
    assert(s =~= seq![hi, lo]);
    assert(s.drop_last() =~= seq![hi]);
    assert(seq![hi].drop_last() =~= seq![]);
    assert(hex_digit(hi) == Some((v as nat / 16) % 16));
    assert(hex_digit(lo) == Some(v as nat % 16));
}

proof fn lemma_written_octets(mac: Seq<u8>)
    requires
        mac.len() > 0,
    ensures
        octets_in(mac_text(mac)) == Ok::<Seq<u8>, Seq<char>>(mac),
    decreases mac.len(),
{
    let s = mac_text(mac);
    let front = text::hex(mac[0] as nat, 2);
    lemma_hex_octet(mac[0]);
    if mac.len() == 1 {
        text::lemma_first_is(s, ':', 2);
        assert(s.take(2) =~= front);
        assert(seq![mac[0]] =~= mac);
    } else {
        let tail = mac_text(mac.drop_first());
        lemma_written_octets(mac.drop_first());
        assert(s[2] == ':');
        assert forall|i: int| 0 <= i < 2 implies s[i] != ':' by {
            assert(s[i] == front[i]);
        }
        text::lemma_first_is(s, ':', 2);
        assert(s.take(2) =~= front);
        assert(s.skip(3) =~= tail);
        assert(seq![mac[0]] + mac.drop_first() =~= mac);
    }
}

/// The written form of a hardware address is read back as that address.
pub proof fn written_mac_is_read_back(mac: Seq<u8>)
    requires
        mac.len() == 6,
    ensures
        mac_in(mac_text(mac)) == Ok::<Seq<u8>, MacFault>(mac),
{
    lemma_written_octets(mac);
}

// ---------------------------------------------------------------------------
// What the system says of an interface
// ---------------------------------------------------------------------------

/// Whether `c` is white space, by the Unicode property `White_Space`.
pub open spec fn white_space(c: char) -> bool {
    ||| '\u{9}' <= c <= '\u{d}'
    ||| c == ' '
    ||| c == '\u{85}'
    ||| c == '\u{a0}'
    ||| c == '\u{1680}'
    ||| '\u{2000}' <= c <= '\u{200a}'
    ||| c == '\u{2028}'
    ||| c == '\u{2029}'
    ||| c == '\u{202f}'
    ||| c == '\u{205f}'
    ||| c == '\u{3000}'
}

/// Whether `c` is white space.
pub fn is_white_space(c: char) -> (r: bool)
    ensures
        r == white_space(c),
{
    ('\u{9}' <= c && c <= '\u{d}') || c == ' ' || c == '\u{85}' || c == '\u{a0}' || c == '\u{1680}'
        || ('\u{2000}' <= c && c <= '\u{200a}') || c == '\u{2028}' || c == '\u{2029}' || c
        == '\u{202f}' || c == '\u{205f}' || c == '\u{3000}'
}

/// `s` without the white space in front.
pub open spec fn trim_start(s: Seq<char>) -> Seq<char>
    decreases s.len(),
{
    if s.len() > 0 && white_space(s[0]) {
        trim_start(s.drop_first())
    } else {
        s
    }
}

/// `s` without the white space behind.
pub open spec fn trim_end(s: Seq<char>) -> Seq<char>
    decreases s.len(),
{
    if s.len() > 0 && white_space(s.last()) {
        trim_end(s.drop_last())
    } else {
        s
    }
}

/// A text without the white space in front and behind.
pub fn trim(s: &str) -> (r: &str)
    ensures
        r@ == trim_end(trim_start(s@)),
{
    let len: usize = s.unicode_len();
    let mut start: usize = 0;
    assert(s@.skip(0) =~= s@);
    while start < len && is_white_space(s.get_char(start))
        invariant
            start <= len == s@.len(),
            trim_start(s@) == trim_start(s@.skip(start as int)),
        decreases len - start,
    {
        assert(s@.skip(start as int).drop_first() =~= s@.skip(start + 1));
        start += 1;
    }
    let ghost tail = s@.skip(start as int);
    let mut end: usize = len;
    assert(s@.subrange(start as int, len as int) =~= tail);
    while start < end && is_white_space(s.get_char(end - 1))
        invariant
            start <= end <= len == s@.len(),
            trim_end(tail) == trim_end(s@.subrange(start as int, end as int)),
        decreases end - start,
    {
        assert(s@.subrange(start as int, end as int).drop_last() =~= s@.subrange(
            start as int,
            end - 1,
        ));
        end -= 1;
    }
    s.substring_char(start, end)
}

/// The node number of the interface whose address the system gives as
/// `address`.
pub fn derive_node_id(address: &str) -> (r: Result<u16, MacError>)
    ensures
        match r {
            Ok(id) => mac_in(trim_end(trim_start(address@))) matches Ok(mac) && id == node_id_of(
                mac,
            ),
            Err(e) => mac_in(trim_end(trim_start(address@))) == Err::<Seq<u8>, MacFault>(
                e.deep_view(),
            ),
        },
{
    match parse_mac(trim(address)) {
        Ok(mac) => Ok(node_id_from_mac(&mac)),
        Err(e) => Err(e),
    }
}

/// The node number of an interface is that of its hardware address, whatever
/// white space stands in front of the written form and behind it: the system
/// ends it with a line feed.
pub proof fn address_gives_number(mac: Seq<u8>, front: Seq<char>, back: Seq<char>)
    requires
        mac.len() == 6,
        forall|i: int| 0 <= i < front.len() ==> white_space(#[trigger] front[i]),
        forall|i: int| 0 <= i < back.len() ==> white_space(#[trigger] back[i]),
    ensures
        mac_in(trim_end(trim_start(front + mac_text(mac) + back))) == Ok::<Seq<u8>, MacFault>(mac),
{
    let s = mac_text(mac);
    lemma_written_ends(mac);
    lemma_trim_start(front, s + back);
    assert(front + s + back =~= front + (s + back));
    lemma_trim_end(s, back);
    written_mac_is_read_back(mac);
}

proof fn lemma_trim_start(front: Seq<char>, s: Seq<char>)
    requires
        forall|i: int| 0 <= i < front.len() ==> white_space(#[trigger] front[i]),
        s.len() > 0,
        !white_space(s[0]),
    ensures
        trim_start(front + s) == s,
    decreases front.len(),
{
    if front.len() > 0 {
        assert((front + s).drop_first() =~= front.drop_first() + s);
        lemma_trim_start(front.drop_first(), s);
    } else {
        assert(front + s =~= s);
    }
}

proof fn lemma_trim_end(s: Seq<char>, back: Seq<char>)
    requires
        forall|i: int| 0 <= i < back.len() ==> white_space(#[trigger] back[i]),
        s.len() > 0,
        !white_space(s.last()),
    ensures
        trim_end(s + back) == s,
    decreases back.len(),
{
    if back.len() > 0 {
        assert((s + back).drop_last() =~= s + back.drop_last());
        lemma_trim_end(s, back.drop_last());
    } else {
        assert(s + back =~= s);
    }
}

/// The written form has three characters per octet, but for the last.
pub proof fn lemma_written_len(mac: Seq<u8>)
    ensures
        mac.len() > 0 ==> mac_text(mac).len() == 3 * mac.len() - 1,
        mac.len() == 0 ==> mac_text(mac).len() == 0,
    decreases mac.len(),
{
    if mac.len() > 0 {
        lemma_hex_octet(mac[0]);
        lemma_written_len(mac.drop_first());
    }
}

/// The written form begins and ends with a digit.
proof fn lemma_written_ends(mac: Seq<u8>)
    requires
        mac.len() > 0,
    ensures
        mac_text(mac).len() > 0,
        !white_space(mac_text(mac)[0]),
        !white_space(mac_text(mac).last()),
    decreases mac.len(),
{
    reveal_with_fuel(text::hex, 3);
    let front = text::hex(mac[0] as nat, 2);
    let hi = text::digit((mac[0] as nat / 16) % 16);
    let lo = text::digit(mac[0] as nat % 16);
    assert(front =~= seq![hi, lo]);
    if mac.len() > 1 {
        lemma_written_ends(mac.drop_first());
    }
}

/// The node number has the folded even octets as its high byte and the folded
/// odd ones as its low byte.
pub proof fn number_folds_octets(mac: Seq<u8>)
    requires
        mac.len() == 6,
    ensures
        node_id_of(mac) == 256 * (mac[0] ^ mac[2] ^ mac[4]) + (mac[1] ^ mac[3] ^ mac[5]),
{
    lemma_two_bytes(mac[0] ^ mac[2] ^ mac[4], mac[1] ^ mac[3] ^ mac[5]);
}

/// The written form of an address: at three times `i` stand the two digits of
/// its octet `i`, and between two octets stands a colon.
pub proof fn written_form(mac: Seq<u8>, i: int)
    requires
        0 <= i < mac.len(),
    ensures
        mac_text(mac).len() == 3 * mac.len() - 1,
        text::numeral(mac_text(mac).subrange(3 * i, 3 * i + 2), 16) == Some(mac[i] as nat),
        i + 1 < mac.len() ==> mac_text(mac)[3 * i + 2] == ':',
    decreases mac.len(),
{
    let s = mac_text(mac);
    lemma_written_len(mac);
    lemma_hex_octet(mac[0]);
    if i == 0 {
        text::hex_reads_back(mac[0] as nat, 2);
        reveal_with_fuel(vstd::arithmetic::power::pow, 3);
        assert(vstd::arithmetic::power::pow(16, 2) == 256);
        assert(mac[0] as nat % 256 == mac[0]);
        assert(s.subrange(0, 2) =~= text::hex(mac[0] as nat, 2));
    } else {
        let rest = mac.drop_first();
        written_form(rest, i - 1);
        let t = mac_text(rest);
        assert(s.subrange(3 * i, 3 * i + 2) =~= t.subrange(3 * (i - 1), 3 * (i - 1) + 2));
    }
}

/// Some texts with colons between.
pub open spec fn with_colons(parts: Seq<Seq<char>>) -> Seq<char>
    decreases parts.len(),
{
    if parts.len() == 0 {
        seq![]
    } else if parts.len() == 1 {
        parts[0]
    } else {
        parts[0] + seq![':'] + with_colons(parts.drop_first())
    }
}

proof fn lemma_first_part(parts: Seq<Seq<char>>)
    requires
        parts.len() > 0,
        forall|i: int| 0 <= i < parts.len() ==> !(#[trigger] parts[i]).contains(':'),
    ensures
        ({
            let s = with_colons(parts);
            let k = text::first_of(s, ':');
            &&& k == parts[0].len()
            &&& s.take(k as int) == parts[0]
            &&& parts.len() == 1 ==> k == s.len()
            &&& parts.len() > 1 ==> k < s.len() && s.skip(k as int + 1) == with_colons(
                parts.drop_first(),
            )
        }),
{
    let s = with_colons(parts);
    let n = parts[0].len();
    assert(!parts[0].contains(':'));
    assert forall|i: int| 0 <= i < n implies s[i] != ':' by {
        assert(s[i] == parts[0][i]);
        if parts[0][i] == ':' {
            assert(parts[0].contains(parts[0][i]));
        }
    }
    text::lemma_first_is(s, ':', n);
    assert(s.take(n as int) =~= parts[0]);
    if parts.len() > 1 {
        assert(s.skip(n as int + 1) =~= with_colons(parts.drop_first()));
    }
}

proof fn lemma_parts_are_read(parts: Seq<Seq<char>>)
    requires
        parts.len() > 0,
        forall|i: int| 0 <= i < parts.len() ==> !(#[trigger] parts[i]).contains(':'),
    ensures
        match octets_in(with_colons(parts)) {
            Ok(all) => all.len() == parts.len() && forall|i: int|
                0 <= i < parts.len() ==> octet(#[trigger] parts[i]) == Some(all[i]),
            Err(cause) => exists|i: int|
                0 <= i < parts.len() && octet(#[trigger] parts[i]) is None && cause
                    == octet_refusal(parts[i]) && forall|j: int|
                    0 <= j < i ==> octet(#[trigger] parts[j]) is Some,
        },
    decreases parts.len(),
{
    lemma_first_part(parts);
    let rest = parts.drop_first();
    match octet(parts[0]) {
        None => {},
        Some(v) => {
            if parts.len() > 1 {
                assert forall|i: int| 0 <= i < rest.len() implies !(#[trigger] rest[i]).contains(
                    ':',
                ) by {
                    assert(rest[i] == parts[i + 1]);
                }
                lemma_parts_are_read(rest);
                match octets_in(with_colons(rest)) {
                    Ok(more) => {
                        let all = seq![v] + more;
                        assert forall|i: int| 0 <= i < parts.len() implies octet(
                            #[trigger] parts[i],
                        ) == Some(all[i]) by {
                            if i > 0 {
                                assert(parts[i] == rest[i - 1]);
                            }
                        }
                    },
                    Err(cause) => {
                        let i = choose|i: int|
                            0 <= i < rest.len() && octet(#[trigger] rest[i]) is None && cause
                                == octet_refusal(rest[i]) && forall|j: int|
                                0 <= j < i ==> octet(#[trigger] rest[j]) is Some;
                        assert(parts[i + 1] == rest[i]);
                        assert forall|j: int| 0 <= j < i + 1 implies octet(
                            #[trigger] parts[j],
                        ) is Some by {
                            if j > 0 {
                                assert(parts[j] == rest[j - 1]);
                            }
                        }
                    },
                }
            }
        },
    }
}

/// A text is an address exactly if it is six octets with colons between; then
/// each part gives its octet. If a part is no octet, the first such part is
/// what it is refused for; if all are but there are not six, that is.
pub proof fn six_octets_make_an_address(parts: Seq<Seq<char>>)
    requires
        parts.len() > 0,
        forall|i: int| 0 <= i < parts.len() ==> !(#[trigger] parts[i]).contains(':'),
    ensures
        ({
            let s = with_colons(parts);
            match mac_in(s) {
                Ok(mac) => parts.len() == 6 && mac.len() == 6 && forall|i: int|
                    0 <= i < 6 ==> octet(#[trigger] parts[i]) == Some(mac[i]),
                Err(MacFault::Length { mac }) => mac == s && parts.len() != 6 && forall|i: int|
                    0 <= i < parts.len() ==> octet(#[trigger] parts[i]) is Some,
                Err(MacFault::Octet { mac, cause }) => mac == s && exists|i: int|
                    0 <= i < parts.len() && octet(#[trigger] parts[i]) is None && cause
                        == octet_refusal(parts[i]) && forall|j: int|
                        0 <= j < i ==> octet(#[trigger] parts[j]) is Some,
            }
        }),
{
    lemma_parts_are_read(parts);
}

/// The address of an interface as the system gives it ends with a line feed,
/// and gives the number of that address.
pub proof fn line_feed_is_left_out(mac: Seq<u8>)
    requires
        mac.len() == 6,
    ensures
        mac_in(trim_end(trim_start(mac_text(mac) + seq!['\n']))) == Ok::<Seq<u8>, MacFault>(mac),
{
    address_gives_number(mac, seq![], seq!['\n']);
    assert(seq![] + mac_text(mac) + seq!['\n'] =~= mac_text(mac) + seq!['\n']);
}

} // verus!
