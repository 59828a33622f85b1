//! Texts: numerals, comparison, and bytes that may or may not be UTF-8.

use crate::addr::Ipv4Addr;
use vstd::prelude::*;

verus! {

/// The digit for `d`, in bases up to sixteen.
pub open spec fn digit(d: nat) -> char {
    if d < 10 {
        ('0' as nat + d) as char
    } else {
        ('a' as nat + (d - 10)) as char
    }
}

/// `n` in decimal, without leading zeros.
pub open spec fn decimal(n: nat) -> Seq<char>
    decreases n,
{
    if n < 10 {
        seq![digit(n)]
    } else {
        decimal(n / 10).push(digit(n % 10))
    }
}

/// The `width` low hexadecimal digits of `n`, in lower case.
pub open spec fn hex(n: nat, width: nat) -> Seq<char>
    decreases width,
{
    if width == 0 {
        seq![]
    } else {
        hex(n / 16, (width - 1) as nat).push(digit(n % 16))
    }
}

/// The dotted form of an IPv4 address.
pub open spec fn dotted(ip: Ipv4Addr) -> Seq<char> {
    let o = ip.spec_octets();
    decimal(o[0] as nat) + "."@ + decimal(o[1] as nat) + "."@ + decimal(o[2] as nat) + "."@
        + decimal(o[3] as nat)
}

fn digit_text(d: u8) -> (r: &'static str)
    requires
        d < 16,
    ensures
        r@ == seq![digit(d as nat)],
{
    proof {
        reveal_strlit("0123456789abcdef");
    }
    "0123456789abcdef".substring_char(d as usize, d as usize + 1)
}

/// `n` in decimal.
pub fn decimal_text(n: u128) -> (r: String)
    ensures
        r@ == decimal(n as nat),
    decreases n,
{
    if n < 10 {
        digit_text(n as u8).to_owned()
    } else {
        let mut s = decimal_text(n / 10);
        s.append(digit_text((n % 10) as u8));
        assert(s@ =~= decimal(n as nat));
        s
    }
}

/// The `width` low hexadecimal digits of `n`.
pub fn hex_text(n: u64, width: usize) -> (r: String)
    ensures
        r@ == hex(n as nat, width as nat),
    decreases width,
{
    if width == 0 {
        String::new()
    } else {
        let mut s = hex_text(n / 16, width - 1);
        s.append(digit_text((n % 16) as u8));
        assert(s@ =~= hex(n as nat, width as nat));
        s
    }
}

/// The dotted form of an IPv4 address.
pub fn dotted_text(ip: Ipv4Addr) -> (r: String)
    ensures
        r@ == dotted(ip),
{
    let o = ip.octets();
    let mut s = decimal_text(o[0] as u128);
    s.append(".");
    s.append(decimal_text(o[1] as u128).as_str());
    s.append(".");
    s.append(decimal_text(o[2] as u128).as_str());
    s.append(".");
    s.append(decimal_text(o[3] as u128).as_str());
    s
}

/// Whether two texts are the same.
pub fn same_text(a: &str, b: &str) -> (r: bool)
    ensures
        r == (a@ == b@),
{
    a.to_owned() == b.to_owned()
}

/// Where `c` first stands in `s`; the length of `s` if it does not.
pub open spec fn first_of(s: Seq<char>, c: char) -> nat
    decreases s.len(),
{
    if s.len() == 0 || s[0] == c {
        0
    } else {
        1 + first_of(s.drop_first(), c)
    }
}

pub proof fn lemma_first_of(s: Seq<char>, c: char)
    ensures
        first_of(s, c) <= s.len(),
        forall|i: int| 0 <= i < first_of(s, c) ==> s[i] != c,
        first_of(s, c) < s.len() ==> s[first_of(s, c) as int] == c,
    decreases s.len(),
{
    if s.len() > 0 && s[0] != c {
        let t = s.drop_first();
        lemma_first_of(t, c);
        assert forall|i: int| 0 <= i < first_of(s, c) implies s[i] != c by {
            if i > 0 {
                assert(t[i - 1] == s[i]);
            }
        }
    }
}

pub proof fn lemma_first_is(s: Seq<char>, c: char, k: nat)
    requires
        k <= s.len(),
        forall|i: int| 0 <= i < k ==> s[i] != c,
        k < s.len() ==> s[k as int] == c,
    ensures
        first_of(s, c) == k,
{
    lemma_first_of(s, c);
    let f = first_of(s, c);
    if f < k {
        assert(s[f as int] != c);
    } else if k < f {
        assert(s[k as int] != c);
    }
}

/// Where `c` first stands in `s` from `start` on; the length of `s` if it does
/// not.
pub fn find_from(s: &str, c: char, start: usize) -> (r: usize)
    requires
        start <= s@.len(),
    ensures
        start <= r <= s@.len(),
        r - start == first_of(s@.skip(start as int), c),
{
    let len: usize = s.unicode_len();
    let ghost tail = s@.skip(start as int);
    let mut end: usize = start;
    while end < len && s.get_char(end) != c
        invariant
            start <= end <= len == s@.len(),
            tail == s@.skip(start as int),
            forall|i: int| 0 <= i < end - start ==> tail[i] != c,
        decreases len - end,
    {
        end += 1;
    }
    proof {
        lemma_first_is(tail, c, (end - start) as nat);
    }
    end
}

/// `std::str::from_utf8`: the text that the bytes encode, where they are UTF-8.
#[verifier::external_body]
pub(crate) fn utf8_text(b: &[u8]) -> (r: Option<String>)
    ensures
        match r {
            Some(s) => vstd::utf8::valid_utf8(b@) && s@ == vstd::utf8::decode_utf8(b@),
            None => !vstd::utf8::valid_utf8(b@),
        },
{
    std::str::from_utf8(b).ok().map(|s| s.to_owned())
}

/// The number that a row of digits spells in the base `base`, where the digits
/// above nine are small letters; nothing if it has a character that is no digit
/// of that base.
pub open spec fn numeral(s: Seq<char>, base: nat) -> Option<nat>
    decreases s.len(),
{
    if s.len() == 0 {
        Some(0)
    } else {
        let c = s.last();
        let d = if '0' <= c <= '9' {
            c as int - '0' as int
        } else if 'a' <= c <= 'z' {
            c as int - 'a' as int + 10
        } else {
            -1
        };
        match numeral(s.drop_last(), base) {
            Some(front) if 0 <= d < base => Some((base * front + d) as nat),
            _ => None,
        }
    }
}

/// A number in decimal spells that number, and no zero stands in front but that
/// of the number 0.
pub proof fn decimal_reads_back(n: nat)
    ensures
        numeral(decimal(n), 10) == Some(n),
        decimal(n).len() > 0,
        n > 0 ==> decimal(n)[0] != '0',
        n == 0 ==> decimal(n) == seq!['0'],
    decreases n,
{
    let s = decimal(n);
    if n < 10 {
        assert(s.drop_last() =~= seq![]);
        assert(numeral(s.drop_last(), 10) == Some(0nat));
    } else {
        decimal_reads_back(n / 10);
        assert(s.drop_last() =~= decimal(n / 10));
        assert(s[0] == decimal(n / 10)[0]);
    }
}

/// So many hexadecimal digits spell the number, as far as they can.
pub proof fn hex_reads_back(n: nat, width: nat)
    ensures
        hex(n, width).len() == width,
        numeral(hex(n, width), 16) == Some(n % (vstd::arithmetic::power::pow(16, width) as nat)),
    decreases width,
{
    reveal(vstd::arithmetic::power::pow);
    if width > 0 {
        let w = (width - 1) as nat;
        hex_reads_back(n / 16, w);
        let s = hex(n, width);
        assert(s.drop_last() =~= hex(n / 16, w));
        let p = vstd::arithmetic::power::pow(16, w);
        vstd::arithmetic::power::lemma_pow_positive(16, w);
        assert(vstd::arithmetic::power::pow(16, width) == 16 * p);
        vstd::arithmetic::div_mod::lemma_breakdown(n as int, 16, p);
        assert(n as int % (16 * p) == 16 * ((n as int / 16) % p) + n as int % 16);
    }
}

/// An address is written as its four bytes in decimal with points between, the
/// most significant first.
pub proof fn address_is_dotted(ip: Ipv4Addr)
    ensures
        dotted(ip) == decimal(ip.bits as nat / 0x100_0000) + "."@ + decimal(
            ip.bits as nat / 0x1_0000 % 256,
        ) + "."@ + decimal(ip.bits as nat / 256 % 256) + "."@ + decimal(ip.bits as nat % 256),
{
    crate::octets::four_bytes(ip.bits);
}

} // verus!
