//! Big-endian numbers, as the frame headers, DHCP and TFTP carry them.

use vstd::prelude::*;

verus! {

/// The number whose digits in base 256 are `s`, most significant first.
pub open spec fn be_value(s: Seq<u8>) -> nat
    decreases s.len(),
{
    if s.len() == 0 {
        0
    } else {
        256 * be_value(s.drop_last()) + s.last() as nat
    }
}

/// The `width` low digits of `v` in base 256, most significant first.
pub open spec fn be_bytes(v: nat, width: nat) -> Seq<u8>
    decreases width,
{
    if width == 0 {
        seq![]
    } else {
        be_bytes(v / 256, (width - 1) as nat).push((v % 256) as u8)
    }
}

/// A number that fits in `width` bytes reads back as itself.
pub proof fn lemma_be_round_trip(v: nat, width: nat)
    ensures
        be_bytes(v, width).len() == width,
        v < vstd::arithmetic::power::pow(256, width) ==> be_value(be_bytes(v, width)) == v,
    decreases width,
{
    reveal(vstd::arithmetic::power::pow);
    if width > 0 {
        let w = (width - 1) as nat;
        lemma_be_round_trip(v / 256, w);
        let s = be_bytes(v, width);
        assert(s.drop_last() =~= be_bytes(v / 256, w));
        if v < vstd::arithmetic::power::pow(256, width) {
            let p = vstd::arithmetic::power::pow(256, w);
            assert(vstd::arithmetic::power::pow(256, width) == 256 * p);
            assert(v / 256 < p) by (nonlinear_arith)
                requires
                    v < 256 * p,
            ;
        }
    }
}

/// Bytes are the digits of the number that they spell.
pub proof fn lemma_be_digits(s: Seq<u8>)
    ensures
        be_bytes(be_value(s), s.len()) == s,
        be_value(s) < vstd::arithmetic::power::pow(256, s.len()),
    decreases s.len(),
{
    reveal(vstd::arithmetic::power::pow);
    if s.len() > 0 {
        let t = s.drop_last();
        lemma_be_digits(t);
        let p = vstd::arithmetic::power::pow(256, t.len());
        assert(vstd::arithmetic::power::pow(256, s.len()) == 256 * p);
        assert(256 * be_value(t) + s.last() < 256 * p) by (nonlinear_arith)
            requires
                be_value(t) < p,
                s.last() < 256,
        ;
        assert(be_bytes(be_value(s), s.len()) =~= s);
    }
}

/// Two bytes spell a number: the first counts 256 times as much as the second.
pub proof fn two_bytes(hi: u8, lo: u8)
    ensures
        be_value(seq![hi, lo]) == 256 * hi + lo,
{
    reveal_with_fuel(be_value, 3);
    assert(seq![hi, lo].drop_last() =~= seq![hi]);
    assert(seq![hi].drop_last() =~= seq![]);
}

/// A 32-bit number is four bytes, the most significant first.
pub proof fn four_bytes(v: u32)
    ensures
        be_bytes(v as nat, 4) == seq![
            (v / 0x100_0000) as u8,
            (v / 0x1_0000 % 256) as u8,
            (v / 256 % 256) as u8,
            (v % 256) as u8,
        ],
{
    reveal_with_fuel(be_bytes, 5);
    assert(be_bytes(v as nat, 4) =~= seq![
        (v / 0x100_0000) as u8,
        (v / 0x1_0000 % 256) as u8,
        (v / 256 % 256) as u8,
        (v % 256) as u8,
    ]);
}

/// A 16-bit number is two bytes, the most significant first.
pub proof fn number_of_two_bytes(v: u16)
    ensures
        be_bytes(v as nat, 2) == seq![(v / 256) as u8, (v % 256) as u8],
{
    reveal_with_fuel(be_bytes, 3);
    assert(be_bytes(v as nat, 2) =~= seq![(v / 256) as u8, (v % 256) as u8]);
}

/// What `width` bytes can spell, for the widths in use.
pub proof fn lemma_widths()
    ensures
        vstd::arithmetic::power::pow(256, 2) == 0x1_0000,
        vstd::arithmetic::power::pow(256, 4) == 0x1_0000_0000,
        vstd::arithmetic::power::pow(256, 16) == 0x1_0000_0000_0000_0000_0000_0000_0000_0000,
{
    reveal_with_fuel(vstd::arithmetic::power::pow, 17);
}

/// The number that `b` spells.
pub fn from_be(b: &[u8]) -> (r: u128)
    requires
        b@.len() <= 16,
    ensures
        r == be_value(b@),
{
    let mut r: u128 = 0;
    let mut i: usize = 0;
    assert(b@.take(0) =~= seq![]);
    while i < b.len()
        invariant
            i <= b@.len() <= 16,
            r == be_value(b@.take(i as int)),
        decreases b@.len() - i,
    {
        proof {
            let next = b@.take(i + 1);
            assert(next.drop_last() =~= b@.take(i as int));
            lemma_be_digits(next);
            lemma_widths();
            if i + 1 < 16 {
                vstd::arithmetic::power::lemma_pow_strictly_increases(
                    256,
                    (i + 1) as nat,
                    16,
                );
            }
        }
        r = r * 256 + b[i] as u128;
        i += 1;
    }
    assert(b@.take(b@.len() as int) =~= b@);
    r
}

/// The digits of `v`.
pub fn to_be(v: u128, width: usize) -> (r: Vec<u8>)
    ensures
        r@ == be_bytes(v as nat, width as nat),
    decreases width,
{
    if width == 0 {
        Vec::new()
    } else {
        let mut r = to_be(v / 256, width - 1);
        r.push((v % 256) as u8);
        r
    }
}

/// The 16-bit number with the given high and low byte.
pub fn from_be16(hi: u8, lo: u8) -> (r: u16)
    ensures
        r == be_value(seq![hi, lo]),
        r == 256 * hi + lo,
{
    proof {
        reveal_with_fuel(be_value, 3);
        assert(seq![hi, lo].drop_last() =~= seq![hi]);
        assert(seq![hi].drop_last() =~= seq![]);
    }
    hi as u16 * 256 + lo as u16
}

} // verus!
