//! How values travel: the bincode encoding of numbers, texts, sequences and
//! options, and the [`Wire`] trait that every message type implements.
//!
//! The scalar encodings come from the `bincode` crate in its standard
//! configuration; a structure is the concatenation of its fields, an
//! enumeration is the index of the variant followed by its fields.

use vstd::array::array_fill_for_copy_types;
use vstd::prelude::*;
use vstd::slice::slice_subrange;

verus! {

// ---------------------------------------------------------------------------
// Integers
// ---------------------------------------------------------------------------

/// The number whose digits in base 256 are `s`, least significant first.
pub open spec fn le_value(s: Seq<u8>) -> nat
    decreases s.len(),
{
    if s.len() == 0 {
        0
    } else {
        s[0] as nat + 256 * le_value(s.drop_first())
    }
}

/// The `width` low digits of `v` in base 256, least significant first.
pub open spec fn le_bytes(v: nat, width: nat) -> Seq<u8>
    decreases width,
{
    if width == 0 {
        seq![]
    } else {
        seq![(v % 256) as u8] + le_bytes(v / 256, (width - 1) as nat)
    }
}

/// Encoding of an unsigned integer: one byte up to 250, else a marker byte and
/// the shortest little-endian form that holds the value.
pub open spec fn varint_bytes(v: nat) -> Seq<u8> {
    if v <= 250 {
        seq![v as u8]
    } else if v <= 0xffff {
        seq![251u8] + le_bytes(v, 2)
    } else if v <= 0xffff_ffff {
        seq![252u8] + le_bytes(v, 4)
    } else {
        seq![253u8] + le_bytes(v, 8)
    }
}

/// How many bytes follow a marker byte; 0 where the byte is no marker.
pub open spec fn marker_width(marker: u8) -> nat {
    if marker == 251 {
        2
    } else if marker == 252 {
        4
    } else if marker == 253 {
        8
    } else {
        0
    }
}

/// The unsigned integer at the front of `b`, with the number of bytes it
/// takes. `widest` is the size in bytes of the type that is read: a marker for
/// a wider one is refused, as is an integer that is cut short.
pub open spec fn varint(b: Seq<u8>, widest: nat) -> Option<(nat, nat)> {
    if b.len() == 0 {
        None
    } else if b[0] <= 250 {
        Some((b[0] as nat, 1))
    } else {
        let w = marker_width(b[0]);
        if w == 0 || w > widest || b.len() < 1 + w {
            None
        } else {
            Some((le_value(b.subrange(1, 1 + w as int)), 1 + w))
        }
    }
}

/// The unsigned integer that stands for a signed one: twice as much, or one
/// less than twice its amount if it is negative.
pub open spec fn zigzag(v: int) -> nat {
    if v < 0 {
        (-2 * v - 1) as nat
    } else {
        (2 * v) as nat
    }
}

/// The signed integer that an unsigned one stands for.
pub open spec fn unzigzag(n: nat) -> int {
    if n % 2 == 0 {
        (n / 2) as int
    } else {
        -1 - n / 2
    }
}

proof fn lemma_le_round_trip(v: nat, width: nat)
    ensures
        le_bytes(v, width).len() == width,
        v < vstd::arithmetic::power::pow(256, width) ==> le_value(le_bytes(v, width)) == v,
    decreases width,
{
    reveal(vstd::arithmetic::power::pow);
    if width > 0 {
        let w = (width - 1) as nat;
        lemma_le_round_trip(v / 256, w);
        let s = le_bytes(v, width);
        assert(s.drop_first() =~= le_bytes(v / 256, w));
        assert(s[0] as nat == v % 256);
        if v < vstd::arithmetic::power::pow(256, width) {
            let p = vstd::arithmetic::power::pow(256, w);
            assert(vstd::arithmetic::power::pow(256, width) == 256 * p);
            assert(v / 256 < p) by (nonlinear_arith)
                requires
                    v < 256 * p,
            ;
        }
    }
}

/// An unsigned integer reads back as itself from its encoding.
pub proof fn lemma_varint_round_trip(v: nat, widest: nat, rest: Seq<u8>)
    requires
        widest == 2 && v <= 0xffff || widest == 4 && v <= 0xffff_ffff || widest == 8 && v
            <= 0xffff_ffff_ffff_ffff,
    ensures
        varint(varint_bytes(v) + rest, widest) == Some((v, varint_bytes(v).len())),
{
    let enc = varint_bytes(v);
    let b = enc + rest;
    if v > 250 {
        let w: nat = if v <= 0xffff {
            2
        } else if v <= 0xffff_ffff {
            4
        } else {
            8
        };
        lemma_le_round_trip(v, w);
        assert(b.subrange(1, 1 + w as int) =~= le_bytes(v, w));
        assert(v < vstd::arithmetic::power::pow(256, w)) by {
            reveal_with_fuel(vstd::arithmetic::power::pow, 9);
        }
    }
}

/// Text of the error with which `bincode` refuses to read a `u8` from `b`.
pub uninterp spec fn u8_refusal(b: Seq<u8>) -> Seq<char>;

/// Text of the error with which `bincode` refuses to read a `u16` from `b`.
pub uninterp spec fn u16_refusal(b: Seq<u8>) -> Seq<char>;

/// Text of the error with which `bincode` refuses to read a `u32` from `b`.
pub uninterp spec fn u32_refusal(b: Seq<u8>) -> Seq<char>;

/// Text of the error with which `bincode` refuses to read a `u64` from `b`.
pub uninterp spec fn u64_refusal(b: Seq<u8>) -> Seq<char>;

/// Text of the error with which `bincode` refuses to read an `i32` from `b`.
pub uninterp spec fn i32_refusal(b: Seq<u8>) -> Seq<char>;

/// Text of the error with which `bincode` refuses to read a `usize` from `b`.
pub uninterp spec fn usize_refusal(b: Seq<u8>) -> Seq<char>;

/// Text of the error with which `bincode` refuses to read a `bool` from `b`.
pub uninterp spec fn bool_refusal(b: Seq<u8>) -> Seq<char>;

/// Text of the error with which `bincode` refuses to read the presence byte of
/// an `Option` from `b`.
pub uninterp spec fn option_refusal(b: Seq<u8>) -> Seq<char>;

/// Text of the error with which `bincode` refuses to read a `String` from `b`
/// when all the bytes of the string are there.
pub uninterp spec fn string_refusal(b: Seq<u8>) -> Seq<char>;

/// Text of the error with which `bincode` reports that `additional` bytes are
/// missing.
pub uninterp spec fn missing_refusal(additional: usize) -> Seq<char>;

/// Text of the error with which `bincode` reports that the integer `found`
/// stands where `expected` was called for.
pub uninterp spec fn variant_refusal(found: u32, expected: Seq<char>) -> Seq<char>;

/// Text of the error that `bincode` makes of a message of `serde`'s when it
/// reads.
pub uninterp spec fn custom_refusal(message: Seq<char>) -> Seq<char>;

/// Text of the error that `bincode` makes of a message of `serde`'s when it
/// writes.
pub uninterp spec fn encode_refusal(message: Seq<char>) -> Seq<char>;

/// Text of the error for a value that has no encoding.
pub open spec fn no_encoding() -> Seq<char> {
    encode_refusal("SystemTime must be later than UNIX_EPOCH"@)
}

/// `bincode::serde::encode_to_vec` on a `u16`: writing to a vector does not
/// fail, and the bytes are those of the variable-length encoding.
#[verifier::external_body]
fn bincode_u16(v: u16) -> (r: Vec<u8>)
    ensures
        r@ == varint_bytes(v as nat),
{
    bincode::serde::encode_to_vec(v, bincode::config::standard()).unwrap()
}

/// `bincode::serde::encode_to_vec` on a `u32`; as for [`bincode_u16`].
#[verifier::external_body]
fn bincode_u32(v: u32) -> (r: Vec<u8>)
    ensures
        r@ == varint_bytes(v as nat),
{
    bincode::serde::encode_to_vec(v, bincode::config::standard()).unwrap()
}

/// `bincode::serde::encode_to_vec` on a `u64`; as for [`bincode_u16`].
#[verifier::external_body]
fn bincode_u64(v: u64) -> (r: Vec<u8>)
    ensures
        r@ == varint_bytes(v as nat),
{
    bincode::serde::encode_to_vec(v, bincode::config::standard()).unwrap()
}

/// `bincode::serde::encode_to_vec` on an `i32`: as for [`bincode_u16`], with
/// the unsigned integer that stands for it.
#[verifier::external_body]
fn bincode_i32(v: i32) -> (r: Vec<u8>)
    ensures
        r@ == varint_bytes(zigzag(v as int)),
{
    bincode::serde::encode_to_vec(v, bincode::config::standard()).unwrap()
}

/// `bincode::serde::encode_to_vec` on a text: its length in bytes, then its
/// UTF-8 bytes.
#[verifier::external_body]
fn bincode_str(s: &str) -> (r: Vec<u8>)
    ensures
        r@ == text_bytes(s@),
{
    bincode::serde::encode_to_vec(s, bincode::config::standard()).unwrap()
}

/// `bincode::serde::decode_from_slice` at `u8`: the first byte, if there is one.
#[verifier::external_body]
fn bincode_read_u8(b: &[u8]) -> (r: Result<(u8, usize), String>)
    ensures
        match r {
            Ok((v, used)) => b@.len() > 0 && v == b@[0] && used == 1,
            Err(text) => b@.len() == 0 && text@ == u8_refusal(b@),
        },
{
    bincode::serde::decode_from_slice(b, bincode::config::standard()).map_err(|e| e.to_string())
}

/// `bincode::serde::decode_from_slice` at `u16`: the integer at the front, with
/// the number of bytes read, or the text of the error.
#[verifier::external_body]
fn bincode_read_u16(b: &[u8]) -> (r: Result<(u16, usize), String>)
    ensures
        match r {
            Ok((v, used)) => varint(b@, 2) == Some((v as nat, used as nat)),
            Err(text) => varint(b@, 2) is None && text@ == u16_refusal(b@),
        },
{
    bincode::serde::decode_from_slice(b, bincode::config::standard()).map_err(|e| e.to_string())
}

/// `bincode::serde::decode_from_slice` at `u32`; as for [`bincode_read_u16`].
#[verifier::external_body]
fn bincode_read_u32(b: &[u8]) -> (r: Result<(u32, usize), String>)
    ensures
        match r {
            Ok((v, used)) => varint(b@, 4) == Some((v as nat, used as nat)),
            Err(text) => varint(b@, 4) is None && text@ == u32_refusal(b@),
        },
{
    bincode::serde::decode_from_slice(b, bincode::config::standard()).map_err(|e| e.to_string())
}

/// `bincode::serde::decode_from_slice` at `u64`; as for [`bincode_read_u16`].
#[verifier::external_body]
fn bincode_read_u64(b: &[u8]) -> (r: Result<(u64, usize), String>)
    ensures
        match r {
            Ok((v, used)) => varint(b@, 8) == Some((v as nat, used as nat)),
            Err(text) => varint(b@, 8) is None && text@ == u64_refusal(b@),
        },
{
    bincode::serde::decode_from_slice(b, bincode::config::standard()).map_err(|e| e.to_string())
}

/// `bincode::serde::decode_from_slice` at `i32`: the signed integer that the
/// unsigned one stands for, which is read as by [`bincode_read_u32`].
#[verifier::external_body]
fn bincode_read_i32(b: &[u8]) -> (r: Result<(i32, usize), String>)
    ensures
        match r {
            Ok((v, used)) => varint(b@, 4) matches Some((n, k)) && v == unzigzag(n) && used == k,
            Err(text) => varint(b@, 4) is None && text@ == i32_refusal(b@),
        },
{
    bincode::serde::decode_from_slice(b, bincode::config::standard()).map_err(|e| e.to_string())
}

/// `bincode::decode_from_slice` at `usize`, the type in which the number of
/// items of a sequence is read: a 64-bit integer of which the machine keeps
/// the low bits that its `usize` holds.
#[verifier::external_body]
fn bincode_read_usize(b: &[u8]) -> (r: Result<(usize, usize), String>)
    ensures
        match r {
            Ok((v, used)) => varint(b@, 8) matches Some((n, k)) && v == n % (usize::MAX + 1) as nat
                && used == k,
            Err(text) => varint(b@, 8) is None && text@ == usize_refusal(b@),
        },
{
    bincode::decode_from_slice(b, bincode::config::standard()).map_err(|e| e.to_string())
}

/// `bincode::serde::decode_from_slice` at `bool`: one byte, 0 or 1.
#[verifier::external_body]
fn bincode_read_bool(b: &[u8]) -> (r: Result<(bool, usize), String>)
    ensures
        match r {
            Ok((v, used)) => b@.len() > 0 && b@[0] == (if v { 1u8 } else { 0u8 }) && used == 1,
            Err(text) => (b@.len() == 0 || b@[0] > 1) && text@ == bool_refusal(b@),
        },
{
    bincode::serde::decode_from_slice(b, bincode::config::standard()).map_err(|e| e.to_string())
}

/// `bincode::serde::decode_from_slice` at `Option<()>`: one byte, 1 where a
/// value follows and 0 where none does.
#[verifier::external_body]
fn bincode_read_option(b: &[u8]) -> (r: Result<(Option<()>, usize), String>)
    ensures
        match r {
            Ok((v, used)) => b@.len() > 0 && b@[0] == (if v is Some { 1u8 } else { 0u8 }) && used
                == 1,
            Err(text) => (b@.len() == 0 || b@[0] > 1) && text@ == option_refusal(b@),
        },
{
    bincode::serde::decode_from_slice(b, bincode::config::standard()).map_err(|e| e.to_string())
}

/// `bincode::serde::decode_from_slice` at `String`, on bytes that hold as many
/// as the length in front announces. (It allocates that many before it looks,
/// so a length beyond the input is not handed to it.) It gives the text, or an
/// error where the bytes are not UTF-8.
#[verifier::external_body]
fn bincode_read_string(b: &[u8]) -> (r: Result<(String, usize), String>)
    requires
        varint(b@, 8) matches Some((n, k)) && k + n <= b@.len(),
    ensures
        ({
            let (n, k) = varint(b@, 8)->0;
            let body = b@.subrange(k as int, (k + n) as int);
            match r {
                Ok((s, used)) => vstd::utf8::valid_utf8(body) && s@ == vstd::utf8::decode_utf8(body)
                    && used == k + n,
                Err(text) => !vstd::utf8::valid_utf8(body) && text@ == string_refusal(b@),
            }
        }),
{
    bincode::serde::decode_from_slice(b, bincode::config::standard()).map_err(|e| e.to_string())
}

/// The text of `bincode::error::DecodeError::UnexpectedEnd`.
#[verifier::external_body]
fn bincode_missing(additional: usize) -> (r: String)
    ensures
        r@ == missing_refusal(additional),
{
    bincode::error::DecodeError::UnexpectedEnd { additional }.to_string()
}

/// The text of the `bincode::error::DecodeError` that
/// `serde::de::Error::invalid_value` makes of an unsigned integer.
#[verifier::external_body]
pub(crate) fn bincode_bad_variant(found: u32, expected: &str) -> (r: String)
    ensures
        r@ == variant_refusal(found, expected@),
{
    let unexpected = serde::de::Unexpected::Unsigned(found as u64);
    let e: bincode::error::DecodeError = serde::de::Error::invalid_value(unexpected, &expected);
    e.to_string()
}

/// The text of the `bincode::error::DecodeError` that
/// `serde::de::Error::custom` makes of a message.
#[verifier::external_body]
pub(crate) fn bincode_custom(message: &str) -> (r: String)
    ensures
        r@ == custom_refusal(message@),
{
    let e: bincode::error::DecodeError = serde::de::Error::custom(message);
    e.to_string()
}

/// The text of the `bincode::error::EncodeError` that
/// `serde::ser::Error::custom` makes of a message.
#[verifier::external_body]
fn bincode_encode_custom(message: &str) -> (r: String)
    ensures
        r@ == encode_refusal(message@),
{
    let e: bincode::error::EncodeError = serde::ser::Error::custom(message);
    e.to_string()
}

/// The text of the error for a value that has no encoding.
pub fn no_encoding_text() -> (r: String)
    ensures
        r@ == no_encoding(),
{
    bincode_encode_custom("SystemTime must be later than UNIX_EPOCH")
}

/// Encoding of a text.
pub open spec fn text_bytes(s: Seq<char>) -> Seq<u8> {
    varint_bytes(vstd::utf8::encode_utf8(s).len()) + vstd::utf8::encode_utf8(s)
}

/// The text at the front of `b`, with what follows it.
pub open spec fn text_parse(b: Seq<u8>) -> Result<(Seq<char>, Seq<u8>), Seq<char>> {
    match varint(b, 8) {
        None => Err(u64_refusal(b)),
        Some((n, k)) => if k + n > b.len() {
            let additional = k + n - b.len();
            Err(missing_refusal(if additional > usize::MAX {
                usize::MAX
            } else {
                additional as usize
            }))
        } else {
            let body = b.subrange(k as int, (k + n) as int);
            if vstd::utf8::valid_utf8(body) {
                Ok((vstd::utf8::decode_utf8(body), b.skip((k + n) as int)))
            } else {
                Err(string_refusal(b))
            }
        },
    }
}

/// How many items a sequence at the front of `b` announces, with what follows.
pub open spec fn count_parse(b: Seq<u8>) -> Result<(nat, Seq<u8>), Seq<char>> {
    match varint(b, 8) {
        None => Err(usize_refusal(b)),
        Some((n, k)) => Ok((n % (usize::MAX + 1) as nat, b.skip(k as int))),
    }
}

fn skip(b: &[u8], n: usize) -> (r: &[u8])
    requires
        n <= b@.len(),
    ensures
        r@ == b@.skip(n as int),
{
    slice_subrange(b, n, b.len())
}

// ---------------------------------------------------------------------------
// The trait of message types
// ---------------------------------------------------------------------------

/// A type whose values can be written to and read from the wire.
pub trait Wire: DeepView + Sized {
    /// The encoding of a value that has one.
    spec fn wire(v: Self::V) -> Seq<u8>;

    /// The value at the front of `b` with the bytes behind it, or the text of
    /// the error for which `b` is refused.
    spec fn parse(b: Seq<u8>) -> Result<(Self::V, Seq<u8>), Seq<char>>;

    /// The values that read back as themselves.
    spec fn fits(v: Self::V) -> bool;

    /// Whether a value has an encoding. A time before the epoch has none, nor
    /// has what holds one.
    spec fn encodable(v: Self::V) -> bool;

    /// A value that fits has an encoding, and reads back as itself from it,
    /// whatever follows.
    proof fn round_trip(v: Self::V, rest: Seq<u8>)
        requires
            Self::fits(v),
        ensures
            Self::encodable(v),
            Self::parse(Self::wire(v) + rest) == Ok::<(Self::V, Seq<u8>), Seq<char>>((v, rest)),
    ;

    /// Whether the value has an encoding.
    fn is_encodable(&self) -> (r: bool)
        ensures
            r == Self::encodable(self.deep_view()),
    ;

    /// Appends the encoding of the value.
    fn encode(&self, out: &mut Vec<u8>)
        requires
            Self::encodable(self.deep_view()),
        ensures
            final(out)@ == old(out)@ + Self::wire(self.deep_view()),
    ;

    /// Reads the value at the front of `b`.
    fn decode(b: &[u8]) -> (r: Result<(Self, &[u8]), String>)
        ensures
            match r {
                Ok((v, rest)) => Self::parse(b@) == Ok::<(Self::V, Seq<u8>), Seq<char>>(
                    (v.deep_view(), rest@),
                ),
                Err(text) => Self::parse(b@) == Err::<(Self::V, Seq<u8>), Seq<char>>(text@),
            },
    ;
}

impl Wire for u8 {
    open spec fn wire(v: u8) -> Seq<u8> {
        seq![v]
    }

    open spec fn parse(b: Seq<u8>) -> Result<(u8, Seq<u8>), Seq<char>> {
        if b.len() == 0 {
            Err(u8_refusal(b))
        } else {
            Ok((b[0], b.skip(1)))
        }
    }

    open spec fn fits(v: u8) -> bool {
        true
    }

    open spec fn encodable(v: u8) -> bool {
        true
    }

    proof fn round_trip(v: u8, rest: Seq<u8>) {
        assert((seq![v] + rest).skip(1) =~= rest);
    }

    fn is_encodable(&self) -> (r: bool) {
        true
    }

    fn encode(&self, out: &mut Vec<u8>) {
        out.push(*self);
        assert(out@ =~= old(out)@ + seq![*self]);
    }

    fn decode(b: &[u8]) -> (r: Result<(u8, &[u8]), String>) {
        match bincode_read_u8(b) {
            Ok((v, used)) => Ok((v, skip(b, used))),
            Err(text) => Err(text),
        }
    }
}

impl Wire for u16 {
    open spec fn wire(v: u16) -> Seq<u8> {
        varint_bytes(v as nat)
    }

    open spec fn parse(b: Seq<u8>) -> Result<(u16, Seq<u8>), Seq<char>> {
        match varint(b, 2) {
            Some((n, k)) => Ok((n as u16, b.skip(k as int))),
            None => Err(u16_refusal(b)),
        }
    }

    open spec fn fits(v: u16) -> bool {
        true
    }

    open spec fn encodable(v: u16) -> bool {
        true
    }

    proof fn round_trip(v: u16, rest: Seq<u8>) {
        lemma_varint_round_trip(v as nat, 2, rest);
        let enc = varint_bytes(v as nat);
        assert((enc + rest).skip(enc.len() as int) =~= rest);
    }

    fn is_encodable(&self) -> (r: bool) {
        true
    }

    fn encode(&self, out: &mut Vec<u8>) {
        let mut bytes = bincode_u16(*self);
        out.append(&mut bytes);
    }

    fn decode(b: &[u8]) -> (r: Result<(u16, &[u8]), String>) {
        match bincode_read_u16(b) {
            Ok((v, used)) => Ok((v, skip(b, used))),
            Err(text) => Err(text),
        }
    }
}

impl Wire for u32 {
    open spec fn wire(v: u32) -> Seq<u8> {
        varint_bytes(v as nat)
    }

    open spec fn parse(b: Seq<u8>) -> Result<(u32, Seq<u8>), Seq<char>> {
        match varint(b, 4) {
            Some((n, k)) => Ok((n as u32, b.skip(k as int))),
            None => Err(u32_refusal(b)),
        }
    }

    open spec fn fits(v: u32) -> bool {
        true
    }

    open spec fn encodable(v: u32) -> bool {
        true
    }

    proof fn round_trip(v: u32, rest: Seq<u8>) {
        lemma_varint_round_trip(v as nat, 4, rest);
        let enc = varint_bytes(v as nat);
        assert((enc + rest).skip(enc.len() as int) =~= rest);
    }

    fn is_encodable(&self) -> (r: bool) {
        true
    }

    fn encode(&self, out: &mut Vec<u8>) {
        let mut bytes = bincode_u32(*self);
        out.append(&mut bytes);
    }

    fn decode(b: &[u8]) -> (r: Result<(u32, &[u8]), String>) {
        match bincode_read_u32(b) {
            Ok((v, used)) => Ok((v, skip(b, used))),
            Err(text) => Err(text),
        }
    }
}

impl Wire for i32 {
    open spec fn wire(v: i32) -> Seq<u8> {
        varint_bytes(zigzag(v as int))
    }

    open spec fn parse(b: Seq<u8>) -> Result<(i32, Seq<u8>), Seq<char>> {
        match varint(b, 4) {
            Some((n, k)) => Ok((unzigzag(n) as i32, b.skip(k as int))),
            None => Err(i32_refusal(b)),
        }
    }

    open spec fn fits(v: i32) -> bool {
        true
    }

    open spec fn encodable(v: i32) -> bool {
        true
    }

    proof fn round_trip(v: i32, rest: Seq<u8>) {
        lemma_varint_round_trip(zigzag(v as int), 4, rest);
        let enc = varint_bytes(zigzag(v as int));
        assert((enc + rest).skip(enc.len() as int) =~= rest);
    }

    fn is_encodable(&self) -> (r: bool) {
        true
    }

    fn encode(&self, out: &mut Vec<u8>) {
        let mut bytes = bincode_i32(*self);
        out.append(&mut bytes);
    }

    fn decode(b: &[u8]) -> (r: Result<(i32, &[u8]), String>) {
        match bincode_read_i32(b) {
            Ok((v, used)) => Ok((v, skip(b, used))),
            Err(text) => Err(text),
        }
    }
}

impl Wire for u64 {
    open spec fn wire(v: u64) -> Seq<u8> {
        varint_bytes(v as nat)
    }

    open spec fn parse(b: Seq<u8>) -> Result<(u64, Seq<u8>), Seq<char>> {
        match varint(b, 8) {
            Some((n, k)) => Ok((n as u64, b.skip(k as int))),
            None => Err(u64_refusal(b)),
        }
    }

    open spec fn fits(v: u64) -> bool {
        true
    }

    open spec fn encodable(v: u64) -> bool {
        true
    }

    proof fn round_trip(v: u64, rest: Seq<u8>) {
        lemma_varint_round_trip(v as nat, 8, rest);
        let enc = varint_bytes(v as nat);
        assert((enc + rest).skip(enc.len() as int) =~= rest);
    }

    fn is_encodable(&self) -> (r: bool) {
        true
    }

    fn encode(&self, out: &mut Vec<u8>) {
        let mut bytes = bincode_u64(*self);
        out.append(&mut bytes);
    }

    fn decode(b: &[u8]) -> (r: Result<(u64, &[u8]), String>) {
        match bincode_read_u64(b) {
            Ok((v, used)) => Ok((v, skip(b, used))),
            Err(text) => Err(text),
        }
    }
}

impl Wire for bool {
    open spec fn wire(v: bool) -> Seq<u8> {
        seq![if v { 1u8 } else { 0u8 }]
    }

    open spec fn parse(b: Seq<u8>) -> Result<(bool, Seq<u8>), Seq<char>> {
        if b.len() == 0 || b[0] > 1 {
            Err(bool_refusal(b))
        } else {
            Ok((b[0] == 1, b.skip(1)))
        }
    }

    open spec fn fits(v: bool) -> bool {
        true
    }

    open spec fn encodable(v: bool) -> bool {
        true
    }

    proof fn round_trip(v: bool, rest: Seq<u8>) {
        assert((Self::wire(v) + rest).skip(1) =~= rest);
    }

    fn is_encodable(&self) -> (r: bool) {
        true
    }

    fn encode(&self, out: &mut Vec<u8>) {
        let byte: u8 = if *self { 1 } else { 0 };
        out.push(byte);
        assert(out@ =~= old(out)@ + Self::wire(*self));
    }

    fn decode(b: &[u8]) -> (r: Result<(bool, &[u8]), String>) {
        match bincode_read_bool(b) {
            Ok((v, used)) => Ok((v, skip(b, used))),
            Err(text) => Err(text),
        }
    }
}

impl Wire for String {
    open spec fn wire(v: Seq<char>) -> Seq<u8> {
        text_bytes(v)
    }

    open spec fn parse(b: Seq<u8>) -> Result<(Seq<char>, Seq<u8>), Seq<char>> {
        text_parse(b)
    }

    open spec fn fits(v: Seq<char>) -> bool {
        vstd::utf8::encode_utf8(v).len() <= 0xffff_ffff_ffff_ffff
    }

    open spec fn encodable(v: Seq<char>) -> bool {
        true
    }

    proof fn round_trip(v: Seq<char>, rest: Seq<u8>) {
        let body = vstd::utf8::encode_utf8(v);
        let head = varint_bytes(body.len());
        let b = text_bytes(v) + rest;
        assert(b =~= head + (body + rest));
        lemma_varint_round_trip(body.len(), 8, body + rest);
        assert(b.subrange(head.len() as int, (head.len() + body.len()) as int) =~= body);
        assert(b.skip((head.len() + body.len()) as int) =~= rest);
        vstd::utf8::encode_utf8_valid_utf8(v);
        vstd::utf8::encode_utf8_decode_utf8(v);
    }

    fn is_encodable(&self) -> (r: bool) {
        true
    }

    fn encode(&self, out: &mut Vec<u8>) {
        let mut bytes = bincode_str(self.as_str());
        out.append(&mut bytes);
    }

    fn decode(b: &[u8]) -> (r: Result<(String, &[u8]), String>) {
        match bincode_read_u64(b) {
            Err(text) => Err(text),
            Ok((n, used)) => {
                let left: usize = b.len() - used;
                if n > left as u64 {
                    let missing: u64 = n - left as u64;
                    if missing > usize::MAX as u64 {
                        Err(bincode_missing(usize::MAX))
                    } else {
                        Err(bincode_missing(missing as usize))
                    }
                } else {
                    match bincode_read_string(b) {
                        Ok((s, all)) => Ok((s, skip(b, all))),
                        Err(text) => Err(text),
                    }
                }
            },
        }
    }
}

impl<T: Wire> Wire for Option<T> {
    open spec fn wire(v: Option<T::V>) -> Seq<u8> {
        match v {
            Some(t) => seq![1u8] + T::wire(t),
            None => seq![0u8],
        }
    }

    open spec fn parse(b: Seq<u8>) -> Result<(Option<T::V>, Seq<u8>), Seq<char>> {
        if b.len() == 0 || b[0] > 1 {
            Err(option_refusal(b))
        } else if b[0] == 0 {
            Ok((None, b.skip(1)))
        } else {
            match T::parse(b.skip(1)) {
                Ok((t, rest)) => Ok((Some(t), rest)),
                Err(text) => Err(text),
            }
        }
    }

    open spec fn fits(v: Option<T::V>) -> bool {
        v matches Some(t) ==> T::fits(t)
    }

    open spec fn encodable(v: Option<T::V>) -> bool {
        v matches Some(t) ==> T::encodable(t)
    }

    proof fn round_trip(v: Option<T::V>, rest: Seq<u8>) {
        let b = Self::wire(v) + rest;
        match v {
            Some(t) => {
                T::round_trip(t, rest);
                assert(b.skip(1) =~= T::wire(t) + rest);
            },
            None => {
                assert(b.skip(1) =~= rest);
            },
        }
    }

    fn is_encodable(&self) -> (r: bool) {
        match self {
            Some(t) => t.is_encodable(),
            None => true,
        }
    }

    fn encode(&self, out: &mut Vec<u8>) {
        match self {
            Some(t) => {
                out.push(1u8);
                t.encode(out);
                assert(out@ =~= old(out)@ + (seq![1u8] + T::wire(t.deep_view())));
            },
            None => {
                out.push(0u8);
                assert(out@ =~= old(out)@ + seq![0u8]);
            },
        }
    }

    fn decode(b: &[u8]) -> (r: Result<(Option<T>, &[u8]), String>) {
        match bincode_read_option(b) {
            Err(text) => Err(text),
            Ok((None, used)) => Ok((None, skip(b, used))),
            Ok((Some(_), used)) => match T::decode(skip(b, used)) {
                Ok((t, rest)) => Ok((Some(t), rest)),
                Err(text) => Err(text),
            },
        }
    }
}

/// The encodings of the items of `s`, one after the other.
pub open spec fn items_wire<T: Wire>(s: Seq<T::V>) -> Seq<u8>
    decreases s.len(),
{
    if s.len() == 0 {
        seq![]
    } else {
        T::wire(s[0]) + items_wire::<T>(s.drop_first())
    }
}

/// The `n` items at the front of `b`, with what follows them.
pub open spec fn items_parse<T: Wire>(b: Seq<u8>, n: nat) -> Result<
    (Seq<T::V>, Seq<u8>),
    Seq<char>,
>
    decreases n,
{
    if n == 0 {
        Ok((seq![], b))
    } else {
        match T::parse(b) {
            Err(text) => Err(text),
            Ok((t, rest)) => match items_parse::<T>(rest, (n - 1) as nat) {
                Err(text) => Err(text),
                Ok((ts, end)) => Ok((seq![t] + ts, end)),
            },
        }
    }
}

proof fn lemma_items_round_trip<T: Wire>(s: Seq<T::V>, rest: Seq<u8>)
    requires
        forall|i: int| 0 <= i < s.len() ==> T::fits(#[trigger] s[i]),
    ensures
        items_parse::<T>(items_wire::<T>(s) + rest, s.len()) == Ok::<
            (Seq<T::V>, Seq<u8>),
            Seq<char>,
        >((s, rest)),
    decreases s.len(),
{
    if s.len() == 0 {
        assert(items_wire::<T>(s) + rest =~= rest);
        assert(s =~= seq![]);
    } else {
        let tail = s.drop_first();
        assert forall|i: int| 0 <= i < tail.len() implies T::fits(#[trigger] tail[i]) by {
            assert(tail[i] == s[i + 1]);
        }
        lemma_items_round_trip::<T>(tail, rest);
        T::round_trip(s[0], items_wire::<T>(tail) + rest);
        assert(items_wire::<T>(s) + rest =~= T::wire(s[0]) + (items_wire::<T>(tail) + rest));
        assert(seq![s[0]] + tail =~= s);
    }
}

impl<T: Wire> Wire for Vec<T> {
    open spec fn wire(v: Seq<T::V>) -> Seq<u8> {
        varint_bytes(v.len()) + items_wire::<T>(v)
    }

    open spec fn parse(b: Seq<u8>) -> Result<(Seq<T::V>, Seq<u8>), Seq<char>> {
        match count_parse(b) {
            Err(text) => Err(text),
            Ok((n, rest)) => items_parse::<T>(rest, n),
        }
    }

    open spec fn fits(v: Seq<T::V>) -> bool {
        &&& v.len() <= usize::MAX
        &&& forall|i: int| 0 <= i < v.len() ==> T::fits(#[trigger] v[i])
    }

    open spec fn encodable(v: Seq<T::V>) -> bool {
        forall|i: int| 0 <= i < v.len() ==> T::encodable(#[trigger] v[i])
    }

    proof fn round_trip(v: Seq<T::V>, rest: Seq<u8>) {
        let head = varint_bytes(v.len());
        let tail = items_wire::<T>(v) + rest;
        assert(Self::wire(v) + rest =~= head + tail);
        lemma_varint_round_trip(v.len(), 8, tail);
        assert((head + tail).skip(head.len() as int) =~= tail);
        assert(v.len() % (usize::MAX + 1) as nat == v.len()) by {
            vstd::arithmetic::div_mod::lemma_small_mod(v.len(), (usize::MAX + 1) as nat);
        }
        lemma_items_round_trip::<T>(v, rest);
        assert forall|i: int| 0 <= i < v.len() implies T::encodable(#[trigger] v[i]) by {
            T::round_trip(v[i], rest);
        }
    }

    fn is_encodable(&self) -> (r: bool) {
        let ghost s = self.deep_view();
        let mut i: usize = 0;
        while i < self.len()
            invariant
                i <= self.len(),
                s == self.deep_view(),
                forall|k: int| 0 <= k < i ==> T::encodable(#[trigger] s[k]),
            decreases self.len() - i,
        {
            assert(s[i as int] == self@[i as int].deep_view());
            if !self[i].is_encodable() {
                return false;
            }
            i += 1;
        }
        true
    }

    fn encode(&self, out: &mut Vec<u8>) {
        let ghost s = self.deep_view();
        let mut head = bincode_u64(self.len() as u64);
        out.append(&mut head);
        let ghost start = old(out)@ + varint_bytes(s.len());
        let mut i: usize = 0;
        assert(s.skip(0) =~= s);
        while i < self.len()
            invariant
                i <= self.len(),
                s == self.deep_view(),
                forall|k: int| 0 <= k < s.len() ==> T::encodable(#[trigger] s[k]),
                start + items_wire::<T>(s) == out@ + items_wire::<T>(s.skip(i as int)),
            decreases self.len() - i,
        {
            let ghost before = out@;
            assert(s[i as int] == self@[i as int].deep_view());
            self[i].encode(out);
            proof {
                let tail = s.skip(i as int);
                assert(tail[0] == self@[i as int].deep_view());
                assert(tail.drop_first() =~= s.skip(i + 1));
                assert(before + (T::wire(tail[0]) + items_wire::<T>(s.skip(i + 1))) =~= (before
                    + T::wire(tail[0])) + items_wire::<T>(s.skip(i + 1)));
            }
            i += 1;
        }
        proof {
            assert(s.skip(s.len() as int) =~= seq![]);
            assert(out@ + items_wire::<T>(s.skip(s.len() as int)) =~= out@);
            assert(start + items_wire::<T>(s) =~= old(out)@ + (varint_bytes(s.len())
                + items_wire::<T>(s)));
        }
    }

    fn decode(b: &[u8]) -> (r: Result<(Vec<T>, &[u8]), String>) {
        match bincode_read_usize(b) {
            Err(text) => Err(text),
            Ok((n, used)) => {
                let mut items: Vec<T> = Vec::new();
                let mut rest = skip(b, used);
                let ghost first = rest@;
                let mut i: usize = 0;
                assert(items.deep_view() =~= seq![]);
                proof {
                    match items_parse::<T>(rest@, n as nat) {
                        Ok((ts, end)) => {
                            assert(items.deep_view() + ts =~= ts);
                        },
                        Err(_) => {},
                    }
                }
                while i < n
                    invariant
                        i <= n,
                        items_parse::<T>(first, n as nat) == (match items_parse::<T>(
                            rest@,
                            (n - i) as nat,
                        ) {
                            Ok((ts, end)) => Ok::<(Seq<T::V>, Seq<u8>), Seq<char>>(
                                (items.deep_view() + ts, end),
                            ),
                            Err(text) => Err(text),
                        }),
                        Self::parse(b@) == items_parse::<T>(first, n as nat),
                    decreases n - i,
                {
                    let ghost so_far = items.deep_view();
                    match T::decode(rest) {
                        Err(text) => {
                            return Err(text);
                        },
                        Ok((t, after)) => {
                            let ghost m = t.deep_view();
                            items.push(t);
                            rest = after;
                            proof {
                                assert(items.deep_view() =~= so_far.push(m));
                                match items_parse::<T>(rest@, (n - i - 1) as nat) {
                                    Ok((ts, end)) => {
                                        assert(so_far + (seq![m] + ts) =~= items.deep_view() + ts);
                                    },
                                    Err(_) => {},
                                }
                            }
                        },
                    }
                    i += 1;
                }
                assert(items.deep_view() + Seq::<T::V>::empty() =~= items.deep_view());
                Ok((items, rest))
            },
        }
    }
}

impl<A: Wire, B: Wire> Wire for (A, B) {
    open spec fn wire(v: (A::V, B::V)) -> Seq<u8> {
        A::wire(v.0) + B::wire(v.1)
    }

    open spec fn parse(b: Seq<u8>) -> Result<((A::V, B::V), Seq<u8>), Seq<char>> {
        match A::parse(b) {
            Err(text) => Err(text),
            Ok((x, rest)) => match B::parse(rest) {
                Err(text) => Err(text),
                Ok((y, end)) => Ok(((x, y), end)),
            },
        }
    }

    open spec fn fits(v: (A::V, B::V)) -> bool {
        A::fits(v.0) && B::fits(v.1)
    }

    open spec fn encodable(v: (A::V, B::V)) -> bool {
        A::encodable(v.0) && B::encodable(v.1)
    }

    proof fn round_trip(v: (A::V, B::V), rest: Seq<u8>) {
        A::round_trip(v.0, B::wire(v.1) + rest);
        B::round_trip(v.1, rest);
        assert(Self::wire(v) + rest =~= A::wire(v.0) + (B::wire(v.1) + rest));
    }

    fn is_encodable(&self) -> (r: bool) {
        self.0.is_encodable() && self.1.is_encodable()
    }

    fn encode(&self, out: &mut Vec<u8>) {
        self.0.encode(out);
        self.1.encode(out);
        assert(out@ =~= old(out)@ + Self::wire(self.deep_view()));
    }

    fn decode(b: &[u8]) -> (r: Result<((A, B), &[u8]), String>) {
        match A::decode(b) {
            Err(text) => Err(text),
            Ok((x, rest)) => match B::decode(rest) {
                Err(text) => Err(text),
                Ok((y, end)) => Ok(((x, y), end)),
            },
        }
    }
}

/// The first `n` bytes of `b`, each read as a `u8`, with what follows them.
pub open spec fn octets_parse(b: Seq<u8>, n: nat) -> Result<(Seq<u8>, Seq<u8>), Seq<char>> {
    if b.len() < n {
        Err(u8_refusal(seq![]))
    } else {
        Ok((b.take(n as int), b.skip(n as int)))
    }
}

/// Reads `n` bytes.
pub fn decode_octets(b: &[u8], n: usize) -> (r: Result<(&[u8], &[u8]), String>)
    ensures
        match r {
            Ok((front, rest)) => octets_parse(b@, n as nat) == Ok::<
                (Seq<u8>, Seq<u8>),
                Seq<char>,
            >((front@, rest@)),
            Err(text) => octets_parse(b@, n as nat) == Err::<(Seq<u8>, Seq<u8>), Seq<char>>(text@),
        },
{
    if b.len() < n {
        let end = skip(b, b.len());
        assert(end@ =~= seq![]);
        match bincode_read_u8(end) {
            // Nothing is left to be read.
            Ok((_, _)) => Ok((end, end)),
            Err(text) => Err(text),
        }
    } else {
        Ok((slice_subrange(b, 0, n), skip(b, n)))
    }
}

impl<const N: usize> Wire for [u8; N] {
    open spec fn wire(v: Seq<u8>) -> Seq<u8> {
        v
    }

    open spec fn parse(b: Seq<u8>) -> Result<(Seq<u8>, Seq<u8>), Seq<char>> {
        octets_parse(b, N as nat)
    }

    open spec fn fits(v: Seq<u8>) -> bool {
        v.len() == N
    }

    open spec fn encodable(v: Seq<u8>) -> bool {
        true
    }

    proof fn round_trip(v: Seq<u8>, rest: Seq<u8>) {
        assert(<[u8; N] as Wire>::fits(v));
        assert(<[u8; N] as Wire>::encodable(v));
        assert(<[u8; N] as Wire>::wire(v) == v);
        assert(<[u8; N] as Wire>::parse(v + rest) == octets_parse(v + rest, N as nat));
        assert((v + rest).take(N as int) =~= v);
        assert((v + rest).skip(N as int) =~= rest);
    }

    fn is_encodable(&self) -> (r: bool) {
        true
    }

    fn encode(&self, out: &mut Vec<u8>) {
        out.extend_from_slice(self.as_slice());
        assert(self.deep_view() =~= self@);
        assert(out@ =~= old(out)@ + self@);
    }

    fn decode(b: &[u8]) -> (r: Result<([u8; N], &[u8]), String>) {
        match decode_octets(b, N) {
            Err(text) => Err(text),
            Ok((front, rest)) => {
                let mut a: [u8; N] = array_fill_for_copy_types(0u8);
                let mut i: usize = 0;
                while i < N
                    invariant
                        i <= N,
                        front@.len() == N,
                        forall|j: int| 0 <= j < i ==> a@[j] == front@[j],
                    decreases N - i,
                {
                    a[i] = front[i];
                    i += 1;
                }
                assert(a.deep_view() =~= front@);
                Ok((a, rest))
            },
        }
    }
}

/// A short text fits.
pub proof fn lemma_short_text(s: Seq<char>)
    requires
        s.len() <= 0xffff,
    ensures
        <String as Wire>::fits(s),
{
    lemma_utf8_len(s);
}

proof fn lemma_utf8_len(s: Seq<char>)
    ensures
        vstd::utf8::encode_utf8(s).len() <= 4 * s.len(),
    decreases s.len(),
{
    if s.len() > 0 {
        lemma_utf8_len(s.drop_first());
    }
}

/// A vector of bytes is its own model.
pub proof fn lemma_bytes_deep(v: Vec<u8>)
    ensures
        v.deep_view() == v@,
{
    assert(v.deep_view() =~= v@);
}

/// The value that `b` starts with, whatever follows it.
pub open spec fn front<T: Wire>(b: Seq<u8>) -> Result<T::V, Seq<char>> {
    match T::parse(b) {
        Ok((v, _)) => Ok(v),
        Err(text) => Err(text),
    }
}

/// The encoding of a value.
pub fn to_vec<T: Wire>(v: &T) -> (r: Vec<u8>)
    requires
        T::encodable(v.deep_view()),
    ensures
        r@ == T::wire(v.deep_view()),
{
    let mut out: Vec<u8> = Vec::new();
    v.encode(&mut out);
    assert(out@ =~= T::wire(v.deep_view()));
    out
}

/// Reads the value that `b` starts with and ignores what follows it.
pub fn from_slice<T: Wire>(b: &[u8]) -> (r: Result<T, String>)
    ensures
        match r {
            Ok(v) => front::<T>(b@) == Ok::<T::V, Seq<char>>(v.deep_view()),
            Err(text) => front::<T>(b@) == Err::<T::V, Seq<char>>(text@),
        },
{
    match T::decode(b) {
        Ok((v, _)) => Ok(v),
        Err(text) => Err(text),
    }
}

/// Whatever was encoded is read back, also where bytes follow it.
pub proof fn lemma_front_of_wire<T: Wire>(v: T::V, rest: Seq<u8>)
    requires
        T::fits(v),
    ensures
        T::encodable(v),
        front::<T>(T::wire(v) + rest) == Ok::<T::V, Seq<char>>(v),
        front::<T>(T::wire(v)) == Ok::<T::V, Seq<char>>(v),
{
    T::round_trip(v, rest);
    T::round_trip(v, seq![]);
    assert(T::wire(v) + seq![] =~= T::wire(v));
}

// ---------------------------------------------------------------------------
// Layout
// ---------------------------------------------------------------------------

/// The simple values: a byte and a flag are one byte, a number is as short as
/// it can be, a text has its length in front, and what may be missing has a
/// byte in front that says whether it is there.
pub proof fn simple_values_layout<T: Wire>(byte: u8, small: u32, s: Seq<char>, t: T::V)
    requires
        small <= 250,
    ensures
        <u8 as Wire>::wire(byte) == seq![byte],
        <bool as Wire>::wire(false) == seq![0u8],
        <bool as Wire>::wire(true) == seq![1u8],
        <u16 as Wire>::wire(small as u16) == seq![small as u8],
        <u32 as Wire>::wire(small) == seq![small as u8],
        <u64 as Wire>::wire(small as u64) == seq![small as u8],
        <String as Wire>::wire(s) == varint_bytes(vstd::utf8::encode_utf8(s).len())
            + vstd::utf8::encode_utf8(s),
        <Option<T> as Wire>::wire(None) == seq![0u8],
        <Option<T> as Wire>::wire(Some(t)) == seq![1u8] + T::wire(t),
{
}

/// A larger number has a byte in front that says how long it is, and its least
/// significant byte first.
pub proof fn numbers_layout(short: u16, long: u32)
    requires
        short > 250,
        long > 0xffff,
    ensures
        <u16 as Wire>::wire(short) == seq![251u8, (short % 256) as u8, (short / 256) as u8],
        <u32 as Wire>::wire(long) == seq![
            252u8,
            (long % 256) as u8,
            (long / 256 % 256) as u8,
            (long / 0x1_0000 % 256) as u8,
            (long / 0x100_0000) as u8,
        ],
        <u64 as Wire>::wire(long as u64) == <u32 as Wire>::wire(long),
{
    reveal_with_fuel(le_bytes, 5);
    assert(<u16 as Wire>::wire(short) =~= seq![
        251u8,
        (short % 256) as u8,
        (short / 256) as u8,
    ]);
    assert(<u32 as Wire>::wire(long) =~= seq![
        252u8,
        (long % 256) as u8,
        (long / 256 % 256) as u8,
        (long / 0x1_0000 % 256) as u8,
        (long / 0x100_0000) as u8,
    ]);
}

/// A list has the number of its items in front, and then the items in their
/// order.
pub proof fn list_layout<T: Wire>(a: Seq<T::V>, x: T::V, b: Seq<T::V>)
    ensures
        <Vec<T> as Wire>::wire(seq![]) == seq![0u8],
        <Vec<T> as Wire>::wire(a + seq![x] + b) == varint_bytes(a.len() + 1 + b.len())
            + items_wire::<T>(a) + T::wire(x) + items_wire::<T>(b),
        items_wire::<T>(seq![]) == Seq::<u8>::empty(),
{
    let all = a + seq![x] + b;
    lemma_items_layout::<T>(a, x, b);
    assert(varint_bytes(0) =~= seq![0u8]);
    assert(<Vec<T> as Wire>::wire(seq![]) =~= seq![0u8]);
    let n = varint_bytes(all.len());
    assert(n + (items_wire::<T>(a) + T::wire(x) + items_wire::<T>(b)) =~= n + items_wire::<T>(a)
        + T::wire(x) + items_wire::<T>(b));
}

proof fn lemma_items_layout<T: Wire>(a: Seq<T::V>, x: T::V, b: Seq<T::V>)
    ensures
        items_wire::<T>(a + seq![x] + b) == items_wire::<T>(a) + T::wire(x) + items_wire::<T>(b),
    decreases a.len(),
{
    let all = a + seq![x] + b;
    if a.len() == 0 {
        assert(all[0] == x);
        assert(all.drop_first() =~= b);
        assert(items_wire::<T>(a) + T::wire(x) + items_wire::<T>(b) =~= T::wire(x) + items_wire::<
            T,
        >(b));
    } else {
        lemma_items_layout::<T>(a.drop_first(), x, b);
        assert(all[0] == a[0]);
        assert(all.drop_first() =~= a.drop_first() + seq![x] + b);
        let rest = items_wire::<T>(a.drop_first());
        assert(T::wire(a[0]) + (rest + T::wire(x) + items_wire::<T>(b)) =~= T::wire(a[0]) + rest
            + T::wire(x) + items_wire::<T>(b));
    }
}

/// Bytes are sent as they are, with their number in front.
pub proof fn bytes_layout(b: Seq<u8>)
    ensures
        <Vec<u8> as Wire>::wire(b) == varint_bytes(b.len()) + b,
{
    lemma_bytes_as_they_are(b);
}

proof fn lemma_bytes_as_they_are(b: Seq<u8>)
    ensures
        items_wire::<u8>(b) == b,
    decreases b.len(),
{
    if b.len() > 0 {
        lemma_bytes_as_they_are(b.drop_first());
        assert(seq![b[0]] + b.drop_first() =~= b);
    }
}

/// Bytes behind one another are the same however they are grouped.
pub(crate) proof fn lemma_four(a: Seq<u8>, b: Seq<u8>, c: Seq<u8>, d: Seq<u8>)
    ensures
        a + (b + (c + d)) == a + b + c + d,
{
    assert(a + (b + (c + d)) =~= a + b + c + d);
}

/// Bytes behind one another are the same however they are grouped.
pub(crate) proof fn lemma_six(
    a: Seq<u8>,
    b: Seq<u8>,
    c: Seq<u8>,
    d: Seq<u8>,
    e: Seq<u8>,
    f: Seq<u8>,
)
    ensures
        a + (b + (c + (d + (e + f)))) == a + b + c + d + e + f,
{
    lemma_four(c, d, e, f);
    lemma_four(a, b, c, d);
    assert(a + (b + (c + d + e + f)) =~= a + b + c + d + e + f);
}

} // verus!
