//! The read-only TFTP server: requests, packets, and the course of a transfer.

use crate::addr::SocketAddr;
use crate::octets;
use crate::octets::{from_be16, to_be};
use crate::path;
use crate::path::sanitize_tftp_path;
use crate::text::{same_text, utf8_text};
use vstd::prelude::*;
use vstd::slice::slice_subrange;

verus! {

pub const TFTP_RRQ: u16 = 1;

pub const TFTP_DATA: u16 = 3;

pub const TFTP_ACK: u16 = 4;

pub const TFTP_ERROR: u16 = 5;

/// Bytes of data in every packet of a transfer but the last.
pub const TFTP_BLOCK_SIZE: usize = 512;

/// How often a packet is sent before a transfer is given up.
pub const TFTP_MAX_RETRIES: usize = 5;

// ---------------------------------------------------------------------------
// Packets
// ---------------------------------------------------------------------------

/// A packet with a block of data.
pub open spec fn data_packet(block: u16, data: Seq<u8>) -> Seq<u8> {
    octets::be_bytes(TFTP_DATA as nat, 2) + octets::be_bytes(block as nat, 2) + data
}

/// A packet that reports an error.
pub open spec fn error_packet(code: u16, message: Seq<char>) -> Seq<u8> {
    octets::be_bytes(TFTP_ERROR as nat, 2) + octets::be_bytes(code as nat, 2)
        + vstd::utf8::encode_utf8(message) + seq![0u8]
}

/// A packet with a block of data.
pub fn build_tftp_data(block: u16, data: &[u8]) -> (r: Vec<u8>)
    ensures
        r@ == data_packet(block, data@),
{
    let mut packet = to_be(TFTP_DATA as u128, 2);
    let mut number = to_be(block as u128, 2);
    packet.append(&mut number);
    packet.extend_from_slice(data);
    packet
}

/// A packet that reports an error.
pub fn build_tftp_error(code: u16, message: &str) -> (r: Vec<u8>)
    ensures
        r@ == error_packet(code, message@),
{
    let mut packet = to_be(TFTP_ERROR as u128, 2);
    let mut number = to_be(code as u128, 2);
    packet.append(&mut number);
    packet.extend_from_slice(message.as_bytes());
    let ghost before = packet@;
    packet.push(0u8);
    assert(packet@ =~= before + seq![0u8]);
    packet
}

// ---------------------------------------------------------------------------
// Requests
// ---------------------------------------------------------------------------

/// Where the first zero byte of `b` stands, if there is one.
pub open spec fn zero_at(b: Seq<u8>) -> Option<nat>
    decreases b.len(),
{
    if b.len() == 0 {
        None
    } else if b[0] == 0 {
        Some(0)
    } else {
        match zero_at(b.drop_first()) {
            Some(k) => Some(k + 1),
            None => None,
        }
    }
}

fn find_zero(b: &[u8]) -> (r: Option<usize>)
    ensures
        match r {
            Some(k) => zero_at(b@) == Some(k as nat) && k < b@.len(),
            None => zero_at(b@) is None,
        },
{
    let mut i: usize = 0;
    assert(b@.skip(0) =~= b@);
    while i < b.len()
        invariant
            i <= b@.len(),
            zero_at(b@) == (match zero_at(b@.skip(i as int)) {
                Some(k) => Some(k + i as nat),
                None => None,
            }),
        decreases b@.len() - i,
    {
        if b[i] == 0 {
            return Some(i);
        }
        assert(b@.skip(i as int).drop_first() =~= b@.skip(i + 1));
        i += 1;
    }
    None
}

/// `c` in lower case, if it is an ASCII letter.
pub open spec fn lower(c: char) -> char {
    if 'A' <= c <= 'Z' {
        (c as nat + 32) as char
    } else {
        c
    }
}

/// `s` with its ASCII letters in lower case.
pub open spec fn lower_case(s: Seq<char>) -> Seq<char> {
    Seq::new(s.len(), |i: int| lower(s[i]))
}

/// `str::to_ascii_lowercase`: the ASCII letters in lower case, all else as it
/// was.
#[verifier::external_body]
fn ascii_lowercase(s: &str) -> (r: String)
    ensures
        r@ == lower_case(s@),
{
    s.to_ascii_lowercase()
}

/// The file name and the transfer mode in a read request: two texts, each
/// closed by a zero byte. The mode is brought to lower case.
pub open spec fn read_request(packet: Seq<u8>) -> Option<(Seq<char>, Seq<char>)> {
    let payload = packet.skip(2);
    if packet.len() < 4 || octets::be_value(packet.take(2)) != TFTP_RRQ {
        None
    } else {
        match zero_at(payload) {
            None => None,
            Some(file_end) => {
                let rest = payload.skip(file_end as int + 1);
                match zero_at(rest) {
                    None => None,
                    Some(mode_len) => {
                        let name = payload.take(file_end as int);
                        let mode = rest.take(mode_len as int);
                        if vstd::utf8::valid_utf8(name) && vstd::utf8::valid_utf8(mode) {
                            Some(
                                (
                                    vstd::utf8::decode_utf8(name),
                                    lower_case(vstd::utf8::decode_utf8(mode)),
                                ),
                            )
                        } else {
                            None
                        }
                    },
                }
            },
        }
    }
}

/// The file name and the transfer mode in a read request.
pub fn parse_tftp_rrq(packet: &[u8]) -> (r: Option<(String, String)>)
    ensures
        r.deep_view() == read_request(packet@),
{
    if packet.len() < 4 {
        return None;
    }
    assert(packet@.take(2) =~= seq![packet@[0], packet@[1]]);
    if from_be16(packet[0], packet[1]) != TFTP_RRQ {
        return None;
    }
    let payload = slice_subrange(packet, 2, packet.len());
    assert(payload@ =~= packet@.skip(2));
    match find_zero(payload) {
        None => None,
        Some(file_end) => {
            let rest = slice_subrange(payload, file_end + 1, payload.len());
            assert(rest@ =~= payload@.skip(file_end + 1));
            match find_zero(rest) {
                None => None,
                Some(mode_len) => {
                    let name = slice_subrange(payload, 0, file_end);
                    let mode = slice_subrange(rest, 0, mode_len);
                    assert(name@ =~= payload@.take(file_end as int));
                    assert(mode@ =~= rest@.take(mode_len as int));
                    match (utf8_text(name), utf8_text(mode)) {
                        (Some(n), Some(m)) => Some((n, ascii_lowercase(m.as_str()))),
                        _ => None,
                    }
                },
            }
        },
    }
}

/// What the server does about a packet on its port.
#[derive(Debug)]
pub enum TftpAction {
    /// Send this packet back.
    Refuse(Vec<u8>),
    /// Start a transfer of the requested file.
    Serve(String),
}

/// The mathematical form of a [`TftpAction`].
#[verifier::ext_equal]
pub enum TftpStep {
    Refuse(Seq<u8>),
    Serve(Seq<char>),
}

impl DeepView for TftpAction {
    type V = TftpStep;

    open spec fn deep_view(&self) -> TftpStep {
        match self {
            TftpAction::Refuse(packet) => TftpStep::Refuse(packet@),
            TftpAction::Serve(requested) => TftpStep::Serve(requested@),
        }
    }
}

/// What the server does about a packet on its port.
pub open spec fn tftp_step(packet: Seq<u8>) -> TftpStep {
    match read_request(packet) {
        None => TftpStep::Refuse(error_packet(4, "unsupported operation"@)),
        Some((requested, mode)) => if mode != "octet"@ && mode != "netascii"@ {
            TftpStep::Refuse(error_packet(0, "unsupported transfer mode"@))
        } else {
            TftpStep::Serve(requested)
        },
    }
}

/// Decides about a packet on the server's port.
pub fn tftp_packet(packet: &[u8]) -> (r: TftpAction)
    ensures
        r.deep_view() == tftp_step(packet@),
{
    match parse_tftp_rrq(packet) {
        None => TftpAction::Refuse(build_tftp_error(4, "unsupported operation")),
        Some((requested, mode)) => {
            if !same_text(mode.as_str(), "octet") && !same_text(mode.as_str(), "netascii") {
                TftpAction::Refuse(build_tftp_error(0, "unsupported transfer mode"))
            } else {
                TftpAction::Serve(requested)
            }
        },
    }
}

/// The file to open for a request, or the packet with which it is refused.
pub fn tftp_file(root: &str, requested: &str) -> (r: Result<String, Vec<u8>>)
    ensures
        match r {
            Ok(file) => path::sanitized(root@, requested@) == Some(file@),
            Err(packet) => path::sanitized(root@, requested@) is None && packet@ == error_packet(
                2,
                "invalid path"@,
            ),
        },
{
    match sanitize_tftp_path(root, requested) {
        Some(file) => Ok(file),
        None => Err(build_tftp_error(2, "invalid path")),
    }
}

/// The packet for a file that cannot be opened.
pub fn not_found_packet() -> (r: Vec<u8>)
    ensures
        r@ == error_packet(1, "file not found"@),
{
    build_tftp_error(1, "file not found")
}

/// The packet for a file that cannot be read.
pub fn read_failed_packet() -> (r: Vec<u8>)
    ensures
        r@ == error_packet(0, "read failed"@),
{
    build_tftp_error(0, "read failed")
}

// ---------------------------------------------------------------------------
// The course of a transfer
// ---------------------------------------------------------------------------

/// A transfer: the block that is on its way.
#[derive(Debug)]
pub struct Transfer {
    block: u16,
    size: usize,
    packet: Vec<u8>,
    tries: usize,
}

/// The mathematical form of a [`Transfer`].
#[verifier::ext_equal]
pub struct Course {
    /// Number of the block.
    pub block: u16,
    /// Bytes of data in it.
    pub size: nat,
    /// The packet with the block.
    pub packet: Seq<u8>,
    /// How often the packet was sent without being acknowledged.
    pub tries: nat,
}

/// What comes next in a transfer.
#[derive(Debug, Clone, Copy, PartialEq, Eq, Structural)]
pub enum Progress {
    /// Send the packet again.
    SendAgain,
    /// Read the next piece of the file.
    ReadOn,
    /// The client has everything.
    Complete,
    /// The client does not answer.
    GivenUp,
}

/// What was received in answer to a packet.
#[derive(Debug, Clone, Copy, PartialEq, Eq, Structural)]
pub enum Answer {
    /// Four bytes from the client.
    FromClient { b0: u8, b1: u8, b2: u8, b3: u8 },
    /// Nothing in time, or something else.
    Nothing,
}

/// What a datagram of `len` bytes, the first of which are `b`, that arrives
/// from `from` is to the transfer to `client`.
pub fn answer_of(len: usize, b: [u8; 4], from: SocketAddr, client: SocketAddr) -> (r: Answer)
    ensures
        r == (if len == 4 && from == client {
            Answer::FromClient { b0: b@[0], b1: b@[1], b2: b@[2], b3: b@[3] }
        } else {
            Answer::Nothing
        }),
{
    if len == 4 && from == client {
        Answer::FromClient { b0: b[0], b1: b[1], b2: b[2], b3: b[3] }
    } else {
        Answer::Nothing
    }
}

/// Whether an answer acknowledges the block.
pub open spec fn acknowledges(answer: Answer, block: u16) -> bool {
    match answer {
        Answer::FromClient { b0, b1, b2, b3 } => octets::be_value(seq![b0, b1]) == TFTP_ACK
            && octets::be_value(seq![b2, b3]) == block,
        Answer::Nothing => false,
    }
}

/// The transfer after an answer, and what comes next.
pub open spec fn after_answer(t: Course, answer: Answer) -> (Course, Progress) {
    if acknowledges(answer, t.block) {
        (
            t,
            if t.size < TFTP_BLOCK_SIZE {
                Progress::Complete
            } else {
                Progress::ReadOn
            },
        )
    } else if t.tries + 1 >= TFTP_MAX_RETRIES {
        (t, Progress::GivenUp)
    } else {
        (Course { tries: t.tries + 1, ..t }, Progress::SendAgain)
    }
}

/// The transfer of one block.
pub open spec fn course(block: u16, data: Seq<u8>) -> Course {
    Course { block, size: data.len(), packet: data_packet(block, data), tries: 0 }
}

impl DeepView for Transfer {
    type V = Course;

    closed spec fn deep_view(&self) -> Course {
        Course {
            block: self.block,
            size: self.size as nat,
            packet: self.packet@,
            tries: self.tries as nat,
        }
    }
}

impl Transfer {
    #[verifier::type_invariant]
    spec fn inv(self) -> bool {
        self.tries < TFTP_MAX_RETRIES
    }

    /// A transfer of which the first piece was read.
    pub fn start(data: &[u8]) -> (r: Transfer)
        ensures
            r.deep_view() == course(1, data@),
    {
        Transfer { block: 1, size: data.len(), packet: build_tftp_data(1, data), tries: 0 }
    }

    /// The packet to send.
    pub fn packet(&self) -> (r: &Vec<u8>)
        ensures
            r@ == self.deep_view().packet,
    {
        &self.packet
    }

    /// The number of the block.
    pub fn block(&self) -> (r: u16)
        ensures
            r == self.deep_view().block,
    {
        self.block
    }

    /// Takes in what was received in answer to the packet.
    pub fn answered(&mut self, answer: Answer) -> (r: Progress)
        ensures
            (final(self).deep_view(), r) == after_answer(old(self).deep_view(), answer),
    {
        proof {
            use_type_invariant(&*self);
        }
        let acked = match answer {
            Answer::FromClient { b0, b1, b2, b3 } => from_be16(b0, b1) == TFTP_ACK && from_be16(
                b2,
                b3,
            ) == self.block,
            Answer::Nothing => false,
        };
        if acked {
            if self.size < TFTP_BLOCK_SIZE {
                Progress::Complete
            } else {
                Progress::ReadOn
            }
        } else if self.tries + 1 >= TFTP_MAX_RETRIES {
            Progress::GivenUp
        } else {
            self.tries = self.tries + 1;
            Progress::SendAgain
        }
    }

    /// Goes on to the next block.
    pub fn next(&mut self, data: &[u8])
        ensures
            final(self).deep_view() == course(
                ((old(self).deep_view().block + 1) % 0x1_0000) as u16,
                data@,
            ),
    {
        let block: u16 = self.block.wrapping_add(1);
        *self = Transfer { block, size: data.len(), packet: build_tftp_data(block, data), tries: 0 };
    }
}

// ---------------------------------------------------------------------------
// What holds of a transfer
// ---------------------------------------------------------------------------

/// What comes next when a packet was sent and got `answers`, one after the
/// other, each after a sending of its own.
pub open spec fn after_answers(t: Course, answers: Seq<Answer>) -> (Course, Progress)
    decreases answers.len(),
{
    if answers.len() == 0 {
        (t, Progress::SendAgain)
    } else {
        after_answer(after_answers(t, answers.drop_last()).0, answers.last())
    }
}

proof fn lemma_unacknowledged(block: u16, data: Seq<u8>, answers: Seq<Answer>)
    requires
        answers.len() < TFTP_MAX_RETRIES,
        forall|i: int| 0 <= i < answers.len() ==> !acknowledges(#[trigger] answers[i], block),
    ensures
        after_answers(course(block, data), answers) == (
            Course { tries: answers.len(), ..course(block, data) },
            Progress::SendAgain,
        ),
    decreases answers.len(),
{
    if answers.len() > 0 {
        let less = answers.drop_last();
        assert forall|i: int| 0 <= i < less.len() implies !acknowledges(
            #[trigger] less[i],
            block,
        ) by {
            assert(less[i] == answers[i]);
        }
        lemma_unacknowledged(block, data, less);
        assert(answers[answers.len() - 1] == answers.last());
    }
}

/// A block that is not acknowledged is sent five times, and not once more.
pub proof fn blocks_are_sent_five_times(block: u16, data: Seq<u8>, answers: Seq<Answer>)
    requires
        0 < answers.len() <= TFTP_MAX_RETRIES,
        forall|i: int| 0 <= i < answers.len() ==> !acknowledges(#[trigger] answers[i], block),
    ensures
        after_answers(course(block, data), answers).1 == (if answers.len() == 5 {
            Progress::GivenUp
        } else {
            Progress::SendAgain
        }),
{
    let less = answers.drop_last();
    assert forall|i: int| 0 <= i < less.len() implies !acknowledges(#[trigger] less[i], block) by {
        assert(less[i] == answers[i]);
    }
    lemma_unacknowledged(block, data, less);
    assert(answers[answers.len() - 1] == answers.last());
}

/// The pieces of a file: full blocks, then one that is not full.
pub open spec fn pieces(file: Seq<u8>) -> Seq<Seq<u8>>
    decreases file.len(),
{
    if file.len() < TFTP_BLOCK_SIZE {
        seq![file]
    } else {
        seq![file.take(TFTP_BLOCK_SIZE as int)] + pieces(file.skip(TFTP_BLOCK_SIZE as int))
    }
}

/// The pieces put together.
pub open spec fn together(parts: Seq<Seq<u8>>) -> Seq<u8>
    decreases parts.len(),
{
    if parts.len() == 0 {
        seq![]
    } else {
        parts[0] + together(parts.drop_first())
    }
}

/// A client that acknowledges every block gets the whole file: the pieces put
/// together are the file, and the transfer is complete with the last piece, not
/// before.
pub proof fn transfer_delivers(file: Seq<u8>, k: int, block: u16, ack: Answer)
    requires
        0 <= k < pieces(file).len(),
        acknowledges(ack, block),
    ensures
        together(pieces(file)) == file,
        after_answer(course(block, pieces(file)[k]), ack).1 == (if k == pieces(file).len() - 1 {
            Progress::Complete
        } else {
            Progress::ReadOn
        }),
{
    lemma_pieces(file);
}

/// A file goes out in as many blocks as it fills, and one more that is not
/// full, empty where nothing is left.
pub proof fn pieces_of_a_file(file: Seq<u8>)
    ensures
        pieces(file).len() == file.len() / 512 + 1,
    decreases file.len(),
{
    if file.len() >= TFTP_BLOCK_SIZE {
        pieces_of_a_file(file.skip(TFTP_BLOCK_SIZE as int));
    }
}

proof fn lemma_pieces(file: Seq<u8>)
    ensures
        pieces(file).len() > 0,
        together(pieces(file)) == file,
        forall|k: int|
            0 <= k < pieces(file).len() - 1 ==> (#[trigger] pieces(file)[k]).len()
                == TFTP_BLOCK_SIZE,
        pieces(file).last().len() < TFTP_BLOCK_SIZE,
    decreases file.len(),
{
    let parts = pieces(file);
    if file.len() < TFTP_BLOCK_SIZE {
        assert(parts.drop_first() =~= seq![]);
        assert(together(parts.drop_first()) =~= Seq::<u8>::empty());
        assert(parts[0] + Seq::<u8>::empty() =~= file);
    } else {
        let rest = file.skip(TFTP_BLOCK_SIZE as int);
        lemma_pieces(rest);
        assert(parts.drop_first() =~= pieces(rest));
        assert(file.take(TFTP_BLOCK_SIZE as int) + rest =~= file);
        assert forall|k: int| 0 <= k < parts.len() - 1 implies (#[trigger] parts[k]).len()
            == TFTP_BLOCK_SIZE by {
            if k > 0 {
                assert(parts[k] == pieces(rest)[k - 1]);
            }
        }
        assert(parts.last() == pieces(rest).last());
    }
}

// ---------------------------------------------------------------------------
// What the server makes of a packet
// ---------------------------------------------------------------------------

proof fn lemma_scalar_has_no_zero(c: u32)
    requires
        c != 0,
    ensures
        forall|i: int|
            0 <= i < vstd::utf8::encode_scalar(c).len() ==> #[trigger] vstd::utf8::encode_scalar(
                c,
            )[i] != 0,
{
    assert(0 < c <= 0x7f ==> (c & 0x7F) as u8 != 0) by (bit_vector);
    assert(0xC0 | ((c >> 6) & 0x1F) as u8 != 0) by (bit_vector);
    assert(0xE0 | ((c >> 12) & 0x0F) as u8 != 0) by (bit_vector);
    assert(0xF0 | ((c >> 18) & 0x07) as u8 != 0) by (bit_vector);
    assert(0x80 | (c & 0x3F) as u8 != 0) by (bit_vector);
    assert(0x80 | ((c >> 6) & 0x3F) as u8 != 0) by (bit_vector);
    assert(0x80 | ((c >> 12) & 0x3F) as u8 != 0) by (bit_vector);
}

proof fn lemma_char_is_not_zero(c: char)
    requires
        c != '\0',
    ensures
        c as u32 != 0,
{
}

proof fn lemma_text_has_no_zero(s: Seq<char>)
    requires
        forall|i: int| 0 <= i < s.len() ==> s[i] != '\0',
    ensures
        forall|i: int|
            0 <= i < vstd::utf8::encode_utf8(s).len() ==> #[trigger] vstd::utf8::encode_utf8(s)[i]
                != 0,
    decreases s.len(),
{
    if s.len() > 0 {
        let head = vstd::utf8::encode_scalar(s[0] as u32);
        let rest = vstd::utf8::encode_utf8(s.drop_first());
        let c = s[0];
        assert(c != '\0');
        lemma_char_is_not_zero(c);
        lemma_scalar_has_no_zero(s[0] as u32);
        assert forall|i: int| 0 <= i < s.drop_first().len() implies s.drop_first()[i] != '\0' by {
            assert(s.drop_first()[i] == s[i + 1]);
        }
        lemma_text_has_no_zero(s.drop_first());
        assert(vstd::utf8::encode_utf8(s) == head + rest);
    }
}

proof fn lemma_zero_is_at(b: Seq<u8>, k: nat)
    requires
        k < b.len(),
        b[k as int] == 0,
        forall|i: int| 0 <= i < k ==> b[i] != 0,
    ensures
        zero_at(b) == Some(k),
    decreases k,
{
    if k > 0 {
        assert(b[0] != 0);
        let t = b.drop_first();
        assert forall|i: int| 0 <= i < k - 1 implies t[i] != 0 by {
            assert(t[i] == b[i + 1]);
        }
        lemma_zero_is_at(t, (k - 1) as nat);
    }
}

/// A read request names a file and a mode, each closed by a zero byte, behind
/// the operation number 1. If the mode is `octet` or `netascii`, in letters of
/// either case, the server serves exactly the file that is named; any other
/// mode is refused with the error 0. What follows the request does not matter.
pub proof fn read_requests_are_served(name: Seq<char>, mode: Seq<char>, rest: Seq<u8>)
    requires
        forall|i: int| 0 <= i < name.len() ==> name[i] != '\0',
        forall|i: int| 0 <= i < mode.len() ==> mode[i] != '\0',
    ensures
        ({
            let packet = seq![0u8, 1u8] + vstd::utf8::encode_utf8(name) + seq![0u8]
                + vstd::utf8::encode_utf8(mode) + seq![0u8] + rest;
            tftp_step(packet) == (if lower_case(mode) == "octet"@ || lower_case(mode)
                == "netascii"@ {
                TftpStep::Serve(name)
            } else {
                TftpStep::Refuse(
                    seq![0u8, 5u8, 0u8, 0u8] + vstd::utf8::encode_utf8(
                        "unsupported transfer mode"@,
                    ) + seq![0u8],
                )
            })
        }),
{
    let n = vstd::utf8::encode_utf8(name);
    let m = vstd::utf8::encode_utf8(mode);
    let packet = seq![0u8, 1u8] + n + seq![0u8] + m + seq![0u8] + rest;
    let payload = packet.skip(2);
    lemma_text_has_no_zero(name);
    lemma_text_has_no_zero(mode);
    assert(packet.take(2) =~= seq![0u8, 1u8]);
    octets::two_bytes(0, 1);
    assert(payload =~= n + (seq![0u8] + m + seq![0u8] + rest));
    assert forall|i: int| 0 <= i < n.len() implies payload[i] != 0 by {
        assert(payload[i] == n[i]);
    }
    lemma_zero_is_at(payload, n.len());
    let behind = payload.skip(n.len() as int + 1);
    assert(behind =~= m + (seq![0u8] + rest));
    assert forall|i: int| 0 <= i < m.len() implies behind[i] != 0 by {
        assert(behind[i] == m[i]);
    }
    lemma_zero_is_at(behind, m.len());
    assert(payload.take(n.len() as int) =~= n);
    assert(behind.take(m.len() as int) =~= m);
    vstd::utf8::encode_utf8_valid_utf8(name);
    vstd::utf8::encode_utf8_decode_utf8(name);
    vstd::utf8::encode_utf8_valid_utf8(mode);
    vstd::utf8::encode_utf8_decode_utf8(mode);
    packet_layout(0, 0, seq![], "unsupported transfer mode"@);
}

/// What is no read request is refused with the error 4: less than four bytes,
/// another operation number than 1, or less than two zero bytes behind it.
pub proof fn other_packets_are_refused(packet: Seq<u8>)
    requires
        packet.len() < 4 || packet[0] != 0 || packet[1] != 1 || forall|i: int, j: int|
            2 <= i < j < packet.len() ==> !(#[trigger] packet[i] == 0 && #[trigger] packet[j] == 0),
    ensures
        tftp_step(packet) == TftpStep::Refuse(
            seq![0u8, 5u8, 0u8, 4u8] + vstd::utf8::encode_utf8("unsupported operation"@)
                + seq![0u8],
        ),
{
    packet_layout(0, 4, seq![], "unsupported operation"@);
    if packet.len() >= 4 {
        assert(packet.take(2) =~= seq![packet[0], packet[1]]);
        octets::two_bytes(packet[0], packet[1]);
        let payload = packet.skip(2);
        if packet[0] == 0 && packet[1] == 1 {
            if let Some(k) = zero_at(payload) {
                lemma_zero_found(payload);
                let behind = payload.skip(k as int + 1);
                if let Some(l) = zero_at(behind) {
                    lemma_zero_found(behind);
                    assert(packet[k as int + 2] == payload[k as int]);
                    assert(packet[k as int + l as int + 3] == behind[l as int]);
                    assert(false);
                }
            }
        }
    }
}

/// A read request whose name or mode is not UTF-8 is refused with the error 4
/// too.
pub proof fn names_must_be_text(name: Seq<u8>, mode: Seq<u8>, rest: Seq<u8>)
    requires
        forall|i: int| 0 <= i < name.len() ==> name[i] != 0,
        forall|i: int| 0 <= i < mode.len() ==> mode[i] != 0,
        !vstd::utf8::valid_utf8(name) || !vstd::utf8::valid_utf8(mode),
    ensures
        tftp_step(seq![0u8, 1u8] + name + seq![0u8] + mode + seq![0u8] + rest)
            == TftpStep::Refuse(
            seq![0u8, 5u8, 0u8, 4u8] + vstd::utf8::encode_utf8("unsupported operation"@)
                + seq![0u8],
        ),
{
    let packet = seq![0u8, 1u8] + name + seq![0u8] + mode + seq![0u8] + rest;
    let payload = packet.skip(2);
    let behind = payload.skip(name.len() as int + 1);
    assert(packet.take(2) =~= seq![0u8, 1u8]);
    octets::two_bytes(0, 1);
    assert(payload =~= name + seq![0u8] + mode + seq![0u8] + rest);
    assert(behind =~= mode + seq![0u8] + rest);
    lemma_zero_is_at(payload, name.len());
    lemma_zero_is_at(behind, mode.len());
    assert(payload.take(name.len() as int) =~= name);
    assert(behind.take(mode.len() as int) =~= mode);
    packet_layout(0, 4, seq![], "unsupported operation"@);
}

proof fn lemma_zero_found(b: Seq<u8>)
    ensures
        zero_at(b) matches Some(k) ==> k < b.len() && b[k as int] == 0,
    decreases b.len(),
{
    if b.len() > 0 && b[0] != 0 {
        lemma_zero_found(b.drop_first());
    }
}

/// The bytes of the packets: the operation number 3, the number of the block and
/// the data; or the operation number 5, the code of the error, its text and a
/// zero byte. Numbers are two bytes, the high one first.
pub proof fn packet_layout(block: u16, code: u16, data: Seq<u8>, message: Seq<char>)
    ensures
        data_packet(block, data) == seq![0u8, 3u8, (block / 256) as u8, (block % 256) as u8] + data,
        error_packet(code, message) == seq![0u8, 5u8, (code / 256) as u8, (code % 256) as u8]
            + vstd::utf8::encode_utf8(message) + seq![0u8],
{
    octets::number_of_two_bytes(3);
    octets::number_of_two_bytes(5);
    octets::number_of_two_bytes(block);
    octets::number_of_two_bytes(code);
    assert(data_packet(block, data) =~= seq![
        0u8,
        3u8,
        (block / 256) as u8,
        (block % 256) as u8,
    ] + data);
    assert(error_packet(code, message) =~= seq![
        0u8,
        5u8,
        (code / 256) as u8,
        (code % 256) as u8,
    ] + vstd::utf8::encode_utf8(message) + seq![0u8]);
}

/// A block is acknowledged by four bytes from the client: the operation number
/// 4 and the number of the block. Then the transfer is complete if the block was
/// not full, and else goes on. Whatever else comes, or nothing, the same packet
/// is sent again, unless it was sent five times.
pub proof fn answers_decide(t: Course, answer: Answer)
    ensures
        ({
            let acked = answer matches Answer::FromClient { b0, b1, b2, b3 } && b0 == 0 && b1 == 4
                && 256 * b2 + b3 == t.block;
            let (next, progress) = after_answer(t, answer);
            &&& next.packet == t.packet && next.block == t.block && next.size == t.size
            &&& acked ==> next.tries == t.tries && progress == (if t.size < 512 {
                Progress::Complete
            } else {
                Progress::ReadOn
            })
            &&& !acked && t.tries >= 4 ==> progress == Progress::GivenUp
            &&& !acked && t.tries < 4 ==> progress == Progress::SendAgain && next.tries == t.tries
                + 1
        }),
{
    if let Answer::FromClient { b0, b1, b2, b3 } = answer {
        octets::two_bytes(b0, b1);
        octets::two_bytes(b2, b3);
    }
}

/// The number of the block that is sent after `k` others; after 65535 comes 0.
pub open spec fn block_after(k: nat) -> u16
    decreases k,
{
    if k == 0 {
        1
    } else {
        ((block_after((k - 1) as nat) + 1) % 0x1_0000) as u16
    }
}

/// The blocks of a file are numbered from 1 on, modulo 65536; the packet with
/// the piece behind `k` others carries the number `k + 1` and that piece, which
/// is what stands in the file from byte `512 * k` on.
pub proof fn pieces_are_sent_in_order(file: Seq<u8>, k: nat)
    requires
        k < pieces(file).len(),
    ensures
        block_after(k) == (k + 1) % 0x1_0000,
        ({
            let end = if 512 * k + 512 <= file.len() {
                512 * k as int + 512
            } else {
                file.len() as int
            };
            let n = (k + 1) % 0x1_0000;
            &&& 512 * k <= end
            &&& course(block_after(k), pieces(file)[k as int]).packet == seq![
                0u8,
                3u8,
                (n / 256) as u8,
                (n % 256) as u8,
            ] + file.subrange(512 * k as int, end)
            &&& course(block_after(k), pieces(file)[k as int]).size == end - 512 * k
            &&& course(block_after(k), pieces(file)[k as int]).tries == 0
        }),
{
    lemma_block_after(k);
    lemma_piece(file, k);
    packet_layout(block_after(k), 0, pieces(file)[k as int], seq![]);
}

proof fn lemma_block_after(k: nat)
    ensures
        block_after(k) == (k + 1) % 0x1_0000,
    decreases k,
{
    if k > 0 {
        lemma_block_after((k - 1) as nat);
    }
}

proof fn lemma_piece(file: Seq<u8>, k: nat)
    requires
        k < pieces(file).len(),
    ensures
        512 * k <= file.len(),
        pieces(file)[k as int] == file.subrange(
            512 * k as int,
            if 512 * k + 512 <= file.len() {
                512 * k as int + 512
            } else {
                file.len() as int
            },
        ),
    decreases file.len(),
{
    if file.len() < TFTP_BLOCK_SIZE {
        assert(k == 0);
        assert(file.subrange(0, file.len() as int) =~= file);
    } else if k == 0 {
        assert(file.take(512) =~= file.subrange(0, 512));
    } else {
        let rest = file.skip(512);
        let j = (k - 1) as nat;
        assert(pieces(file)[k as int] == pieces(rest)[j as int]);
        lemma_piece(rest, j);
        let end = if 512 * j + 512 <= rest.len() {
            512 * j as int + 512
        } else {
            rest.len() as int
        };
        assert(rest.subrange(512 * j as int, end) =~= file.subrange(512 * k as int, end + 512));
    }
}

/// The case of ASCII letters does not matter, and that of others does.
pub proof fn case_of_letters(s: Seq<char>, i: int)
    requires
        0 <= i < s.len(),
    ensures
        lower_case(s).len() == s.len(),
        'A' <= s[i] <= 'Z' ==> lower_case(s)[i] as int == s[i] as int + 32,
        !('A' <= s[i] <= 'Z') ==> lower_case(s)[i] == s[i],
{
}

} // verus!
