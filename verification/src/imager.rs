//! The image daemon: the catalog of images, their digests, and the frames with
//! which chunks are asked for.
//!
//! ```text
//! cmd(1B) | chunk_idx(4B BE) | digest(32B) | data_len(4B BE) | data
//! ```

use crate::control;
use crate::control::{
    read_request, unknown_tag_reply, ControlOp, ControlReply, Op, Reply, Request, Verdict,
};
use crate::octets;
use crate::octets::to_be;
use crate::path;
use crate::path::join;
use crate::table::Table;
use crate::text;
use crate::text::{decimal_text, same_text};
use crate::wire;
use crate::wire::Wire;
use vstd::prelude::*;

verus! {

/// Bytes in a chunk of an image.
pub const CHUNK_SIZE: usize = 64 * 1024;

pub fn default_store_dir() -> (r: String)
    ensures
        r@ == "/var/lib/hivebus/images"@,
{
    "/var/lib/hivebus/images".to_owned()
}

pub fn default_chunk_port() -> (r: u16)
    ensures
        r == 7779,
{
    7779
}

/// The settings of the daemon.
#[derive(Debug)]
pub struct ImagerConfig {
    /// Directory of the images.
    pub store_dir: String,
    /// TCP port of the chunk service.
    pub chunk_port: u16,
}

impl Default for ImagerConfig {
    fn default() -> (r: ImagerConfig)
        ensures
            r.store_dir@ == "/var/lib/hivebus/images"@,
            r.chunk_port == 7779,
    {
        ImagerConfig { store_dir: default_store_dir(), chunk_port: default_chunk_port() }
    }
}

// ---------------------------------------------------------------------------
// The catalog
// ---------------------------------------------------------------------------

/// What an image is for.
#[derive(Debug, Clone, Copy, PartialEq, Eq, Structural)]
pub enum ImageKind {
    Kvm,
    Lxc,
    Container,
}

/// An image.
#[derive(Debug)]
pub struct ImageEntry {
    pub id: String,
    pub kind: ImageKind,
    /// BLAKE3 digest of the image, in hexadecimal.
    pub blake3: String,
    /// SHA256 digest, for container images.
    pub sha256: Option<String>,
    pub size_bytes: u64,
    pub path: String,
}

/// The mathematical form of an [`ImageEntry`].
#[verifier::ext_equal]
pub struct Image {
    pub id: Seq<char>,
    pub kind: ImageKind,
    pub blake3: Seq<char>,
    pub sha256: Option<Seq<char>>,
    pub size_bytes: u64,
    pub path: Seq<char>,
}

impl DeepView for ImageKind {
    type V = ImageKind;

    open spec fn deep_view(&self) -> ImageKind {
        *self
    }
}

impl DeepView for ImageEntry {
    type V = Image;

    open spec fn deep_view(&self) -> Image {
        Image {
            id: self.id@,
            kind: self.kind,
            blake3: self.blake3@,
            sha256: self.sha256.deep_view(),
            size_bytes: self.size_bytes,
            path: self.path@,
        }
    }
}

impl Clone for ImageEntry {
    fn clone(&self) -> (r: ImageEntry)
        ensures
            r.deep_view() == self.deep_view(),
    {
        ImageEntry {
            id: self.id.clone(),
            kind: self.kind,
            blake3: self.blake3.clone(),
            sha256: match &self.sha256 {
                Some(digest) => Some(digest.clone()),
                None => None,
            },
            size_bytes: self.size_bytes,
            path: self.path.clone(),
        }
    }
}

impl Wire for ImageKind {
    open spec fn wire(v: ImageKind) -> Seq<u8> {
        <u32 as Wire>::wire(
            match v {
                ImageKind::Kvm => 0,
                ImageKind::Lxc => 1,
                ImageKind::Container => 2,
            },
        )
    }

    open spec fn parse(b: Seq<u8>) -> Result<(ImageKind, Seq<u8>), Seq<char>> {
        match <u32 as Wire>::parse(b) {
            Err(text) => Err(text),
            Ok((i, rest)) => if i == 0 {
                Ok((ImageKind::Kvm, rest))
            } else if i == 1 {
                Ok((ImageKind::Lxc, rest))
            } else if i == 2 {
                Ok((ImageKind::Container, rest))
            } else {
                Err(wire::variant_refusal(i, "variant index 0 <= i < 3"@))
            },
        }
    }

    open spec fn fits(v: ImageKind) -> bool {
        true
    }

    open spec fn encodable(v: ImageKind) -> bool {
        true
    }

    proof fn round_trip(v: ImageKind, rest: Seq<u8>) {
        <u32 as Wire>::round_trip(0, rest);
        <u32 as Wire>::round_trip(1, rest);
        <u32 as Wire>::round_trip(2, rest);
    }

    fn is_encodable(&self) -> (r: bool) {
        true
    }

    fn encode(&self, out: &mut Vec<u8>) {
        let i: u32 = match *self {
            ImageKind::Kvm => 0,
            ImageKind::Lxc => 1,
            ImageKind::Container => 2,
        };
        i.encode(out);
    }

    fn decode(b: &[u8]) -> (r: Result<(ImageKind, &[u8]), String>) {
        match <u32 as Wire>::decode(b) {
            Err(text) => Err(text),
            Ok((i, rest)) => if i == 0 {
                Ok((ImageKind::Kvm, rest))
            } else if i == 1 {
                Ok((ImageKind::Lxc, rest))
            } else if i == 2 {
                Ok((ImageKind::Container, rest))
            } else {
                Err(wire::bincode_bad_variant(i, "variant index 0 <= i < 3"))
            },
        }
    }
}

type ImageFields = (String, (ImageKind, (String, (Option<String>, (u64, String)))));

impl Wire for ImageEntry {
    open spec fn wire(v: Image) -> Seq<u8> {
        <ImageFields as Wire>::wire(
            (v.id, (v.kind, (v.blake3, (v.sha256, (v.size_bytes, v.path))))),
        )
    }

    open spec fn parse(b: Seq<u8>) -> Result<(Image, Seq<u8>), Seq<char>> {
        match <ImageFields as Wire>::parse(b) {
            Err(text) => Err(text),
            Ok(((id, (kind, (blake3, (sha256, (size_bytes, path))))), rest)) => Ok(
                (Image { id, kind, blake3, sha256, size_bytes, path }, rest),
            ),
        }
    }

    open spec fn fits(v: Image) -> bool {
        <ImageFields as Wire>::fits(
            (v.id, (v.kind, (v.blake3, (v.sha256, (v.size_bytes, v.path))))),
        )
    }

    open spec fn encodable(v: Image) -> bool {
        true
    }

    proof fn round_trip(v: Image, rest: Seq<u8>) {
        <ImageFields as Wire>::round_trip(
            (v.id, (v.kind, (v.blake3, (v.sha256, (v.size_bytes, v.path))))),
            rest,
        );
    }

    fn is_encodable(&self) -> (r: bool) {
        true
    }

    fn encode(&self, out: &mut Vec<u8>) {
        self.id.encode(out);
        self.kind.encode(out);
        self.blake3.encode(out);
        self.sha256.encode(out);
        self.size_bytes.encode(out);
        self.path.encode(out);
        assert(out@ =~= old(out)@ + Self::wire(self.deep_view()));
    }

    fn decode(b: &[u8]) -> (r: Result<(ImageEntry, &[u8]), String>) {
        match <ImageFields as Wire>::decode(b) {
            Err(text) => Err(text),
            Ok(((id, (kind, (blake3, (sha256, (size_bytes, path))))), rest)) => Ok(
                (ImageEntry { id, kind, blake3, sha256, size_bytes, path }, rest),
            ),
        }
    }
}

/// The table of images.
pub type Catalog = Table<String, ImageEntry>;

// ---------------------------------------------------------------------------
// Chunk frames
// ---------------------------------------------------------------------------

/// What a chunk frame is for.
#[derive(Debug, Clone, Copy, PartialEq, Eq, Structural)]
pub enum ChunkCmd {
    Request,
    Send,
    List,
    Nack,
}

impl ChunkCmd {
    /// The number that stands for the command in a frame.
    pub open spec fn spec_code(self) -> u8 {
        match self {
            ChunkCmd::Request => 0x01,
            ChunkCmd::Send => 0x02,
            ChunkCmd::List => 0x03,
            ChunkCmd::Nack => 0x04,
        }
    }

    /// The number that stands for the command in a frame.
    pub fn code(&self) -> (r: u8)
        ensures
            r == self.spec_code(),
    {
        match *self {
            ChunkCmd::Request => 0x01,
            ChunkCmd::Send => 0x02,
            ChunkCmd::List => 0x03,
            ChunkCmd::Nack => 0x04,
        }
    }
}

/// A chunk frame.
pub open spec fn chunk_frame(
    cmd: ChunkCmd,
    chunk_idx: u32,
    digest: Seq<u8>,
    data: Seq<u8>,
) -> Seq<u8> {
    seq![cmd.spec_code()] + octets::be_bytes(chunk_idx as nat, 4) + digest + octets::be_bytes(
        data.len(),
        4,
    ) + data
}

/// The frame that asks for a chunk; it carries no data.
pub fn build_request(chunk_idx: u32, digest: &[u8; 32]) -> (r: Vec<u8>)
    ensures
        r@ == chunk_frame(ChunkCmd::Request, chunk_idx, digest@, seq![]),
        r@.len() == 41,
{
    let mut buf: Vec<u8> = Vec::new();
    buf.push(ChunkCmd::Request.code());
    let mut idx = to_be(chunk_idx as u128, 4);
    buf.append(&mut idx);
    buf.extend_from_slice(digest.as_slice());
    let mut len = to_be(0, 4);
    buf.append(&mut len);
    proof {
        octets::lemma_be_round_trip(chunk_idx as nat, 4);
        octets::lemma_be_round_trip(0, 4);
    }
    assert(buf@ =~= chunk_frame(ChunkCmd::Request, chunk_idx, digest@, seq![]));
    buf
}

// ---------------------------------------------------------------------------
// Making and hashing images
// ---------------------------------------------------------------------------

/// The path of the disk image `id` in the directory `store_dir`. A name that is
/// an absolute path stands for itself.
pub open spec fn qcow2_path(store_dir: Seq<char>, id: Seq<char>) -> Seq<char> {
    let name = id + ".qcow2"@;
    if name[0] == '/' {
        name
    } else {
        path::joined(store_dir, name)
    }
}

/// The command that creates a disk image: the path of the image, and the
/// arguments for `qemu-img`.
pub fn create_qcow2(store_dir: &str, id: &str, size_gb: u32) -> (r: (String, Vec<String>))
    ensures
        r.0@ == qcow2_path(store_dir@, id@),
        r.1.deep_view() == seq![
            "create"@,
            "-f"@,
            "qcow2"@,
            qcow2_path(store_dir@, id@),
            text::decimal(size_gb as nat) + "G"@,
        ],
{
    let mut name = id.to_owned();
    name.append(".qcow2");
    proof {
        reveal_strlit(".qcow2");
    }
    let file = if name.as_str().get_char(0) == '/' {
        name
    } else {
        join(store_dir, name.as_str())
    };
    let mut size = decimal_text(size_gb as u128);
    size.append("G");
    let mut args: Vec<String> = Vec::new();
    args.push("create".to_owned());
    args.push("-f".to_owned());
    args.push("qcow2".to_owned());
    args.push(file.clone());
    args.push(size);
    assert(args.deep_view() =~= seq![
        "create"@,
        "-f"@,
        "qcow2"@,
        qcow2_path(store_dir@, id@),
        text::decimal(size_gb as nat) + "G"@,
    ]);
    (file, args)
}

/// The state of a BLAKE3 computation.
#[verifier::external_type_specification]
#[verifier::external_body]
pub struct ExHasher(blake3::Hasher);

/// The bytes that a hasher has taken in.
pub uninterp spec fn hasher_input(h: blake3::Hasher) -> Seq<u8>;

/// Whether a hasher is one without key, context and offset.
pub uninterp spec fn hasher_is_plain(h: blake3::Hasher) -> bool;

/// The BLAKE3 digest of some bytes, in hexadecimal.
pub uninterp spec fn blake3_hex(input: Seq<u8>) -> Seq<char>;

/// Whether `c` is a hexadecimal digit of lower case.
pub open spec fn lower_hex(c: char) -> bool {
    '0' <= c <= '9' || 'a' <= c <= 'f'
}

/// `blake3::Hasher::new`: a hasher for plain digests that has taken in nothing.
#[verifier::external_body]
fn hasher_new() -> (r: blake3::Hasher)
    ensures
        hasher_is_plain(r),
        hasher_input(r) == Seq::<u8>::empty(),
{
    blake3::Hasher::new()
}

/// `blake3::Hasher::update`: a plain hasher takes in `data` behind what it has,
/// and stays plain. Its counters hold less than 2^64 bytes. (One that counts
/// from an offset panics at its own end; it is not plain.)
#[verifier::external_body]
fn hasher_update(h: &mut blake3::Hasher, data: &[u8])
    requires
        hasher_is_plain(*old(h)),
        hasher_input(*old(h)).len() + data@.len() <= u64::MAX,
    ensures
        hasher_is_plain(*final(h)),
        hasher_input(*final(h)) == hasher_input(*old(h)) + data@,
{
    h.update(data);
}

/// `blake3::Hasher::finalize` and `blake3::Hash::to_hex`: the digest of all
/// that a plain hasher has taken in, as 64 hexadecimal digits of lower case.
#[verifier::external_body]
fn hasher_hex(h: &blake3::Hasher) -> (r: String)
    requires
        hasher_is_plain(*h),
    ensures
        r@ == blake3_hex(hasher_input(*h)),
        r@.len() == 64,
        forall|i: int| 0 <= i < r@.len() ==> lower_hex(#[trigger] r@[i]),
{
    h.finalize().to_hex().to_string()
}

/// The digest of an image, computed piece by piece.
pub struct ImageHasher {
    hasher: blake3::Hasher,
    count: u64,
}

impl View for ImageHasher {
    type V = Seq<u8>;

    /// The bytes taken in so far.
    closed spec fn view(&self) -> Seq<u8> {
        hasher_input(self.hasher)
    }
}

impl ImageHasher {
    #[verifier::type_invariant]
    spec fn inv(self) -> bool {
        hasher_is_plain(self.hasher) && hasher_input(self.hasher).len() == self.count
    }

    pub fn new() -> (r: ImageHasher)
        ensures
            r@ == Seq::<u8>::empty(),
    {
        ImageHasher { hasher: hasher_new(), count: 0 }
    }

    /// Takes in a piece, and says whether it did: nothing is taken in beyond
    /// 2^64 bytes.
    pub fn absorb(&mut self, data: &[u8]) -> (r: bool)
        ensures
            r == (old(self)@.len() + data@.len() <= u64::MAX),
            final(self)@ == (if r {
                old(self)@ + data@
            } else {
                old(self)@
            }),
    {
        proof {
            use_type_invariant(&*self);
        }
        if data.len() as u64 > u64::MAX - self.count {
            return false;
        }
        let mut taken = ImageHasher::new();
        std::mem::swap(&mut taken, self);
        let count: u64 = taken.count + data.len() as u64;
        let mut hasher = taken.hasher;
        hasher_update(&mut hasher, data);
        *self = ImageHasher { hasher, count };
        true
    }

    /// The digest of what was taken in, in hexadecimal.
    pub fn hex(&self) -> (r: String)
        ensures
            r@ == blake3_hex(self@),
            r@.len() == 64,
            forall|i: int| 0 <= i < r@.len() ==> lower_hex(#[trigger] r@[i]),
    {
        proof {
            use_type_invariant(self);
        }
        hasher_hex(&self.hasher)
    }
}

// ---------------------------------------------------------------------------
// Control
// ---------------------------------------------------------------------------

/// The images of a catalog.
pub open spec fn images(rows: Seq<(Seq<char>, Image)>) -> Seq<Image> {
    Seq::new(rows.len(), |i: int| rows[i].1)
}

/// The answer to a request of the daemon's own.
pub open spec fn image_reply(rows: Seq<(Seq<char>, Image)>, tag: Seq<char>) -> Reply {
    if tag == "image.list"@ {
        Reply::Data {
            tag: "image.list"@,
            payload: <Vec<ImageEntry> as Wire>::wire(images(rows)),
        }
    } else if tag == "image.create_kvm"@ || tag == "image.push"@ {
        Reply::Done
    } else {
        control::unknown_tag(tag)
    }
}

fn list_images(catalog: &Catalog) -> (r: Vec<u8>)
    ensures
        r@ == <Vec<ImageEntry> as Wire>::wire(images(catalog.deep_view())),
{
    let rows = catalog.rows();
    let ghost all = images(rows.deep_view());
    let mut entries: Vec<ImageEntry> = Vec::new();
    let mut i: usize = 0;
    while i < rows.len()
        invariant
            i <= rows@.len(),
            all == images(rows.deep_view()),
            entries.deep_view() == all.take(i as int),
        decreases rows@.len() - i,
    {
        let ghost before = entries.deep_view();
        let entry = rows[i].1.clone();
        let ghost image = entry.deep_view();
        assert(rows.deep_view()[i as int] == rows@[i as int].deep_view());
        entries.push(entry);
        assert(entries.deep_view() =~= before.push(image));
        assert(entries.deep_view() =~= all.take(i + 1));
        i += 1;
    }
    assert(entries.deep_view() =~= all);
    wire::to_vec(&entries)
}

/// Answers a request of the daemon's own.
pub fn handle_image_cmd(tag: &str, catalog: &Catalog) -> (r: ControlReply)
    ensures
        r.deep_view() == image_reply(catalog.deep_view(), tag@),
{
    if same_text(tag, "image.list") {
        ControlReply::Data { tag: "image.list".to_owned(), payload: list_images(catalog) }
    } else if same_text(tag, "image.create_kvm") {
        ControlReply::Done
    } else if same_text(tag, "image.push") {
        ControlReply::Done
    } else {
        unknown_tag_reply(tag)
    }
}

/// The answer to a request; none where the daemon exits instead.
pub open spec fn image_answer(rows: Seq<(Seq<char>, Image)>, payload: Seq<u8>) -> Option<Reply> {
    match control::verdict(payload) {
        Verdict::Reply(reply) => Some(reply),
        Verdict::Exit => None,
        Verdict::Custom { tag, .. } => Some(image_reply(rows, tag)),
    }
}

/// Answers a request; gives no answer where the daemon is to exit.
pub fn image_request(catalog: &Catalog, payload: &[u8]) -> (r: Option<ControlReply>)
    ensures
        r.deep_view() == image_answer(catalog.deep_view(), payload@),
{
    match read_request(payload) {
        Request::Reply(reply) => Some(reply),
        Request::Exit => None,
        Request::Custom { tag, payload: _ } => Some(handle_image_cmd(tag.as_str(), catalog)),
    }
}

/// The list of images is read back as the images of the catalog.
pub proof fn listed_images_are_read_back(rows: Seq<(Seq<char>, Image)>)
    requires
        <Vec<ImageEntry> as Wire>::fits(images(rows)),
    ensures
        image_reply(rows, "image.list"@) matches Reply::Data { payload, .. } && wire::front::<
            Vec<ImageEntry>,
        >(payload) == Ok::<Seq<Image>, Seq<char>>(images(rows)),
{
    wire::lemma_front_of_wire::<Vec<ImageEntry>>(images(rows), seq![]);
}

/// The answers to the daemon's commands: a list is answered under its own name
/// with the images of the catalog, each once and in its order; to create or to
/// push an image is answered as done; any other is refused as unknown. A request
/// that is not the daemon's own is answered as by any daemon.
pub proof fn commands_are_answered(
    rows: Seq<(Seq<char>, Image)>,
    tag: Seq<char>,
    inner: Seq<u8>,
    rest: Seq<u8>,
    unread: Seq<u8>,
)
    requires
        ControlOp::fits((Op::Custom { tag, payload: inner })),
    ensures
        ({
            let answer = image_answer(rows, ControlOp::wire((Op::Custom { tag, payload: inner })));
            &&& tag == "image.list"@ ==> (answer matches Some(Reply::Data { tag: name, payload })
                && name == "image.list"@ && (<Vec<ImageEntry> as Wire>::fits(
                Seq::new(rows.len(), |i: int| rows[i].1),
            ) ==> wire::front::<Vec<ImageEntry>>(payload) == Ok::<Seq<Image>, Seq<char>>(
                Seq::new(rows.len(), |i: int| rows[i].1),
            )))
            &&& tag == "image.create_kvm"@ || tag == "image.push"@ ==> answer == Some(Reply::Done)
            &&& tag != "image.list"@ && tag != "image.create_kvm"@ && tag != "image.push"@
                ==> answer == Some(Reply::Error { message: "unknown tag: "@ + tag })
        }),
        image_answer(rows, ControlOp::wire(Op::Ping) + rest) == Some(Reply::Done),
        image_answer(rows, ControlOp::wire(Op::Shutdown) + rest) is None,
        image_answer(rows, ControlOp::wire(Op::GetNodes) + rest) == Some(
            Reply::Error { message: "unsupported op"@ },
        ),
        wire::front::<ControlOp>(unread) matches Err(message) ==> image_answer(rows, unread)
            == Some(Reply::Error { message }),
{
    control::custom_request_arrives(tag, inner);
    control::plain_requests(unread, rest);
    assert(images(rows) =~= Seq::new(rows.len(), |i: int| rows[i].1));
    if <Vec<ImageEntry> as Wire>::fits(images(rows)) {
        listed_images_are_read_back(rows);
    }
    reveal_strlit("image.list");
    reveal_strlit("image.create_kvm");
    reveal_strlit("image.push");
    assert("image.list"@[6] == 'l');
    assert("image.create_kvm"@[6] == 'c');
    assert("image.push"@[6] == 'p');
}

/// A chunk frame, byte by byte: the number of the command, the index of the
/// chunk and the length of the data in four bytes each, the high one first, and
/// the digest between them.
pub proof fn chunk_frame_layout(chunk_idx: u32, digest: Seq<u8>)
    requires
        digest.len() == 32,
    ensures
        ({
            let f = chunk_frame(ChunkCmd::Request, chunk_idx, digest, seq![]);
            &&& f.len() == 41
            &&& f[0] == 1
            &&& f[1] == chunk_idx / 0x100_0000
            &&& f[2] == chunk_idx / 0x1_0000 % 256
            &&& f[3] == chunk_idx / 256 % 256
            &&& f[4] == chunk_idx % 256
            &&& f.subrange(5, 37) == digest
            &&& f.subrange(37, 41) == seq![0u8, 0u8, 0u8, 0u8]
        }),
        ChunkCmd::Request.spec_code() == 1,
        ChunkCmd::Send.spec_code() == 2,
        ChunkCmd::List.spec_code() == 3,
        ChunkCmd::Nack.spec_code() == 4,
{
    octets::four_bytes(chunk_idx);
    octets::four_bytes(0);
    let f = chunk_frame(ChunkCmd::Request, chunk_idx, digest, seq![]);
    assert(f.subrange(5, 37) =~= digest);
    assert(f.subrange(37, 41) =~= seq![0u8, 0u8, 0u8, 0u8]);
}

/// The disk image of a name that is no absolute path lies in the directory of
/// the images, under that name with `.qcow2` behind it.
pub proof fn disk_image_has_its_place(store_dir: Seq<char>, id: Seq<char>)
    requires
        id.len() > 0,
    ensures
        id[0] == '/' ==> qcow2_path(store_dir, id) == id + ".qcow2"@,
        id[0] != '/' && store_dir.len() > 0 && store_dir.last() != '/' ==> qcow2_path(store_dir, id)
            == store_dir + seq!['/'] + id + ".qcow2"@,
        id[0] != '/' && store_dir.len() > 0 && store_dir.last() == '/' ==> qcow2_path(store_dir, id)
            == store_dir + id + ".qcow2"@,
{
    let name = id + ".qcow2"@;
    assert(name[0] == id[0]);
    assert(store_dir + seq!['/'] + name =~= store_dir + seq!['/'] + id + ".qcow2"@);
    assert(store_dir + name =~= store_dir + id + ".qcow2"@);
}

/// The kinds of image are numbered, and an image is sent as its name, kind,
/// digests, size and path, in this order.
pub proof fn image_layout(image: Image, other: u32, rest: Seq<u8>)
    requires
        other > 2,
    ensures
        ImageKind::wire(ImageKind::Kvm) == seq![0u8],
        ImageKind::wire(ImageKind::Lxc) == seq![1u8],
        ImageKind::wire(ImageKind::Container) == seq![2u8],
        ImageKind::parse(<u32 as Wire>::wire(other) + rest) is Err,
        ImageEntry::wire(image) == <String as Wire>::wire(image.id) + ImageKind::wire(image.kind)
            + <String as Wire>::wire(image.blake3) + <Option<String> as Wire>::wire(image.sha256)
            + wire::varint_bytes(image.size_bytes as nat) + <String as Wire>::wire(image.path),
{
    <u32 as Wire>::round_trip(other, rest);
    wire::lemma_six(
        <String as Wire>::wire(image.id),
        ImageKind::wire(image.kind),
        <String as Wire>::wire(image.blake3),
        <Option<String> as Wire>::wire(image.sha256),
        wire::varint_bytes(image.size_bytes as nat),
        <String as Wire>::wire(image.path),
    );
}

} // verus!
