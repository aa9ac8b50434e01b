//! Content-addressed object kinds: [`Chunk`], [`Blob`], [`Tree`],
//! [`Snapshot`], [`View`], and [`Op`].
//!
//! Every type implements [`Encode`] and [`Decode`] and provides an `id()`
//! method that derives the object's content address. The encoding and the type
//! tags are part of the on-disk format contract.
use vstd::prelude::*;
use vstd::string::*;
use vstd::utf8::*;
use vstd::view::View as _;

use crate::text;
use crate::order;
use crate::hash;
use crate::error;
use crate::encoding;
use crate::codec;
use crate::codec::Parsed;
use crate::encoding::{decode_list, encode_list, Decode, Decoder, Encode, Encoder};
use crate::error::{Error, ErrorV};
use crate::hash::{hash_object, ObjectId, TypeTag};
use crate::order::{bytes_before, sort_stable, text_before, Ranked};
use crate::text::{append_decimal, append_text, debug_quote, has_char, same_text};

verus! {

// ── helpers ──────────────────────────────────────────────────────────────────

/// Encodes `value` into a fresh byte vector.
pub fn encode_to_vec<T: Encode>(value: &T) -> (r: Vec<u8>)
    ensures
        r@ == T::format(value@),
{
    let mut enc = Encoder::new();
    value.encode(&mut enc);
    let r = enc.into_bytes();
    assert(r@ =~= T::format(value@));
    r
}

/// Whether the text can be encoded: its bytes can be counted.
pub open spec fn text_fits(s: Seq<char>) -> bool {
    encode_utf8(s).len() <= usize::MAX
}

/// Whether the bytes are those of an id.
pub open spec fn is_id(id: Seq<u8>) -> bool {
    id.len() == 32
}

/// Whether the list can be encoded: it can be counted, and all its items are
/// ids.
pub open spec fn ids_fit(ids: Seq<Seq<u8>>) -> bool {
    &&& ids.len() <= usize::MAX
    &&& forall|i: int| 0 <= i < ids.len() ==> is_id(#[trigger] ids[i])
}

impl Encode for ObjectId {
    open spec fn format(v: Seq<u8>) -> Seq<u8> {
        v
    }

    fn encode(&self, encoder: &mut Encoder) {
        encoder.object_id(self);
    }
}

impl Decode for ObjectId {
    open spec fn parse(s: Seq<u8>) -> Parsed<Seq<u8>> {
        codec::parse_id(s)
    }

    fn decode(decoder: &mut Decoder<'_>) -> (r: Result<Self, Error>) {
        decoder.object_id()
    }
}

impl Encode for String {
    open spec fn format(v: Seq<char>) -> Seq<u8> {
        codec::enc_text(v)
    }

    fn encode(&self, encoder: &mut Encoder) {
        encoder.str(self.as_str());
    }
}

impl Decode for String {
    open spec fn parse(s: Seq<u8>) -> Parsed<Seq<char>> {
        codec::parse_text(s)
    }

    fn decode(decoder: &mut Decoder<'_>) -> (r: Result<Self, Error>) {
        match decoder.str() {
            Ok(s) => Ok(s.to_owned()),
            Err(e) => Err(e),
        }
    }
}

proof fn lemma_id_reads_back(id: Seq<u8>)
    requires
        is_id(id),
    ensures
        codec::reads_back(id, encoding::item_format::<ObjectId>(), encoding::item_parse::<ObjectId>()),
{
    assert forall|tail: Seq<u8>|
        encoding::item_parse::<ObjectId>()(#[trigger] (encoding::item_format::<ObjectId>()(id) + tail)) == codec::done(
            id,
            encoding::item_format::<ObjectId>()(id).len(),
        ) by {
        codec::lemma_raw_round_trip(id, tail);
    }
}

proof fn lemma_ids_round_trip(ids: Seq<Seq<u8>>, tail: Seq<u8>)
    requires
        ids_fit(ids),
    ensures
        codec::parse_list(codec::enc_list(ids, encoding::item_format::<ObjectId>()) + tail, encoding::item_parse::<ObjectId>())
            == codec::done(ids, codec::enc_list(ids, encoding::item_format::<ObjectId>()).len()),
{
    assert forall|i: int| 0 <= i < ids.len() implies codec::reads_back(
        #[trigger] ids[i],
        encoding::item_format::<ObjectId>(),
        encoding::item_parse::<ObjectId>(),
    ) by {
        assert(is_id(ids[i]));
        lemma_id_reads_back(ids[i]);
    }
    codec::lemma_list_round_trip(ids, encoding::item_format::<ObjectId>(), encoding::item_parse::<ObjectId>(), tail);
}

// ── Chunk — tag 0x02 ─────────────────────────────────────────────────────────

/// A leaf chunk of raw file bytes.
///
/// Canonical payload = the raw bytes with no extra framing.
#[derive(Debug, Clone, PartialEq, Eq)]
pub struct Chunk {
    data: Vec<u8>,
}

impl vstd::view::View for Chunk {
    type V = Seq<u8>;

    closed spec fn view(&self) -> Seq<u8> {
        self.data@
    }
}

impl Chunk {
    /// Wraps `data` in a `Chunk`.
    pub fn new(data: Vec<u8>) -> (r: Self)
        ensures
            r@ == data@,
    {
        Self { data }
    }

    /// Returns a reference to the raw chunk bytes.
    pub fn data(&self) -> (r: &[u8])
        ensures
            r@ == self@,
    {
        self.data.as_slice()
    }

    /// Returns the content-address of this chunk.
    pub fn id(&self) -> (r: ObjectId)
        ensures
            r@ == hash::content_id(TypeTag::Chunk, Chunk::format(self@)),
    {
        hash_object(TypeTag::Chunk, self.data.as_slice())
    }
}

impl Encode for Chunk {
    open spec fn format(v: Seq<u8>) -> Seq<u8> {
        v
    }

    /// Canonical payload = the raw bytes (no extra framing).
    fn encode(&self, encoder: &mut Encoder) {
        encoder.bytes_raw(self.data.as_slice());
    }
}

impl Decode for Chunk {
    /// A chunk takes all bytes that there are.
    open spec fn parse(s: Seq<u8>) -> Parsed<Seq<u8>> {
        codec::done(s, s.len())
    }

    fn decode(decoder: &mut Decoder<'_>) -> (r: Result<Self, Error>) {
        let ghost all = decoder.rest();
        let data = vstd::slice::slice_to_vec(decoder.read_remaining());
        assert(decoder.rest() =~= all.skip(all.len() as int));
        Ok(Self { data })
    }
}

/// A chunk reads back from its encoding.
pub proof fn lemma_chunk_round_trip(v: Seq<u8>)
    ensures
        Chunk::parse(Chunk::format(v)) == codec::done(v, Chunk::format(v).len()),
{
}

// ── ChunkRef — embedded in Blob ──────────────────────────────────────────────

/// A reference to a [`Chunk`] object with its uncompressed byte length.
#[derive(Debug, Clone, PartialEq, Eq)]
pub struct ChunkRef {
    /// Content address of the referenced [`Chunk`].
    id: ObjectId,
    /// Uncompressed byte count of the chunk.
    len: u32,
}

/// A chunk reference: which chunk, and how long it is.
pub struct ChunkRefV {
    pub id: Seq<u8>,
    pub len: u32,
}

impl vstd::view::View for ChunkRef {
    type V = ChunkRefV;

    closed spec fn view(&self) -> ChunkRefV {
        ChunkRefV { id: self.id@, len: self.len }
    }
}

impl ChunkRef {
    /// Creates a new `ChunkRef`.
    pub fn new(id: ObjectId, len: u32) -> (r: Self)
        ensures
            r@ == (ChunkRefV { id: id@, len }),
    {
        Self { id, len }
    }

    /// Returns the chunk's content address.
    pub fn id(&self) -> (r: ObjectId)
        ensures
            r@ == self@.id,
    {
        self.id
    }

    /// Returns the chunk's uncompressed byte length.
    pub fn len(&self) -> (r: u32)
        ensures
            r == self@.len,
    {
        self.len
    }

    /// Returns `true` if the referenced chunk has zero uncompressed bytes.
    pub fn is_empty(&self) -> (r: bool)
        ensures
            r == (self@.len == 0),
    {
        self.len == 0
    }
}

impl Encode for ChunkRef {
    open spec fn format(v: ChunkRefV) -> Seq<u8> {
        v.id + codec::enc_u32(v.len)
    }

    fn encode(&self, encoder: &mut Encoder) {
        encoder.object_id(&self.id);
        encoder.u32(self.len);
        assert(encoder@ =~= old(encoder)@ + Self::format(self@));
    }
}

impl Decode for ChunkRef {
    open spec fn parse(s: Seq<u8>) -> Parsed<ChunkRefV> {
        codec::chain(
            codec::parse_id(s),
            s,
            |id: Seq<u8>, rest: Seq<u8>|
                codec::mapped(codec::parse_u32(rest), |len: u32| ChunkRefV { id, len }),
        )
    }

    fn decode(decoder: &mut Decoder<'_>) -> (r: Result<Self, Error>) {
        broadcast use codec::lemma_skip_skip;

        let id = match decoder.object_id() {
            Ok(v) => v,
            Err(e) => {
                return Err(e);
            },
        };
        match decoder.u32() {
            Ok(len) => Ok(Self { id, len }),
            Err(e) => Err(e),
        }
    }
}

/// A chunk reference reads back from its encoding, whatever follows.
pub proof fn lemma_chunk_ref_round_trip(v: ChunkRefV, tail: Seq<u8>)
    requires
        is_id(v.id),
    ensures
        ChunkRef::parse(ChunkRef::format(v) + tail) == codec::done(v, ChunkRef::format(v).len()),
{
    assert(ChunkRef::format(v) + tail =~= v.id + (codec::enc_u32(v.len) + tail));
    codec::lemma_raw_round_trip(v.id, codec::enc_u32(v.len) + tail);
    codec::lemma_u32_round_trip(v.len, tail);
}

// ── Blob — tag 0x01 ──────────────────────────────────────────────────────────

/// An ordered list of chunk references representing one file's content.
///
/// Encoding: `total_len : u64`, `chunks : array<{ id: ObjectId, len: u32 }>`.
#[derive(Debug, Clone, PartialEq, Eq)]
pub struct Blob {
    total_len: u64,
    chunks: Vec<ChunkRef>,
}

/// A blob: the length of the file and its chunks.
pub struct BlobV {
    pub total_len: u64,
    pub chunks: Seq<ChunkRefV>,
}

impl vstd::view::View for Blob {
    type V = BlobV;

    closed spec fn view(&self) -> BlobV {
        BlobV { total_len: self.total_len, chunks: encoding::views(self.chunks@) }
    }
}

impl Blob {
    /// Creates a new `Blob`.
    pub fn new(total_len: u64, chunks: Vec<ChunkRef>) -> (r: Self)
        ensures
            r@ == (BlobV { total_len, chunks: encoding::views(chunks@) }),
    {
        Self { total_len, chunks }
    }

    /// Returns the total uncompressed file size in bytes.
    pub fn total_len(&self) -> (r: u64)
        ensures
            r == self@.total_len,
    {
        self.total_len
    }

    /// Returns the ordered list of chunk references.
    pub fn chunks(&self) -> (r: &[ChunkRef])
        ensures
            encoding::views(r@) == self@.chunks,
    {
        self.chunks.as_slice()
    }

    /// Returns the content-address of this blob.
    pub fn id(&self) -> (r: ObjectId)
        ensures
            r@ == hash::content_id(TypeTag::Blob, Blob::format(self@)),
    {
        hash_object(TypeTag::Blob, encode_to_vec(self).as_slice())
    }
}

impl Encode for Blob {
    open spec fn format(v: BlobV) -> Seq<u8> {
        codec::enc_u64(v.total_len) + codec::enc_list(v.chunks, encoding::item_format::<ChunkRef>())
    }

    fn encode(&self, encoder: &mut Encoder) {
        encoder.u64(self.total_len);
        encode_list(self.chunks.as_slice(), encoder);
        assert(encoder@ =~= old(encoder)@ + Self::format(self@));
    }
}

impl Decode for Blob {
    open spec fn parse(s: Seq<u8>) -> Parsed<BlobV> {
        codec::chain(
            codec::parse_u64(s),
            s,
            |total_len: u64, rest: Seq<u8>|
                codec::mapped(
                    codec::parse_list(rest, encoding::item_parse::<ChunkRef>()),
                    |chunks: Seq<ChunkRefV>| BlobV { total_len, chunks },
                ),
        )
    }

    fn decode(decoder: &mut Decoder<'_>) -> (r: Result<Self, Error>) {
        broadcast use codec::lemma_skip_skip;

        let total_len = match decoder.u64() {
            Ok(v) => v,
            Err(e) => {
                return Err(e);
            },
        };
        match decode_list::<ChunkRef>(decoder) {
            Ok(chunks) => Ok(Self { total_len, chunks }),
            Err(e) => Err(e),
        }
    }
}

/// Whether the blob can be encoded.
pub open spec fn blob_fits(v: BlobV) -> bool {
    &&& v.chunks.len() <= usize::MAX
    &&& forall|i: int| 0 <= i < v.chunks.len() ==> is_id((#[trigger] v.chunks[i]).id)
}

/// A blob reads back from its encoding, whatever follows.
pub proof fn lemma_blob_round_trip(v: BlobV, tail: Seq<u8>)
    requires
        blob_fits(v),
    ensures
        Blob::parse(Blob::format(v) + tail) == codec::done(v, Blob::format(v).len()),
{
    let list = codec::enc_list(v.chunks, encoding::item_format::<ChunkRef>());
    assert(Blob::format(v) + tail =~= codec::enc_u64(v.total_len) + (list + tail));
    codec::lemma_u64_round_trip(v.total_len, list + tail);
    codec::lemma_raw_round_trip(codec::enc_u64(v.total_len), list + tail);
    assert forall|i: int| 0 <= i < v.chunks.len() implies codec::reads_back(
        #[trigger] v.chunks[i],
        encoding::item_format::<ChunkRef>(),
        encoding::item_parse::<ChunkRef>(),
    ) by {
        assert(is_id(v.chunks[i].id));
        assert forall|rest: Seq<u8>|
            encoding::item_parse::<ChunkRef>()(
                #[trigger] (encoding::item_format::<ChunkRef>()(v.chunks[i]) + rest),
            ) == codec::done(v.chunks[i], encoding::item_format::<ChunkRef>()(v.chunks[i]).len()) by {
            lemma_chunk_ref_round_trip(v.chunks[i], rest);
        }
    }
    codec::lemma_list_round_trip(v.chunks, encoding::item_format::<ChunkRef>(), encoding::item_parse::<ChunkRef>(), tail);
}

// ── EntryKind ────────────────────────────────────────────────────────────────

/// The kind of object a [`TreeEntry`] points at.
#[derive(Debug, Clone, Copy, PartialEq, Eq, Structural, Hash)]
pub enum EntryKind {
    /// Points at a [`Blob`] object. `u8` tag `0`.
    Blob,
    /// Points at a nested [`Tree`] object (sub-directory). `u8` tag `1`.
    Tree,
    /// Points at a symlink-target blob. `u8` tag `2`.
    Symlink,
}

impl vstd::view::View for EntryKind {
    type V = EntryKind;

    open spec fn view(&self) -> EntryKind {
        *self
    }
}

/// The byte of an entry kind.
pub open spec fn kind_byte(kind: EntryKind) -> u8 {
    match kind {
        EntryKind::Blob => 0,
        EntryKind::Tree => 1,
        EntryKind::Symlink => 2,
    }
}

/// The entry kind of a byte, or why there is none.
pub open spec fn kind_of(byte: u8) -> Result<EntryKind, ErrorV> {
    if byte == 0 {
        Ok(EntryKind::Blob)
    } else if byte == 1 {
        Ok(EntryKind::Tree)
    } else if byte == 2 {
        Ok(EntryKind::Symlink)
    } else {
        Err(ErrorV::Corruption("unknown entry kind byte: "@ + text::decimal_text(byte as nat)))
    }
}

impl EntryKind {
    /// Returns `true` if this entry represents a directory (sub-tree).
    pub fn is_tree(self) -> (r: bool)
        ensures
            r == (self is Tree),
    {
        matches!(self, EntryKind::Tree)
    }

    /// Returns the byte of the kind.
    pub fn byte(self) -> (r: u8)
        ensures
            r == kind_byte(self),
    {
        match self {
            EntryKind::Blob => 0,
            EntryKind::Tree => 1,
            EntryKind::Symlink => 2,
        }
    }

    fn from_u8(byte: u8) -> (r: Result<Self, Error>)
        ensures
            error::outcome(r) == kind_of(byte),
    {
        match byte {
            0 => Ok(EntryKind::Blob),
            1 => Ok(EntryKind::Tree),
            2 => Ok(EntryKind::Symlink),
            other => {
                let mut message = "unknown entry kind byte: ".to_owned();
                append_decimal(&mut message, other as u64);
                Err(Error::Corruption(message))
            },
        }
    }
}

impl Encode for EntryKind {
    open spec fn format(v: EntryKind) -> Seq<u8> {
        seq![kind_byte(v)]
    }

    fn encode(&self, encoder: &mut Encoder) {
        encoder.u8((*self).byte());
        assert(encoder@ =~= old(encoder)@ + Self::format(self@));
    }
}

impl Decode for EntryKind {
    open spec fn parse(s: Seq<u8>) -> Parsed<EntryKind> {
        codec::chain(codec::parse_u8(s), s, |byte: u8, rest: Seq<u8>| Parsed { value: kind_of(byte), used: 0 })
    }

    fn decode(decoder: &mut Decoder<'_>) -> (r: Result<Self, Error>) {
        match decoder.u8() {
            Ok(byte) => EntryKind::from_u8(byte),
            Err(e) => Err(e),
        }
    }
}

/// An entry kind reads back from its byte, whatever follows.
pub proof fn lemma_kind_round_trip(v: EntryKind, tail: Seq<u8>)
    ensures
        EntryKind::parse(EntryKind::format(v) + tail) == codec::done(v, 1),
{
    codec::lemma_raw_round_trip(EntryKind::format(v), tail);
}

// ── TreeEntry ────────────────────────────────────────────────────────────────

/// One entry in a [`Tree`] directory snapshot.
///
/// Encoding: `name : string`, `mode : u32`, `kind : u8`, `id : ObjectId`.
#[derive(Debug, Clone, PartialEq, Eq)]
pub struct TreeEntry {
    name: String,
    mode: u32,
    kind: EntryKind,
    id: ObjectId,
}

/// A tree entry: a name, its mode, and what it points at.
pub struct TreeEntryV {
    pub name: Seq<char>,
    pub mode: u32,
    pub kind: EntryKind,
    pub id: Seq<u8>,
}

impl vstd::view::View for TreeEntry {
    type V = TreeEntryV;

    closed spec fn view(&self) -> TreeEntryV {
        TreeEntryV { name: self.name@, mode: self.mode, kind: self.kind, id: self.id@ }
    }
}

/// The bytes by which tree entries are ordered: the name, with a trailing `/`
/// on directories. A file `foo` and a directory `foo` then have a fixed order.
pub open spec fn sort_key(v: TreeEntryV) -> Seq<u8> {
    if v.kind is Tree {
        encode_utf8(v.name).push(47u8)
    } else {
        encode_utf8(v.name)
    }
}

impl TreeEntry {
    /// Returns the path component name of this entry.
    pub fn name(&self) -> (r: &str)
        ensures
            r@ == self@.name,
    {
        self.name.as_str()
    }

    /// Returns the POSIX-style mode bits (e.g. `0o100644`).
    pub fn mode(&self) -> (r: u32)
        ensures
            r == self@.mode,
    {
        self.mode
    }

    /// Returns the kind of object this entry references.
    pub fn kind(&self) -> (r: EntryKind)
        ensures
            r == self@.kind,
    {
        self.kind
    }

    /// Returns the content address of the referenced object.
    pub fn id(&self) -> (r: ObjectId)
        ensures
            r@ == self@.id,
    {
        self.id
    }

    /// Returns the sort key for this entry.
    ///
    /// Directories compare with a trailing `'/'` appended; all other entries
    /// compare by raw name bytes.
    pub fn sort_key(&self) -> (r: Vec<u8>)
        ensures
            r@ == sort_key(self@),
    {
        let mut key = vstd::slice::slice_to_vec(self.name.as_str().as_bytes());
        if self.kind.is_tree() {
            key.push(47u8);
        }
        key
    }

    /// A copy of this entry.
    pub fn copy(&self) -> (r: TreeEntry)
        ensures
            r@ == self@,
    {
        TreeEntry { name: self.name.clone(), mode: self.mode, kind: self.kind, id: self.id }
    }
}

impl Ranked for TreeEntry {
    open spec fn rank(&self) -> Seq<int> {
        order::ints(sort_key(self@))
    }

    fn precedes(&self, other: &Self) -> (r: bool) {
        bytes_before(self.sort_key().as_slice(), other.sort_key().as_slice())
    }
}

impl Encode for TreeEntry {
    open spec fn format(v: TreeEntryV) -> Seq<u8> {
        codec::enc_text(v.name) + codec::enc_u32(v.mode) + EntryKind::format(v.kind) + v.id
    }

    fn encode(&self, encoder: &mut Encoder) {
        encoder.str(self.name.as_str());
        encoder.u32(self.mode);
        self.kind.encode(encoder);
        encoder.object_id(&self.id);
        assert(encoder@ =~= old(encoder)@ + Self::format(self@));
    }
}

impl Decode for TreeEntry {
    open spec fn parse(s: Seq<u8>) -> Parsed<TreeEntryV> {
        codec::chain(
            codec::parse_text(s),
            s,
            |name: Seq<char>, s1: Seq<u8>|
                codec::chain(
                    codec::parse_u32(s1),
                    s1,
                    |mode: u32, s2: Seq<u8>|
                        codec::chain(
                            EntryKind::parse(s2),
                            s2,
                            |kind: EntryKind, s3: Seq<u8>|
                                codec::mapped(
                                    codec::parse_id(s3),
                                    |id: Seq<u8>| TreeEntryV { name, mode, kind, id },
                                ),
                        ),
                ),
        )
    }

    fn decode(decoder: &mut Decoder<'_>) -> (r: Result<Self, Error>) {
        broadcast use codec::lemma_skip_skip;

        let name = match decoder.str() {
            Ok(v) => v.to_owned(),
            Err(e) => {
                return Err(e);
            },
        };
        let mode = match decoder.u32() {
            Ok(v) => v,
            Err(e) => {
                return Err(e);
            },
        };
        let kind = match EntryKind::decode(decoder) {
            Ok(v) => v,
            Err(e) => {
                return Err(e);
            },
        };
        match decoder.object_id() {
            Ok(id) => Ok(Self { name, mode, kind, id }),
            Err(e) => Err(e),
        }
    }
}

/// Whether the entry can be encoded.
pub open spec fn entry_fits(v: TreeEntryV) -> bool {
    &&& text_fits(v.name)
    &&& is_id(v.id)
}

/// A tree entry reads back from its encoding, whatever follows.
pub proof fn lemma_tree_entry_round_trip(v: TreeEntryV, tail: Seq<u8>)
    requires
        entry_fits(v),
    ensures
        TreeEntry::parse(TreeEntry::format(v) + tail) == codec::done(v, TreeEntry::format(v).len()),
{
    let t3 = v.id + tail;
    let t2 = EntryKind::format(v.kind) + t3;
    let t1 = codec::enc_u32(v.mode) + t2;
    assert(TreeEntry::format(v) + tail =~= codec::enc_text(v.name) + t1);
    codec::lemma_text_round_trip(v.name, t1);
    codec::lemma_raw_round_trip(codec::enc_text(v.name), t1);
    codec::lemma_u32_round_trip(v.mode, t2);
    codec::lemma_raw_round_trip(codec::enc_u32(v.mode), t2);
    lemma_kind_round_trip(v.kind, t3);
    codec::lemma_raw_round_trip(EntryKind::format(v.kind), t3);
    codec::lemma_raw_round_trip(v.id, tail);
}

// ── Tree — tag 0x03 ──────────────────────────────────────────────────────────

/// A directory snapshot: a sorted list of [`TreeEntry`] values.
///
/// Constructors validate that no entry name is `""`, `"."`, `".."`, or contains
/// `'/'` or `'\\'`.
///
/// Encoding: `entries : array<{ name, mode, kind, id }>`.
#[derive(Debug, Clone, PartialEq, Eq)]
pub struct Tree {
    entries: Vec<TreeEntry>,
}

/// A tree: its entries in order.
pub struct TreeV {
    pub entries: Seq<TreeEntryV>,
}

impl vstd::view::View for Tree {
    type V = TreeV;

    closed spec fn view(&self) -> TreeV {
        TreeV { entries: encoding::views(self.entries@) }
    }
}

/// Whether a name may stand in a tree.
pub open spec fn valid_name(name: Seq<char>) -> bool {
    &&& name.len() > 0
    &&& name != "."@
    &&& name != ".."@
    &&& !name.contains('/')
    &&& !name.contains('\\')
}

/// Validates a single tree entry name.
///
/// Illegal names: empty string, `"."`, `".."`, any name containing `'/'` or
/// `'\\'`.
pub fn validate_name(name: &str) -> (r: Result<(), Error>)
    ensures
        match r {
            Ok(()) => valid_name(name@),
            Err(e) => !valid_name(name@) && e@ == ErrorV::InvalidTreeEntryName(name@),
        },
{
    if name.is_empty() {
        return Err(Error::InvalidTreeEntryName(name.to_owned()));
    }
    if same_text(name, ".") || same_text(name, "..") {
        return Err(Error::InvalidTreeEntryName(name.to_owned()));
    }
    if has_char(name, '/') || has_char(name, '\\') {
        return Err(Error::InvalidTreeEntryName(name.to_owned()));
    }
    Ok(())
}

/// What a decoded name that may not stand in a tree is reported as.
pub open spec fn bad_name_error(name: Seq<char>) -> ErrorV {
    ErrorV::Corruption("decoded tree entry name is illegal: "@ + text::debug_text(name))
}

/// Validates a decoded entry name: the same rules, but a violation means that
/// the object is malformed.
fn validate_decoded_name(name: &str) -> (r: Result<(), Error>)
    ensures
        match r {
            Ok(()) => valid_name(name@),
            Err(e) => !valid_name(name@) && e@ == bad_name_error(name@),
        },
{
    match validate_name(name) {
        Ok(()) => Ok(()),
        Err(_) => {
            let mut message = "decoded tree entry name is illegal: ".to_owned();
            append_text(&mut message, debug_quote(name).as_str());
            Err(Error::Corruption(message))
        },
    }
}

/// Whether all entries before index `n` have valid names.
pub open spec fn names_valid(entries: Seq<TreeEntryV>, n: int) -> bool {
    forall|i: int| 0 <= i < n ==> valid_name((#[trigger] entries[i]).name)
}

impl Tree {
    /// Creates a `Tree` from a list of entries, sorting them and validating all
    /// names; the first name that is not valid is reported.
    pub fn new(entries: Vec<TreeEntry>) -> (r: Result<Self, Error>)
        ensures
            match r {
                Ok(tree) => names_valid(encoding::views(entries@), entries@.len() as int) && tree@
                    == (TreeV { entries: encoding::views(order::stable_sort(entries@)) }),
                Err(e) => exists|i: int|
                    0 <= i < entries@.len() && names_valid(encoding::views(entries@), i) && !valid_name(
                        (#[trigger] entries@[i])@.name,
                    ) && e@ == ErrorV::InvalidTreeEntryName(entries@[i]@.name),
            },
    {
        let mut i: usize = 0;
        while i < entries.len()
            invariant
                i <= entries@.len(),
                names_valid(encoding::views(entries@), i as int),
            decreases entries.len() - i,
        {
            match validate_name(entries[i].name()) {
                Ok(()) => {},
                Err(e) => {
                    assert(!valid_name(entries@[i as int]@.name));
                    return Err(e);
                },
            }
            i += 1;
        }
        let mut entries = entries;
        sort_stable(&mut entries);
        Ok(Self { entries })
    }

    /// Creates a `Tree` from entries that are already sorted and validated
    /// (e.g. during decoding).
    pub(crate) fn from_entries_unchecked(entries: Vec<TreeEntry>) -> (r: Self)
        ensures
            r@ == (TreeV { entries: encoding::views(entries@) }),
    {
        Self { entries }
    }

    /// Returns the list of tree entries.
    pub fn entries(&self) -> (r: &[TreeEntry])
        ensures
            encoding::views(r@) == self@.entries,
    {
        self.entries.as_slice()
    }

    /// Returns the content-address of this tree.
    pub fn id(&self) -> (r: ObjectId)
        ensures
            r@ == hash::content_id(TypeTag::Tree, Tree::format(self@)),
    {
        hash_object(TypeTag::Tree, encode_to_vec(self).as_slice())
    }
}

/// Convenience constructor for a [`TreeEntry`]. Validates the name.
pub fn tree_entry(name: &str, mode: u32, kind: EntryKind, id: ObjectId) -> (r: Result<
    TreeEntry,
    Error,
>)
    ensures
        error::outcome(r) == (if valid_name(name@) {
            Ok(TreeEntryV { name: name@, mode, kind, id: id@ })
        } else {
            Err(ErrorV::InvalidTreeEntryName(name@))
        }),
{
    match validate_name(name) {
        Ok(()) => Ok(TreeEntry { name: name.to_owned(), mode, kind, id }),
        Err(e) => Err(e),
    }
}

impl Encode for Tree {
    open spec fn format(v: TreeV) -> Seq<u8> {
        codec::enc_list(v.entries, encoding::item_format::<TreeEntry>())
    }

    fn encode(&self, encoder: &mut Encoder) {
        encode_list(self.entries.as_slice(), encoder);
    }
}

/// A tree entry of a tree: its name is checked as it is read.
pub open spec fn parse_checked_entry(s: Seq<u8>) -> Parsed<TreeEntryV> {
    codec::chain(
        TreeEntry::parse(s),
        s,
        |entry: TreeEntryV, rest: Seq<u8>|
            if valid_name(entry.name) {
                codec::done(entry, 0)
            } else {
                codec::failed(bad_name_error(entry.name), 0)
            },
    )
}

/// The parse of one entry of a tree.
pub open spec fn checked_entry() -> spec_fn(Seq<u8>) -> Parsed<TreeEntryV> {
    |s: Seq<u8>| parse_checked_entry(s)
}

/// A tree entry whose name has been checked.
struct CheckedEntry {
    entry: TreeEntry,
}

impl vstd::view::View for CheckedEntry {
    type V = TreeEntryV;

    closed spec fn view(&self) -> TreeEntryV {
        self.entry@
    }
}

impl Decode for CheckedEntry {
    open spec fn parse(s: Seq<u8>) -> Parsed<TreeEntryV> {
        parse_checked_entry(s)
    }

    fn decode(decoder: &mut Decoder<'_>) -> (r: Result<Self, Error>) {
        match TreeEntry::decode(decoder) {
            Ok(entry) => match validate_decoded_name(entry.name()) {
                Ok(()) => Ok(CheckedEntry { entry }),
                Err(e) => Err(e),
            },
            Err(e) => Err(e),
        }
    }
}

/// The entries inside the checked entries.
fn unwrap_entries(checked: Vec<CheckedEntry>) -> (r: Vec<TreeEntry>)
    ensures
        encoding::views(r@) == encoding::views(checked@),
{
    let mut checked = checked;
    let ghost all = checked@;
    let mut out: Vec<TreeEntry> = Vec::with_capacity(checked.len());
    let mut i: usize = 0;
    while i < checked.len()
        invariant
            i <= checked@.len(),
            checked@ == all,
            encoding::views(out@) =~= encoding::views(all.take(i as int)),
        decreases checked.len() - i,
    {
        let ghost was = out@;
        out.push(checked[i].entry.copy());
        assert(encoding::views(out@) =~= encoding::views(was).push(all[i as int]@));
        assert(encoding::views(all.take(i + 1)) =~= encoding::views(all.take(i as int)).push(all[i as int]@));
        i += 1;
    }
    assert(all.take(i as int) =~= all);
    out
}

impl Decode for Tree {
    open spec fn parse(s: Seq<u8>) -> Parsed<TreeV> {
        codec::mapped(codec::parse_list(s, checked_entry()), |entries: Seq<TreeEntryV>| TreeV { entries })
    }

    fn decode(decoder: &mut Decoder<'_>) -> (r: Result<Self, Error>) {
        assert(encoding::item_parse::<CheckedEntry>() =~= checked_entry());
        match decode_list::<CheckedEntry>(decoder) {
            Ok(checked) => Ok(Tree::from_entries_unchecked(unwrap_entries(checked))),
            Err(e) => Err(e),
        }
    }
}

/// Whether the tree can be encoded, and may be decoded.
pub open spec fn tree_fits(v: TreeV) -> bool {
    &&& v.entries.len() <= usize::MAX
    &&& names_valid(v.entries, v.entries.len() as int)
    &&& forall|i: int| 0 <= i < v.entries.len() ==> entry_fits(#[trigger] v.entries[i])
}

/// A tree with valid names reads back from its encoding, whatever follows.
pub proof fn lemma_tree_round_trip(v: TreeV, tail: Seq<u8>)
    requires
        tree_fits(v),
    ensures
        Tree::parse(Tree::format(v) + tail) == codec::done(v, Tree::format(v).len()),
{
    assert forall|i: int| 0 <= i < v.entries.len() implies codec::reads_back(
        #[trigger] v.entries[i],
        encoding::item_format::<TreeEntry>(),
        checked_entry(),
    ) by {
        assert(entry_fits(v.entries[i]));
        assert(valid_name(v.entries[i].name));
        assert forall|rest: Seq<u8>|
            checked_entry()(#[trigger] (encoding::item_format::<TreeEntry>()(v.entries[i]) + rest)) == codec::done(
                v.entries[i],
                encoding::item_format::<TreeEntry>()(v.entries[i]).len(),
            ) by {
            lemma_tree_entry_round_trip(v.entries[i], rest);
        }
    }
    codec::lemma_list_round_trip(v.entries, encoding::item_format::<TreeEntry>(), checked_entry(), tail);
}

/// A tree that decoding accepts has only valid names: no name leads out of its
/// directory.
pub proof fn lemma_decoded_names_valid(s: Seq<u8>, n: nat)
    ensures
        codec::parse_many(s, n, checked_entry()).value matches Ok(entries) ==> names_valid(
            entries,
            entries.len() as int,
        ),
    decreases n,
{
    if n > 0 {
        lemma_decoded_names_valid(s, (n - 1) as nat);
    }
}

/// A tree that is decoded has only valid names.
pub proof fn lemma_tree_names_valid(s: Seq<u8>)
    ensures
        Tree::parse(s).value matches Ok(tree) ==> names_valid(
            tree.entries,
            tree.entries.len() as int,
        ),
{
    reveal(codec::parse_list);
    let count = codec::parse_count(s);
    if count.value is Ok {
        lemma_decoded_names_valid(s.skip(count.used as int), count.value->Ok_0 as nat);
    }
}

/// The order in which entries are given does not matter: two lists with the same
/// entries, in which no two entries share a sort key, make the same tree.
pub proof fn lemma_tree_ignores_order(a: Seq<TreeEntry>, b: Seq<TreeEntry>)
    requires
        encoding::views(a).to_multiset() == encoding::views(b).to_multiset(),
        order::rank_tells(encoding::views(a), |v: TreeEntryV| order::ints(sort_key(v))),
    ensures
        encoding::views(order::stable_sort(a)) == encoding::views(order::stable_sort(b)),
{
    let rank = |v: TreeEntryV| order::ints(sort_key(v));
    order::lemma_sort_views(a, rank);
    order::lemma_sort_views(b, rank);
    order::lemma_sort_ignores_order(encoding::views(a), encoding::views(b), rank);
}

// ── Identity ─────────────────────────────────────────────────────────────────

/// A person's identity: name and e-mail address.
#[derive(Debug, Clone, PartialEq, Eq)]
pub struct Identity {
    name: String,
    email: String,
}

/// An identity: a name and an e-mail address.
pub struct IdentityV {
    pub name: Seq<char>,
    pub email: Seq<char>,
}

impl vstd::view::View for Identity {
    type V = IdentityV;

    closed spec fn view(&self) -> IdentityV {
        IdentityV { name: self.name@, email: self.email@ }
    }
}

impl Identity {
    /// Creates a new `Identity`.
    pub fn new(name: &str, email: &str) -> (r: Self)
        ensures
            r@ == (IdentityV { name: name@, email: email@ }),
    {
        Self { name: name.to_owned(), email: email.to_owned() }
    }

    /// Returns the display name.
    pub fn name(&self) -> (r: &str)
        ensures
            r@ == self@.name,
    {
        self.name.as_str()
    }

    /// Returns the e-mail address.
    pub fn email(&self) -> (r: &str)
        ensures
            r@ == self@.email,
    {
        self.email.as_str()
    }
}

impl Encode for Identity {
    open spec fn format(v: IdentityV) -> Seq<u8> {
        codec::enc_text(v.name) + codec::enc_text(v.email)
    }

    fn encode(&self, encoder: &mut Encoder) {
        encoder.str(self.name.as_str());
        encoder.str(self.email.as_str());
        assert(encoder@ =~= old(encoder)@ + Self::format(self@));
    }
}

/// A name and an e-mail address.
#[verifier::opaque]
pub open spec fn parse_identity(s: Seq<u8>) -> Parsed<IdentityV> {
    codec::chain(
        codec::parse_text(s),
        s,
        |name: Seq<char>, rest: Seq<u8>|
            codec::mapped(codec::parse_text(rest), |email: Seq<char>| IdentityV { name, email }),
    )
}

impl Decode for Identity {
    open spec fn parse(s: Seq<u8>) -> Parsed<IdentityV> {
        parse_identity(s)
    }

    fn decode(decoder: &mut Decoder<'_>) -> (r: Result<Self, Error>) {
        broadcast use codec::lemma_skip_skip;

        proof {
            reveal(parse_identity);
        }
        let name = match decoder.str() {
            Ok(v) => v.to_owned(),
            Err(e) => {
                return Err(e);
            },
        };
        match decoder.str() {
            Ok(email) => Ok(Self { name, email: email.to_owned() }),
            Err(e) => Err(e),
        }
    }
}

/// Whether the identity can be encoded.
pub open spec fn identity_fits(v: IdentityV) -> bool {
    &&& text_fits(v.name)
    &&& text_fits(v.email)
}

/// An identity reads back from its encoding, whatever follows.
pub proof fn lemma_identity_round_trip(v: IdentityV, tail: Seq<u8>)
    requires
        identity_fits(v),
    ensures
        Identity::parse(Identity::format(v) + tail) == codec::done(v, Identity::format(v).len()),
{
    reveal(parse_identity);
    let t1 = codec::enc_text(v.email) + tail;
    assert(Identity::format(v) + tail =~= codec::enc_text(v.name) + t1);
    codec::lemma_text_round_trip(v.name, t1);
    codec::lemma_raw_round_trip(codec::enc_text(v.name), t1);
    codec::lemma_text_round_trip(v.email, tail);
}

// ── Timestamp ────────────────────────────────────────────────────────────────

/// A point in time with a UTC offset.
///
/// `unix_secs` is signed to represent dates before 1970.
#[derive(Debug, Clone, Copy, PartialEq, Eq, Structural)]
pub struct Timestamp {
    unix_secs: i64,
    tz_offset_mins: i32,
}

/// A point in time: seconds since the Unix epoch and the offset in minutes.
pub struct TimestampV {
    pub unix_secs: i64,
    pub tz_offset_mins: i32,
}

impl vstd::view::View for Timestamp {
    type V = TimestampV;

    closed spec fn view(&self) -> TimestampV {
        TimestampV { unix_secs: self.unix_secs, tz_offset_mins: self.tz_offset_mins }
    }
}

impl Timestamp {
    /// Creates a new `Timestamp`.
    pub fn new(unix_secs: i64, tz_offset_mins: i32) -> (r: Self)
        ensures
            r@ == (TimestampV { unix_secs, tz_offset_mins }),
    {
        Self { unix_secs, tz_offset_mins }
    }

    /// Returns the number of seconds since the Unix epoch (negative = before
    /// 1970).
    pub fn unix_secs(&self) -> (r: i64)
        ensures
            r == self@.unix_secs,
    {
        self.unix_secs
    }

    /// Returns the UTC offset in minutes (e.g. `+60` for UTC+1).
    pub fn tz_offset_mins(&self) -> (r: i32)
        ensures
            r == self@.tz_offset_mins,
    {
        self.tz_offset_mins
    }
}

impl Encode for Timestamp {
    open spec fn format(v: TimestampV) -> Seq<u8> {
        codec::enc_i64(v.unix_secs) + codec::enc_i32(v.tz_offset_mins)
    }

    fn encode(&self, encoder: &mut Encoder) {
        encoder.i64(self.unix_secs);
        encoder.i32(self.tz_offset_mins);
        assert(encoder@ =~= old(encoder)@ + Self::format(self@));
    }
}

/// Seconds and an offset.
#[verifier::opaque]
pub open spec fn parse_timestamp(s: Seq<u8>) -> Parsed<TimestampV> {
    codec::chain(
        codec::parse_i64(s),
        s,
        |unix_secs: i64, rest: Seq<u8>|
            codec::mapped(
                codec::parse_i32(rest),
                |tz_offset_mins: i32| TimestampV { unix_secs, tz_offset_mins },
            ),
    )
}

impl Decode for Timestamp {
    open spec fn parse(s: Seq<u8>) -> Parsed<TimestampV> {
        parse_timestamp(s)
    }

    fn decode(decoder: &mut Decoder<'_>) -> (r: Result<Self, Error>) {
        broadcast use codec::lemma_skip_skip;

        proof {
            reveal(parse_timestamp);
        }
        let unix_secs = match decoder.i64() {
            Ok(v) => v,
            Err(e) => {
                return Err(e);
            },
        };
        match decoder.i32() {
            Ok(tz_offset_mins) => Ok(Self { unix_secs, tz_offset_mins }),
            Err(e) => Err(e),
        }
    }
}

/// A timestamp reads back from its encoding, whatever follows.
pub proof fn lemma_timestamp_round_trip(v: TimestampV, tail: Seq<u8>)
    ensures
        Timestamp::parse(Timestamp::format(v) + tail) == codec::done(v, Timestamp::format(v).len()),
{
    reveal(parse_timestamp);
    let t1 = codec::enc_i32(v.tz_offset_mins) + tail;
    assert(Timestamp::format(v) + tail =~= codec::enc_i64(v.unix_secs) + t1);
    codec::lemma_i64_round_trip(v.unix_secs, t1);
    codec::lemma_raw_round_trip(codec::enc_i64(v.unix_secs), t1);
    codec::lemma_i32_round_trip(v.tz_offset_mins, tail);
}

// ── Snapshot — tag 0x04 ──────────────────────────────────────────────────────

/// A snapshot of the working set — the core unit of history.
///
/// The same type is used for continuously-amended working-copy snapshots and
/// for named cuts. Encoding order: `root_tree`, `parents`, `change_id`,
/// `author`, `committer`, `message`, `timestamp`.
#[derive(Debug, Clone, PartialEq, Eq)]
pub struct Snapshot {
    root_tree: ObjectId,
    parents: Vec<ObjectId>,
    change_id: ObjectId,
    author: Identity,
    committer: Identity,
    message: String,
    timestamp: Timestamp,
}

/// A snapshot, field by field.
pub struct SnapshotV {
    pub root_tree: Seq<u8>,
    pub parents: Seq<Seq<u8>>,
    pub change_id: Seq<u8>,
    pub author: IdentityV,
    pub committer: IdentityV,
    pub message: Seq<char>,
    pub timestamp: TimestampV,
}

impl vstd::view::View for Snapshot {
    type V = SnapshotV;

    closed spec fn view(&self) -> SnapshotV {
        SnapshotV {
            root_tree: self.root_tree@,
            parents: encoding::views(self.parents@),
            change_id: self.change_id@,
            author: self.author@,
            committer: self.committer@,
            message: self.message@,
            timestamp: self.timestamp@,
        }
    }
}

impl Snapshot {
    /// Creates a new `Snapshot`.
    pub fn new(
        root_tree: ObjectId,
        parents: Vec<ObjectId>,
        change_id: ObjectId,
        author: Identity,
        committer: Identity,
        message: &str,
        timestamp: Timestamp,
    ) -> (r: Self)
        ensures
            r@ == (SnapshotV {
                root_tree: root_tree@,
                parents: encoding::views(parents@),
                change_id: change_id@,
                author: author@,
                committer: committer@,
                message: message@,
                timestamp: timestamp@,
            }),
    {
        Self {
            root_tree,
            parents,
            change_id,
            author,
            committer,
            message: message.to_owned(),
            timestamp,
        }
    }

    /// Returns the root tree content address.
    pub fn root_tree(&self) -> (r: ObjectId)
        ensures
            r@ == self@.root_tree,
    {
        self.root_tree
    }

    /// Returns the parent snapshot ids (0 = root, 1 = normal, 2 or more =
    /// merge).
    pub fn parents(&self) -> (r: &[ObjectId])
        ensures
            encoding::views(r@) == self@.parents,
    {
        self.parents.as_slice()
    }

    /// Returns the change id — stable across amends, random at birth.
    pub fn change_id(&self) -> (r: ObjectId)
        ensures
            r@ == self@.change_id,
    {
        self.change_id
    }

    /// Returns the author identity.
    pub fn author(&self) -> (r: &Identity)
        ensures
            r@ == self@.author,
    {
        &self.author
    }

    /// Returns the committer identity.
    pub fn committer(&self) -> (r: &Identity)
        ensures
            r@ == self@.committer,
    {
        &self.committer
    }

    /// Returns the snapshot message (empty for unnamed working-copy
    /// snapshots).
    pub fn message(&self) -> (r: &str)
        ensures
            r@ == self@.message,
    {
        self.message.as_str()
    }

    /// Returns the snapshot timestamp.
    pub fn timestamp(&self) -> (r: Timestamp)
        ensures
            r@ == self@.timestamp,
    {
        self.timestamp
    }

    /// Returns the content-address of this snapshot.
    pub fn id(&self) -> (r: ObjectId)
        ensures
            r@ == hash::content_id(TypeTag::Snapshot, Snapshot::format(self@)),
    {
        hash_object(TypeTag::Snapshot, encode_to_vec(self).as_slice())
    }
}

impl Encode for Snapshot {
    open spec fn format(v: SnapshotV) -> Seq<u8> {
        v.root_tree + codec::enc_list(v.parents, encoding::item_format::<ObjectId>()) + v.change_id
            + Identity::format(v.author) + Identity::format(v.committer) + codec::enc_text(v.message)
            + Timestamp::format(v.timestamp)
    }

    fn encode(&self, encoder: &mut Encoder) {
        encoder.object_id(&self.root_tree);
        encode_list(self.parents.as_slice(), encoder);
        encoder.object_id(&self.change_id);
        self.author.encode(encoder);
        self.committer.encode(encoder);
        encoder.str(self.message.as_str());
        self.timestamp.encode(encoder);
        assert(encoder@ =~= old(encoder)@ + Self::format(self@));
    }
}

impl Decode for Snapshot {
    open spec fn parse(s: Seq<u8>) -> Parsed<SnapshotV> {
        codec::chain(
            codec::parse_id(s),
            s,
            |root_tree: Seq<u8>, s1: Seq<u8>|
                codec::chain(
                    codec::parse_list(s1, encoding::item_parse::<ObjectId>()),
                    s1,
                    |parents: Seq<Seq<u8>>, s2: Seq<u8>|
                        codec::chain(
                            codec::parse_id(s2),
                            s2,
                            |change_id: Seq<u8>, s3: Seq<u8>|
                                codec::chain(
                                    Identity::parse(s3),
                                    s3,
                                    |author: IdentityV, s4: Seq<u8>|
                                        codec::chain(
                                            Identity::parse(s4),
                                            s4,
                                            |committer: IdentityV, s5: Seq<u8>|
                                                codec::chain(
                                                    codec::parse_text(s5),
                                                    s5,
                                                    |message: Seq<char>, s6: Seq<u8>|
                                                        codec::mapped(
                                                            Timestamp::parse(s6),
                                                            |timestamp: TimestampV|
                                                                SnapshotV {
                                                                    root_tree,
                                                                    parents,
                                                                    change_id,
                                                                    author,
                                                                    committer,
                                                                    message,
                                                                    timestamp,
                                                                },
                                                        ),
                                                ),
                                        ),
                                ),
                        ),
                ),
        )
    }

    fn decode(decoder: &mut Decoder<'_>) -> (r: Result<Self, Error>) {
        broadcast use codec::lemma_skip_skip;

        let root_tree = match decoder.object_id() {
            Ok(v) => v,
            Err(e) => {
                return Err(e);
            },
        };
        let parents = match decode_list::<ObjectId>(decoder) {
            Ok(v) => v,
            Err(e) => {
                return Err(e);
            },
        };
        let change_id = match decoder.object_id() {
            Ok(v) => v,
            Err(e) => {
                return Err(e);
            },
        };
        let author = match Identity::decode(decoder) {
            Ok(v) => v,
            Err(e) => {
                return Err(e);
            },
        };
        let committer = match Identity::decode(decoder) {
            Ok(v) => v,
            Err(e) => {
                return Err(e);
            },
        };
        let message = match decoder.str() {
            Ok(v) => v.to_owned(),
            Err(e) => {
                return Err(e);
            },
        };
        match Timestamp::decode(decoder) {
            Ok(timestamp) => Ok(
                Self { root_tree, parents, change_id, author, committer, message, timestamp },
            ),
            Err(e) => Err(e),
        }
    }
}

/// Whether the snapshot can be encoded.
pub open spec fn snapshot_fits(v: SnapshotV) -> bool {
    &&& is_id(v.root_tree)
    &&& ids_fit(v.parents)
    &&& is_id(v.change_id)
    &&& identity_fits(v.author)
    &&& identity_fits(v.committer)
    &&& text_fits(v.message)
}

/// A snapshot reads back from its encoding, whatever follows.
pub proof fn lemma_snapshot_round_trip(v: SnapshotV, tail: Seq<u8>)
    requires
        snapshot_fits(v),
    ensures
        Snapshot::parse(Snapshot::format(v) + tail) == codec::done(v, Snapshot::format(v).len()),
{
    let list = codec::enc_list(v.parents, encoding::item_format::<ObjectId>());
    let t6 = Timestamp::format(v.timestamp) + tail;
    let t5 = codec::enc_text(v.message) + t6;
    let t4 = Identity::format(v.committer) + t5;
    let t3 = Identity::format(v.author) + t4;
    let t2 = v.change_id + t3;
    let t1 = list + t2;
    assert(Snapshot::format(v) + tail =~= v.root_tree + t1);
    codec::lemma_raw_round_trip(v.root_tree, t1);
    lemma_ids_round_trip(v.parents, t2);
    codec::lemma_raw_round_trip(list, t2);
    codec::lemma_raw_round_trip(v.change_id, t3);
    lemma_identity_round_trip(v.author, t4);
    codec::lemma_raw_round_trip(Identity::format(v.author), t4);
    lemma_identity_round_trip(v.committer, t5);
    codec::lemma_raw_round_trip(Identity::format(v.committer), t5);
    codec::lemma_text_round_trip(v.message, t6);
    codec::lemma_raw_round_trip(codec::enc_text(v.message), t6);
    lemma_timestamp_round_trip(v.timestamp, tail);
}

// ── NamedRef — used by View ──────────────────────────────────────────────────

/// A named pointer to an [`ObjectId`] — used for bookmarks and tags in
/// [`View`].
#[derive(Debug, Clone, PartialEq, Eq)]
pub struct NamedRef {
    name: String,
    target: ObjectId,
}

/// A named pointer.
pub struct NamedRefV {
    pub name: Seq<char>,
    pub target: Seq<u8>,
}

impl vstd::view::View for NamedRef {
    type V = NamedRefV;

    closed spec fn view(&self) -> NamedRefV {
        NamedRefV { name: self.name@, target: self.target@ }
    }
}

impl NamedRef {
    /// Creates a new `NamedRef`.
    pub fn new(name: &str, target: ObjectId) -> (r: Self)
        ensures
            r@ == (NamedRefV { name: name@, target: target@ }),
    {
        Self { name: name.to_owned(), target }
    }

    /// Returns the bookmark or tag name.
    pub fn name(&self) -> (r: &str)
        ensures
            r@ == self@.name,
    {
        self.name.as_str()
    }

    /// Returns the target content address.
    pub fn target(&self) -> (r: ObjectId)
        ensures
            r@ == self@.target,
    {
        self.target
    }
}

impl Ranked for NamedRef {
    open spec fn rank(&self) -> Seq<int> {
        order::text_rank(self@.name)
    }

    fn precedes(&self, other: &Self) -> (r: bool) {
        text_before(self.name.as_str(), other.name.as_str())
    }
}

impl Encode for NamedRef {
    open spec fn format(v: NamedRefV) -> Seq<u8> {
        codec::enc_text(v.name) + v.target
    }

    fn encode(&self, encoder: &mut Encoder) {
        encoder.str(self.name.as_str());
        encoder.object_id(&self.target);
        assert(encoder@ =~= old(encoder)@ + Self::format(self@));
    }
}

impl Decode for NamedRef {
    open spec fn parse(s: Seq<u8>) -> Parsed<NamedRefV> {
        codec::chain(
            codec::parse_text(s),
            s,
            |name: Seq<char>, rest: Seq<u8>|
                codec::mapped(codec::parse_id(rest), |target: Seq<u8>| NamedRefV { name, target }),
        )
    }

    fn decode(decoder: &mut Decoder<'_>) -> (r: Result<Self, Error>) {
        broadcast use codec::lemma_skip_skip;

        let name = match decoder.str() {
            Ok(v) => v.to_owned(),
            Err(e) => {
                return Err(e);
            },
        };
        match decoder.object_id() {
            Ok(target) => Ok(Self { name, target }),
            Err(e) => Err(e),
        }
    }
}

/// Whether the list of pointers can be encoded.
pub open spec fn refs_fit(refs: Seq<NamedRefV>) -> bool {
    &&& refs.len() <= usize::MAX
    &&& forall|i: int|
        0 <= i < refs.len() ==> text_fits((#[trigger] refs[i]).name) && is_id(refs[i].target)
}

/// A named pointer reads back from its encoding, whatever follows.
pub proof fn lemma_named_ref_round_trip(v: NamedRefV, tail: Seq<u8>)
    requires
        text_fits(v.name),
        is_id(v.target),
    ensures
        NamedRef::parse(NamedRef::format(v) + tail) == codec::done(v, NamedRef::format(v).len()),
{
    let t1 = v.target + tail;
    assert(NamedRef::format(v) + tail =~= codec::enc_text(v.name) + t1);
    codec::lemma_text_round_trip(v.name, t1);
    codec::lemma_raw_round_trip(codec::enc_text(v.name), t1);
    codec::lemma_raw_round_trip(v.target, tail);
}

proof fn lemma_refs_round_trip(refs: Seq<NamedRefV>, tail: Seq<u8>)
    requires
        refs_fit(refs),
    ensures
        codec::parse_list(codec::enc_list(refs, encoding::item_format::<NamedRef>()) + tail, encoding::item_parse::<NamedRef>())
            == codec::done(refs, codec::enc_list(refs, encoding::item_format::<NamedRef>()).len()),
{
    assert forall|i: int| 0 <= i < refs.len() implies codec::reads_back(
        #[trigger] refs[i],
        encoding::item_format::<NamedRef>(),
        encoding::item_parse::<NamedRef>(),
    ) by {
        assert(text_fits(refs[i].name));
        assert forall|rest: Seq<u8>|
            encoding::item_parse::<NamedRef>()(#[trigger] (encoding::item_format::<NamedRef>()(refs[i]) + rest))
                == codec::done(refs[i], encoding::item_format::<NamedRef>()(refs[i]).len()) by {
            lemma_named_ref_round_trip(refs[i], rest);
        }
    }
    codec::lemma_list_round_trip(refs, encoding::item_format::<NamedRef>(), encoding::item_parse::<NamedRef>(), tail);
}

// ── View — tag 0x06 ──────────────────────────────────────────────────────────

/// The complete repo state at the end of one operation.
///
/// Encoding: `working_copy : ObjectId`, `bookmarks` and `tags` (sorted by
/// name), `heads` (sorted).
#[derive(Debug, Clone, PartialEq, Eq)]
pub struct View {
    working_copy: ObjectId,
    bookmarks: Vec<NamedRef>,
    tags: Vec<NamedRef>,
    heads: Vec<ObjectId>,
}

/// A repo state, field by field.
pub struct ViewV {
    pub working_copy: Seq<u8>,
    pub bookmarks: Seq<NamedRefV>,
    pub tags: Seq<NamedRefV>,
    pub heads: Seq<Seq<u8>>,
}

impl vstd::view::View for View {
    type V = ViewV;

    closed spec fn view(&self) -> ViewV {
        ViewV {
            working_copy: self.working_copy@,
            bookmarks: encoding::views(self.bookmarks@),
            tags: encoding::views(self.tags@),
            heads: encoding::views(self.heads@),
        }
    }
}

impl View {
    /// Creates a new `View`, sorting bookmarks by name, tags by name, and heads
    /// by their bytes.
    pub fn new(
        working_copy: ObjectId,
        bookmarks: Vec<NamedRef>,
        tags: Vec<NamedRef>,
        heads: Vec<ObjectId>,
    ) -> (r: Self)
        ensures
            r@ == (ViewV {
                working_copy: working_copy@,
                bookmarks: encoding::views(order::stable_sort(bookmarks@)),
                tags: encoding::views(order::stable_sort(tags@)),
                heads: encoding::views(order::stable_sort(heads@)),
            }),
    {
        let mut bookmarks = bookmarks;
        let mut tags = tags;
        let mut heads = heads;
        sort_stable(&mut bookmarks);
        sort_stable(&mut tags);
        sort_stable(&mut heads);
        Self { working_copy, bookmarks, tags, heads }
    }

    /// Returns the current working-copy snapshot id.
    pub fn working_copy(&self) -> (r: ObjectId)
        ensures
            r@ == self@.working_copy,
    {
        self.working_copy
    }

    /// Returns the sorted list of bookmarks.
    pub fn bookmarks(&self) -> (r: &[NamedRef])
        ensures
            encoding::views(r@) == self@.bookmarks,
    {
        self.bookmarks.as_slice()
    }

    /// Returns the sorted list of tags.
    pub fn tags(&self) -> (r: &[NamedRef])
        ensures
            encoding::views(r@) == self@.tags,
    {
        self.tags.as_slice()
    }

    /// Returns the sorted list of anonymous snapshot heads.
    pub fn heads(&self) -> (r: &[ObjectId])
        ensures
            encoding::views(r@) == self@.heads,
    {
        self.heads.as_slice()
    }

    /// Returns the content-address of this view.
    pub fn id(&self) -> (r: ObjectId)
        ensures
            r@ == hash::content_id(TypeTag::View, View::format(self@)),
    {
        hash_object(TypeTag::View, encode_to_vec(self).as_slice())
    }
}

impl Encode for View {
    open spec fn format(v: ViewV) -> Seq<u8> {
        v.working_copy + codec::enc_list(v.bookmarks, encoding::item_format::<NamedRef>()) + codec::enc_list(
            v.tags,
            encoding::item_format::<NamedRef>(),
        ) + codec::enc_list(v.heads, encoding::item_format::<ObjectId>())
    }

    fn encode(&self, encoder: &mut Encoder) {
        encoder.object_id(&self.working_copy);
        encode_list(self.bookmarks.as_slice(), encoder);
        encode_list(self.tags.as_slice(), encoder);
        encode_list(self.heads.as_slice(), encoder);
        assert(encoder@ =~= old(encoder)@ + Self::format(self@));
    }
}

impl Decode for View {
    open spec fn parse(s: Seq<u8>) -> Parsed<ViewV> {
        codec::chain(
            codec::parse_id(s),
            s,
            |working_copy: Seq<u8>, s1: Seq<u8>|
                codec::chain(
                    codec::parse_list(s1, encoding::item_parse::<NamedRef>()),
                    s1,
                    |bookmarks: Seq<NamedRefV>, s2: Seq<u8>|
                        codec::chain(
                            codec::parse_list(s2, encoding::item_parse::<NamedRef>()),
                            s2,
                            |tags: Seq<NamedRefV>, s3: Seq<u8>|
                                codec::mapped(
                                    codec::parse_list(s3, encoding::item_parse::<ObjectId>()),
                                    |heads: Seq<Seq<u8>>|
                                        ViewV { working_copy, bookmarks, tags, heads },
                                ),
                        ),
                ),
        )
    }

    fn decode(decoder: &mut Decoder<'_>) -> (r: Result<Self, Error>) {
        broadcast use codec::lemma_skip_skip;

        let working_copy = match decoder.object_id() {
            Ok(v) => v,
            Err(e) => {
                return Err(e);
            },
        };
        let bookmarks = match decode_list::<NamedRef>(decoder) {
            Ok(v) => v,
            Err(e) => {
                return Err(e);
            },
        };
        let tags = match decode_list::<NamedRef>(decoder) {
            Ok(v) => v,
            Err(e) => {
                return Err(e);
            },
        };
        match decode_list::<ObjectId>(decoder) {
            Ok(heads) => Ok(Self { working_copy, bookmarks, tags, heads }),
            Err(e) => Err(e),
        }
    }
}

/// Whether the view can be encoded.
pub open spec fn view_fits(v: ViewV) -> bool {
    &&& is_id(v.working_copy)
    &&& refs_fit(v.bookmarks)
    &&& refs_fit(v.tags)
    &&& ids_fit(v.heads)
}

/// A view reads back from its encoding, whatever follows.
pub proof fn lemma_view_round_trip(v: ViewV, tail: Seq<u8>)
    requires
        view_fits(v),
    ensures
        View::parse(View::format(v) + tail) == codec::done(v, View::format(v).len()),
{
    let bookmarks = codec::enc_list(v.bookmarks, encoding::item_format::<NamedRef>());
    let tags = codec::enc_list(v.tags, encoding::item_format::<NamedRef>());
    let heads = codec::enc_list(v.heads, encoding::item_format::<ObjectId>());
    let t3 = heads + tail;
    let t2 = tags + t3;
    let t1 = bookmarks + t2;
    assert(View::format(v) + tail =~= v.working_copy + t1);
    codec::lemma_raw_round_trip(v.working_copy, t1);
    lemma_refs_round_trip(v.bookmarks, t2);
    codec::lemma_raw_round_trip(bookmarks, t2);
    lemma_refs_round_trip(v.tags, t3);
    codec::lemma_raw_round_trip(tags, t3);
    lemma_ids_round_trip(v.heads, tail);
}

/// The order in which pointers are given does not matter: two lists with the same
/// pointers, in which a name stands for one target, make the same list of a view.
pub proof fn lemma_pointers_ignore_order(a: Seq<NamedRef>, b: Seq<NamedRef>)
    requires
        encoding::views(a).to_multiset() == encoding::views(b).to_multiset(),
        forall|i: int, j: int|
            0 <= i < a.len() && 0 <= j < a.len() && (#[trigger] a[i])@.name == (
            #[trigger] a[j])@.name ==> a[i]@.target == a[j]@.target,
    ensures
        encoding::views(order::stable_sort(a)) == encoding::views(order::stable_sort(b)),
{
    let rank = |v: NamedRefV| order::text_rank(v.name);
    let values = encoding::views(a);
    order::lemma_sort_views(a, rank);
    order::lemma_sort_views(b, rank);
    assert forall|i: int, j: int|
        0 <= i < values.len() && 0 <= j < values.len() && rank(#[trigger] values[i]) == rank(
            #[trigger] values[j],
        ) implies values[i] == values[j] by {
        order::lemma_text_rank_injective(a[i]@.name, a[j]@.name);
    }
    order::lemma_sort_ignores_order(values, encoding::views(b), rank);
}

/// The order in which heads are given does not matter.
pub proof fn lemma_heads_ignore_order(a: Seq<ObjectId>, b: Seq<ObjectId>)
    requires
        encoding::views(a).to_multiset() == encoding::views(b).to_multiset(),
    ensures
        encoding::views(order::stable_sort(a)) == encoding::views(order::stable_sort(b)),
{
    let rank = |v: Seq<u8>| order::ints(v);
    let values = encoding::views(a);
    order::lemma_sort_views(a, rank);
    order::lemma_sort_views(b, rank);
    assert forall|i: int, j: int|
        0 <= i < values.len() && 0 <= j < values.len() && rank(#[trigger] values[i]) == rank(
            #[trigger] values[j],
        ) implies values[i] == values[j] by {
        order::lemma_ints_injective(values[i], values[j]);
    }
    order::lemma_sort_ignores_order(values, encoding::views(b), rank);
}

// ── OpMetadata ───────────────────────────────────────────────────────────────

/// Metadata embedded in an [`Op`]: timing, machine identity, and the command.
#[derive(Debug, Clone, PartialEq, Eq)]
pub struct OpMetadata {
    start: Timestamp,
    end: Timestamp,
    hostname: String,
    username: String,
    command: Vec<String>,
}

/// The metadata of an operation, field by field.
pub struct OpMetadataV {
    pub start: TimestampV,
    pub end: TimestampV,
    pub hostname: Seq<char>,
    pub username: Seq<char>,
    pub command: Seq<Seq<char>>,
}

impl vstd::view::View for OpMetadata {
    type V = OpMetadataV;

    closed spec fn view(&self) -> OpMetadataV {
        OpMetadataV {
            start: self.start@,
            end: self.end@,
            hostname: self.hostname@,
            username: self.username@,
            command: encoding::views(self.command@),
        }
    }
}

impl OpMetadata {
    /// Creates a new `OpMetadata`.
    pub fn new(
        start: Timestamp,
        end: Timestamp,
        hostname: &str,
        username: &str,
        command: Vec<String>,
    ) -> (r: Self)
        ensures
            r@ == (OpMetadataV {
                start: start@,
                end: end@,
                hostname: hostname@,
                username: username@,
                command: encoding::views(command@),
            }),
    {
        Self {
            start,
            end,
            hostname: hostname.to_owned(),
            username: username.to_owned(),
            command,
        }
    }

    /// Returns the operation start time.
    pub fn start(&self) -> (r: Timestamp)
        ensures
            r@ == self@.start,
    {
        self.start
    }

    /// Returns the operation end time.
    pub fn end(&self) -> (r: Timestamp)
        ensures
            r@ == self@.end,
    {
        self.end
    }

    /// Returns the hostname of the machine that ran the operation.
    pub fn hostname(&self) -> (r: &str)
        ensures
            r@ == self@.hostname,
    {
        self.hostname.as_str()
    }

    /// Returns the username of the person (or agent) that ran the operation.
    pub fn username(&self) -> (r: &str)
        ensures
            r@ == self@.username,
    {
        self.username.as_str()
    }

    /// Returns the literal argv or agent-API call that triggered the operation.
    pub fn command(&self) -> (r: &[String])
        ensures
            encoding::views(r@) == self@.command,
    {
        self.command.as_slice()
    }
}

impl Encode for OpMetadata {
    open spec fn format(v: OpMetadataV) -> Seq<u8> {
        Timestamp::format(v.start) + Timestamp::format(v.end) + codec::enc_text(v.hostname) + codec::enc_text(
            v.username,
        ) + codec::enc_list(v.command, encoding::item_format::<String>())
    }

    fn encode(&self, encoder: &mut Encoder) {
        self.start.encode(encoder);
        self.end.encode(encoder);
        encoder.str(self.hostname.as_str());
        encoder.str(self.username.as_str());
        encode_list(self.command.as_slice(), encoder);
        assert(encoder@ =~= old(encoder)@ + Self::format(self@));
    }
}

/// The metadata of an operation.
#[verifier::opaque]
pub open spec fn parse_op_metadata(s: Seq<u8>) -> Parsed<OpMetadataV> {
    codec::chain(
        Timestamp::parse(s),
        s,
        |start: TimestampV, s1: Seq<u8>|
            codec::chain(
                Timestamp::parse(s1),
                s1,
                |end: TimestampV, s2: Seq<u8>|
                    codec::chain(
                        codec::parse_text(s2),
                        s2,
                        |hostname: Seq<char>, s3: Seq<u8>|
                            codec::chain(
                                codec::parse_text(s3),
                                s3,
                                |username: Seq<char>, s4: Seq<u8>|
                                    codec::mapped(
                                        codec::parse_list(s4, encoding::item_parse::<String>()),
                                        |command: Seq<Seq<char>>|
                                            OpMetadataV {
                                                start,
                                                end,
                                                hostname,
                                                username,
                                                command,
                                            },
                                    ),
                            ),
                    ),
            ),
    )
}

impl Decode for OpMetadata {
    open spec fn parse(s: Seq<u8>) -> Parsed<OpMetadataV> {
        parse_op_metadata(s)
    }

    fn decode(decoder: &mut Decoder<'_>) -> (r: Result<Self, Error>) {
        broadcast use codec::lemma_skip_skip;

        proof {
            reveal(parse_op_metadata);
        }
        let start = match Timestamp::decode(decoder) {
            Ok(v) => v,
            Err(e) => {
                return Err(e);
            },
        };
        let end = match Timestamp::decode(decoder) {
            Ok(v) => v,
            Err(e) => {
                return Err(e);
            },
        };
        let hostname = match decoder.str() {
            Ok(v) => v.to_owned(),
            Err(e) => {
                return Err(e);
            },
        };
        let username = match decoder.str() {
            Ok(v) => v.to_owned(),
            Err(e) => {
                return Err(e);
            },
        };
        match decode_list::<String>(decoder) {
            Ok(command) => Ok(Self { start, end, hostname, username, command }),
            Err(e) => Err(e),
        }
    }
}

/// Whether the metadata can be encoded.
pub open spec fn metadata_fits(v: OpMetadataV) -> bool {
    &&& text_fits(v.hostname)
    &&& text_fits(v.username)
    &&& v.command.len() <= usize::MAX
    &&& forall|i: int| 0 <= i < v.command.len() ==> text_fits(#[trigger] v.command[i])
}

/// Operation metadata reads back from its encoding, whatever follows.
pub proof fn lemma_op_metadata_round_trip(v: OpMetadataV, tail: Seq<u8>)
    requires
        metadata_fits(v),
    ensures
        OpMetadata::parse(OpMetadata::format(v) + tail) == codec::done(v, OpMetadata::format(v).len()),
{
    reveal(parse_op_metadata);
    let list = codec::enc_list(v.command, encoding::item_format::<String>());
    let t4 = list + tail;
    let t3 = codec::enc_text(v.username) + t4;
    let t2 = codec::enc_text(v.hostname) + t3;
    let t1 = Timestamp::format(v.end) + t2;
    assert(OpMetadata::format(v) + tail =~= Timestamp::format(v.start) + t1);
    lemma_timestamp_round_trip(v.start, t1);
    codec::lemma_raw_round_trip(Timestamp::format(v.start), t1);
    lemma_timestamp_round_trip(v.end, t2);
    codec::lemma_raw_round_trip(Timestamp::format(v.end), t2);
    codec::lemma_text_round_trip(v.hostname, t3);
    codec::lemma_raw_round_trip(codec::enc_text(v.hostname), t3);
    codec::lemma_text_round_trip(v.username, t4);
    codec::lemma_raw_round_trip(codec::enc_text(v.username), t4);
    assert forall|i: int| 0 <= i < v.command.len() implies codec::reads_back(
        #[trigger] v.command[i],
        encoding::item_format::<String>(),
        encoding::item_parse::<String>(),
    ) by {
        assert(text_fits(v.command[i]));
        assert forall|rest: Seq<u8>|
            encoding::item_parse::<String>()(#[trigger] (encoding::item_format::<String>()(v.command[i]) + rest))
                == codec::done(v.command[i], encoding::item_format::<String>()(v.command[i]).len()) by {
            codec::lemma_text_round_trip(v.command[i], rest);
        }
    }
    codec::lemma_list_round_trip(v.command, encoding::item_format::<String>(), encoding::item_parse::<String>(), tail);
}

// ── Op — tag 0x05 ────────────────────────────────────────────────────────────

/// One entry in the operation log.
///
/// Encoding: `parents : array<ObjectId>`, `view : ObjectId`, `metadata`,
/// `description : string`.
#[derive(Debug, Clone, PartialEq, Eq)]
pub struct Op {
    parents: Vec<ObjectId>,
    view: ObjectId,
    metadata: OpMetadata,
    description: String,
}

/// An operation, field by field.
pub struct OpV {
    pub parents: Seq<Seq<u8>>,
    pub view: Seq<u8>,
    pub metadata: OpMetadataV,
    pub description: Seq<char>,
}

impl vstd::view::View for Op {
    type V = OpV;

    closed spec fn view(&self) -> OpV {
        OpV {
            parents: encoding::views(self.parents@),
            view: self.view@,
            metadata: self.metadata@,
            description: self.description@,
        }
    }
}

impl Op {
    /// The operation, field by field.
    pub open spec fn model(&self) -> OpV {
        vstd::view::View::view(self)
    }

    /// Creates a new `Op`.
    pub fn new(
        parents: Vec<ObjectId>,
        view: ObjectId,
        metadata: OpMetadata,
        description: &str,
    ) -> (r: Self)
        ensures
            r.model() == (OpV {
                parents: encoding::views(parents@),
                view: view@,
                metadata: metadata@,
                description: description@,
            }),
    {
        Self { parents, view, metadata, description: description.to_owned() }
    }

    /// Returns the preceding operation ids (more than one only when merging
    /// divergent heads).
    pub fn parents(&self) -> (r: &[ObjectId])
        ensures
            encoding::views(r@) == self.model().parents,
    {
        self.parents.as_slice()
    }

    /// Returns the [`View`] content address at the end of this operation.
    pub fn view(&self) -> (r: ObjectId)
        ensures
            r@ == self.model().view,
    {
        self.view
    }

    /// Returns the operation metadata.
    pub fn metadata(&self) -> (r: &OpMetadata)
        ensures
            r@ == self.model().metadata,
    {
        &self.metadata
    }

    /// Returns the human-readable description of the operation.
    pub fn description(&self) -> (r: &str)
        ensures
            r@ == self.model().description,
    {
        self.description.as_str()
    }

    /// Returns the content-address of this op.
    pub fn id(&self) -> (r: ObjectId)
        ensures
            r@ == hash::content_id(TypeTag::Op, Op::format(self.model())),
    {
        hash_object(TypeTag::Op, encode_to_vec(self).as_slice())
    }
}

impl Encode for Op {
    open spec fn format(v: OpV) -> Seq<u8> {
        codec::enc_list(v.parents, encoding::item_format::<ObjectId>()) + v.view + OpMetadata::format(v.metadata)
            + codec::enc_text(v.description)
    }

    fn encode(&self, encoder: &mut Encoder) {
        encode_list(self.parents.as_slice(), encoder);
        encoder.object_id(&self.view);
        self.metadata.encode(encoder);
        encoder.str(self.description.as_str());
        assert(encoder@ =~= old(encoder)@ + Self::format(self.model()));
    }
}

impl Decode for Op {
    open spec fn parse(s: Seq<u8>) -> Parsed<OpV> {
        codec::chain(
            codec::parse_list(s, encoding::item_parse::<ObjectId>()),
            s,
            |parents: Seq<Seq<u8>>, s1: Seq<u8>|
                codec::chain(
                    codec::parse_id(s1),
                    s1,
                    |view: Seq<u8>, s2: Seq<u8>|
                        codec::chain(
                            OpMetadata::parse(s2),
                            s2,
                            |metadata: OpMetadataV, s3: Seq<u8>|
                                codec::mapped(
                                    codec::parse_text(s3),
                                    |description: Seq<char>|
                                        OpV { parents, view, metadata, description },
                                ),
                        ),
                ),
        )
    }

    fn decode(decoder: &mut Decoder<'_>) -> (r: Result<Self, Error>) {
        broadcast use codec::lemma_skip_skip;

        let parents = match decode_list::<ObjectId>(decoder) {
            Ok(v) => v,
            Err(e) => {
                return Err(e);
            },
        };
        let view = match decoder.object_id() {
            Ok(v) => v,
            Err(e) => {
                return Err(e);
            },
        };
        let metadata = match OpMetadata::decode(decoder) {
            Ok(v) => v,
            Err(e) => {
                return Err(e);
            },
        };
        match decoder.str() {
            Ok(description) => Ok(
                Self { parents, view, metadata, description: description.to_owned() },
            ),
            Err(e) => Err(e),
        }
    }
}

/// Whether the op can be encoded.
pub open spec fn op_fits(v: OpV) -> bool {
    &&& ids_fit(v.parents)
    &&& is_id(v.view)
    &&& metadata_fits(v.metadata)
    &&& text_fits(v.description)
}

/// An op reads back from its encoding, whatever follows.
pub proof fn lemma_op_round_trip(v: OpV, tail: Seq<u8>)
    requires
        op_fits(v),
    ensures
        Op::parse(Op::format(v) + tail) == codec::done(v, Op::format(v).len()),
{
    let list = codec::enc_list(v.parents, encoding::item_format::<ObjectId>());
    let t3 = codec::enc_text(v.description) + tail;
    let t2 = OpMetadata::format(v.metadata) + t3;
    let t1 = v.view + t2;
    assert(Op::format(v) + tail =~= list + t1);
    lemma_ids_round_trip(v.parents, t1);
    codec::lemma_raw_round_trip(list, t1);
    codec::lemma_raw_round_trip(v.view, t2);
    lemma_op_metadata_round_trip(v.metadata, t3);
    codec::lemma_raw_round_trip(OpMetadata::format(v.metadata), t3);
    codec::lemma_text_round_trip(v.description, tail);
}

// ── laws ─────────────────────────────────────────────────────────────────────

/// A name may stand in a tree unless it is empty, is `.` or `..`, or holds a slash or a
/// backslash.
pub proof fn law_valid_name(name: Seq<char>, a: Seq<char>, b: Seq<char>)
    ensures
        !valid_name(Seq::empty()),
        !valid_name(seq!['.']),
        !valid_name(seq!['.', '.']),
        !valid_name(a + seq!['/'] + b),
        !valid_name(a + seq!['\\'] + b),
        name.len() > 0 && name != seq!['.'] && name != seq!['.', '.'] && (forall|i: int|
            0 <= i < name.len() ==> #[trigger] name[i] != '/' && name[i] != '\\') ==> valid_name(
            name,
        ),
{
    reveal_strlit(".");
    reveal_strlit("..");
    assert("."@ =~= seq!['.']);
    assert(".."@ =~= seq!['.', '.']);
    assert((a + seq!['/'] + b)[a.len() as int] == '/');
    assert((a + seq!['\\'] + b)[a.len() as int] == '\\');
}

/// The bytes 0, 1 and 2 stand for a file, a directory and a symbolic link, and no other byte
/// for any kind.
pub proof fn law_kinds(byte: u8)
    ensures
        kind_of(0) == Ok::<EntryKind, ErrorV>(EntryKind::Blob),
        kind_of(1) == Ok::<EntryKind, ErrorV>(EntryKind::Tree),
        kind_of(2) == Ok::<EntryKind, ErrorV>(EntryKind::Symlink),
        byte > 2 ==> kind_of(byte) == Err::<EntryKind, ErrorV>(
            ErrorV::Corruption("unknown entry kind byte: "@ + text::decimal_text(byte as nat)),
        ),
{
}

/// An entry whose name may not stand in a tree makes the tree damaged, and the name is told.
pub proof fn law_bad_names(entry: TreeEntryV, tail: Seq<u8>)
    requires
        entry_fits(entry),
    ensures
        valid_name(entry.name) ==> parse_checked_entry(TreeEntry::format(entry) + tail).value == Ok::<
            TreeEntryV,
            ErrorV,
        >(entry),
        !valid_name(entry.name) ==> parse_checked_entry(TreeEntry::format(entry) + tail).value
            == Err::<TreeEntryV, ErrorV>(
            ErrorV::Corruption(
                "decoded tree entry name is illegal: "@ + text::debug_text(entry.name),
            ),
        ),
{
    lemma_tree_entry_round_trip(entry, tail);
}

/// Entries are in the order of the bytes of their names, where that of a directory has a slash
/// behind it.
pub proof fn law_entry_order(v: TreeEntryV)
    ensures
        v.kind is Tree ==> sort_key(v) == encode_utf8(v.name) + seq![47u8],
        !(v.kind is Tree) ==> sort_key(v) == encode_utf8(v.name),
{
    assert(encode_utf8(v.name).push(47u8) =~= encode_utf8(v.name) + seq![47u8]);
}

} // verus!
