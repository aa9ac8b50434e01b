use tack::encoding::{Decode, Decoder, Encode, Encoder};
use tack::error::Error;
use tack::hash::{hash_object, ObjectId, TypeTag};
use tack::object::{
    encode_to_vec, tree_entry, Blob, Chunk, ChunkRef, EntryKind, Identity, NamedRef, Op, OpMetadata,
    Snapshot, Timestamp, Tree, TreeEntry, View,
};

// ── helpers ───────────────────────────────────────────────────────────────

/// POSIX mode for a regular non-executable file.
const MODE_FILE: u32 = 0o100_644;
/// POSIX mode for a directory.
const MODE_DIR: u32 = 0o040_000;
/// POSIX mode for a symbolic link.
const MODE_SYMLINK: u32 = 0o120_000;

fn zero_id() -> ObjectId {
    ObjectId::from_bytes([0u8; 32])
}

fn one_id() -> ObjectId {
    ObjectId::from_bytes([1u8; 32])
}

fn two_id() -> ObjectId {
    ObjectId::from_bytes([2u8; 32])
}

fn sample_identity() -> Identity {
    Identity::new("Alice", "alice@example.com")
}

fn sample_timestamp() -> Timestamp {
    Timestamp::new(1_700_000_000, 60)
}

/// Encodes `value`, then decodes via `D::decode`, then re-encodes and
/// asserts byte-stable round-trip.
fn assert_round_trip<T: Encode + Decode + PartialEq + std::fmt::Debug>(value: &T) {
    let first_bytes = encode_to_vec(value);
    let mut dec = Decoder::new(&first_bytes);
    let value_back = T::decode(&mut dec).expect("decode should succeed");
    dec.finish().expect("no trailing bytes after decode");
    assert_eq!(value, &value_back, "decoded value differs from original");
    let second_bytes = encode_to_vec(&value_back);
    assert_eq!(
        first_bytes, second_bytes,
        "re-encoded bytes differ from first encoding — not byte-stable"
    );
}

// ── Chunk ─────────────────────────────────────────────────────────────────

#[test]
fn chunk_empty_round_trips() {
    let chunk = Chunk::new(vec![]);
    assert_round_trip(&chunk);
}

#[test]
fn chunk_data_round_trips() {
    let chunk = Chunk::new(b"hello tack".to_vec());
    assert_round_trip(&chunk);
}

#[test]
fn chunk_id_uses_tag_0x02() {
    let data = b"raw bytes";
    let chunk = Chunk::new(data.to_vec());
    let expected = hash_object(TypeTag::Chunk, data);
    assert_eq!(chunk.id(), expected);
}

#[test]
fn chunk_id_is_deterministic() {
    let a = Chunk::new(b"abc".to_vec());
    let b = Chunk::new(b"abc".to_vec());
    assert_eq!(a.id(), b.id());
}

#[test]
fn chunk_id_differs_for_different_data() {
    let a = Chunk::new(b"aaa".to_vec());
    let b = Chunk::new(b"bbb".to_vec());
    assert_ne!(a.id(), b.id());
}

// ── ChunkRef ──────────────────────────────────────────────────────────────

#[test]
fn chunk_ref_round_trips() {
    let chunk_ref = ChunkRef::new(zero_id(), 1024);
    assert_round_trip(&chunk_ref);
}

// ── Blob ──────────────────────────────────────────────────────────────────

#[test]
fn blob_empty_chunks_round_trips() {
    let blob = Blob::new(0, vec![]);
    assert_round_trip(&blob);
}

#[test]
fn blob_with_chunks_round_trips() {
    let blob = Blob::new(
        2048,
        vec![
            ChunkRef::new(zero_id(), 1024),
            ChunkRef::new(one_id(), 1024),
        ],
    );
    assert_round_trip(&blob);
}

#[test]
fn blob_id_uses_tag_0x01() {
    let blob = Blob::new(0, vec![]);
    let encoded = encode_to_vec(&blob);
    let expected = hash_object(TypeTag::Blob, &encoded);
    assert_eq!(blob.id(), expected);
}

#[test]
fn blob_id_is_deterministic() {
    let a = Blob::new(512, vec![ChunkRef::new(zero_id(), 512)]);
    let b = Blob::new(512, vec![ChunkRef::new(zero_id(), 512)]);
    assert_eq!(a.id(), b.id());
}

// ── EntryKind ─────────────────────────────────────────────────────────────

#[test]
fn entry_kind_round_trips() {
    for kind in [EntryKind::Blob, EntryKind::Tree, EntryKind::Symlink] {
        assert_round_trip(&kind);
    }
}

#[test]
fn entry_kind_from_unknown_byte_is_err() {
    let mut dec = Decoder::new(&[0xff]);
    let result = EntryKind::decode(&mut dec);
    assert!(
        matches!(result, Err(Error::Corruption(_))),
        "expected Corruption for unknown kind byte, got {result:?}"
    );
}

// ── TreeEntry ─────────────────────────────────────────────────────────────

#[test]
fn tree_entry_round_trips() {
    let entry = tree_entry("foo.txt", 0o100_644, EntryKind::Blob, zero_id())
        .expect("valid name");
    assert_round_trip(&entry);
}

// ── Tree sort rule ────────────────────────────────────────────────────────

/// Entries are sorted bytewise on name, with a trailing '/'
/// appended to directory names **for comparison only**.
///
/// Key test cases:
///
/// 1. File `foo` vs dir `foo` — dir sorts AFTER file because `"foo/"` > `"foo"`.
/// 2. File `foo.txt` vs dir `foo` — `"foo.txt"` > `"foo/"` because `'.'` (0x2e)
///    > `'/'` (0x2f) is false: `'.'` is 0x2e, `'/'` is 0x2f, so `"foo."` <
///    > `"foo/"`, meaning `foo.txt` sorts BEFORE `foo/` (dir).
///
/// Let's verify: `'.'` = 0x2e, `'/'` = 0x2f. So `"foo." < "foo/"`. Therefore
/// `foo.txt` sorts before dir `foo`.
#[test]
fn tree_sort_file_foo_before_dir_foo() -> Result<(), Error> {
    // file "foo" should sort before dir "foo" (compare "foo" < "foo/")
    let file_foo = tree_entry("foo", 0o100_644, EntryKind::Blob, zero_id())?;
    let dir_foo = tree_entry("foo", 0o040_000, EntryKind::Tree, one_id())?;
    let tree = Tree::new(vec![dir_foo, file_foo])?;
    assert_eq!(tree.entries()[0].name(), "foo");
    assert_eq!(tree.entries()[0].kind(), EntryKind::Blob, "file foo should be first");
    assert_eq!(tree.entries()[1].kind(), EntryKind::Tree, "dir foo should be second");
    Ok(())
}

#[test]
fn tree_sort_foo_txt_before_dir_foo() -> Result<(), Error> {
    // "foo.txt" key = "foo.txt" (0x66 0x6f 0x6f 0x2e 0x74 0x78 0x74)
    // dir "foo" key = "foo/"    (0x66 0x6f 0x6f 0x2f)
    // Compare byte 3: '.' (0x2e) < '/' (0x2f) -> foo.txt sorts BEFORE dir foo
    let file_foo_txt = tree_entry("foo.txt", 0o100_644, EntryKind::Blob, zero_id())?;
    let dir_foo = tree_entry("foo", 0o040_000, EntryKind::Tree, one_id())?;
    let tree = Tree::new(vec![dir_foo, file_foo_txt])?;
    assert_eq!(tree.entries()[0].name(), "foo.txt", "foo.txt should be first");
    assert_eq!(tree.entries()[1].name(), "foo", "dir foo should be second");
    Ok(())
}

#[test]
fn tree_sort_is_bytewise_ascending() -> Result<(), Error> {
    // Plain alphabetical order plus mixed kinds.
    let entry_a = tree_entry("alpha", 0o100_644, EntryKind::Blob, zero_id())?;
    let entry_b = tree_entry("beta", 0o040_000, EntryKind::Tree, one_id())?;
    let entry_c = tree_entry("gamma", 0o100_644, EntryKind::Blob, two_id())?;
    // Insert in reverse order; constructor must sort.
    let tree = Tree::new(vec![entry_c, entry_a, entry_b])?;
    let names: Vec<&str> = tree.entries().iter().map(TreeEntry::name).collect();
    // "alpha" < "beta/" < "gamma": 'a'=0x61 < 'b'=0x62 < 'g'=0x67
    assert_eq!(names, ["alpha", "beta", "gamma"]);
    Ok(())
}

// ── Tree name validation ───────────────────────────────────────────────────

#[test]
fn tree_rejects_empty_name() {
    let entry = raw_entry("");
    let result = Tree::new(vec![entry]);
    assert!(
        matches!(result, Err(Error::InvalidTreeEntryName(_))),
        "expected InvalidTreeEntryName for empty name"
    );
}

#[test]
fn tree_rejects_dot() {
    let entry = raw_entry(".");
    let result = Tree::new(vec![entry]);
    assert!(matches!(result, Err(Error::InvalidTreeEntryName(_))));
}

#[test]
fn tree_rejects_dotdot() {
    let entry = raw_entry("..");
    let result = Tree::new(vec![entry]);
    assert!(matches!(result, Err(Error::InvalidTreeEntryName(_))));
}

#[test]
fn tree_rejects_name_with_forward_slash() {
    let entry = raw_entry("foo/bar");
    let result = Tree::new(vec![entry]);
    assert!(matches!(result, Err(Error::InvalidTreeEntryName(_))));
}

#[test]
fn tree_rejects_name_with_backslash() {
    let entry = raw_entry("foo\\bar");
    let result = Tree::new(vec![entry]);
    assert!(matches!(result, Err(Error::InvalidTreeEntryName(_))));
}

/// An entry whose name was never validated.
fn raw_entry(name: &str) -> TreeEntry {
    let mut enc = Encoder::new();
    enc.str(name);
    enc.u32(MODE_FILE);
    EntryKind::Blob.encode(&mut enc);
    enc.object_id(&zero_id());
    let bytes = enc.into_bytes();
    TreeEntry::decode(&mut Decoder::new(&bytes)).expect("entry decodes")
}

/// Hand-encodes a single-entry tree carrying `name` (bypassing `Tree::new`'s
/// validation) so the decode path can be exercised against a hostile name.
fn encode_tree_with_raw_name(name: &str) -> Vec<u8> {
    let mut enc = Encoder::new();
    enc.array_len(1);
    // One TreeEntry: name, mode, kind, id.
    enc.str(name);
    enc.u32(MODE_FILE);
    EntryKind::Blob.encode(&mut enc);
    enc.object_id(&zero_id());
    enc.into_bytes()
}

/// A tree whose decoded entry name is a traversal component (`".."`) must be
/// rejected when it is read, not silently trusted.
#[test]
fn decode_rejects_dotdot_name_as_corruption() {
    let bytes = encode_tree_with_raw_name("..");
    let mut dec = Decoder::new(&bytes);
    let result = Tree::decode(&mut dec);
    assert!(
        matches!(result, Err(Error::Corruption(_))),
        "decode of a `..` entry name must be Corruption, got {result:?}"
    );
}

#[test]
fn decode_rejects_separator_name_as_corruption() {
    for hostile in ["a/b", "a\\b", ".", ""] {
        let bytes = encode_tree_with_raw_name(hostile);
        let mut dec = Decoder::new(&bytes);
        let result = Tree::decode(&mut dec);
        assert!(
            matches!(result, Err(Error::Corruption(_))),
            "decode of name {hostile:?} must be Corruption, got {result:?}"
        );
    }
}

#[test]
fn decode_accepts_legal_name() {
    // A normal name must still round-trip through decode unharmed.
    let bytes = encode_tree_with_raw_name("ok.txt");
    let mut dec = Decoder::new(&bytes);
    let tree = Tree::decode(&mut dec).expect("legal name decodes");
    assert_eq!(tree.entries()[0].name(), "ok.txt");
}

#[test]
fn decode_bounds_array_capacity_against_remaining() {
    // A crafted object that claims a gigantic element count but supplies no
    // element bytes must fail cleanly with an error — never abort the process
    // via a speculative `Vec::with_capacity(huge)`. The decode loop's first
    // element read hits the end of the buffer and returns Truncated.
    let huge: usize = 1 << 40; // ~1 TiB of "elements"

    // Blob: u64 total_len, then a varint chunk count, then no chunks.
    let mut enc = Encoder::new();
    enc.u64(0);
    enc.array_len(huge);
    let bytes = enc.into_bytes();
    assert!(
        Blob::decode(&mut Decoder::new(&bytes)).is_err(),
        "a huge chunk count with no chunk bytes must error, not abort"
    );

    // Tree: a varint entry count, then no entries.
    let mut enc = Encoder::new();
    enc.array_len(huge);
    let bytes = enc.into_bytes();
    assert!(
        Tree::decode(&mut Decoder::new(&bytes)).is_err(),
        "a huge entry count with no entry bytes must error, not abort"
    );
}

#[test]
fn tree_round_trips() -> Result<(), Error> {
    let entries = vec![
        tree_entry("alpha", MODE_FILE, EntryKind::Blob, zero_id())?,
        tree_entry("beta", MODE_DIR, EntryKind::Tree, one_id())?,
        tree_entry("gamma", MODE_SYMLINK, EntryKind::Symlink, two_id())?,
    ];
    let tree = Tree::new(entries)?;
    assert_round_trip(&tree);
    Ok(())
}

#[test]
fn tree_id_uses_tag_0x03() -> Result<(), Error> {
    let tree = Tree::new(vec![])?;
    let encoded = encode_to_vec(&tree);
    let expected = hash_object(TypeTag::Tree, &encoded);
    assert_eq!(tree.id(), expected);
    Ok(())
}

// ── id() type-tag isolation ────────────────────────────────────────────────

/// Two objects whose canonical payloads coincidentally match must still get
/// different IDs because the type tag differs.
#[test]
fn id_differs_between_blob_and_tree_with_equal_payloads() -> Result<(), Error> {
    // Empty blob and empty tree both encode to the same bytes (both are just
    // a u64 zero + varint zero, or just a varint zero for the array). Build
    // them so their encoded payloads are equal and verify ids differ.
    let blob = Blob::new(0, vec![]);
    let tree = Tree::new(vec![])?;

    // They likely won't have equal payloads, but even if they did the ids
    // must differ. Let's just confirm the type-tag separation works:
    let blob_id = hash_object(TypeTag::Blob, &encode_to_vec(&blob));
    let tree_id = hash_object(TypeTag::Tree, &encode_to_vec(&tree));
    assert_ne!(blob_id, tree_id, "type-tag separation must produce different ids");
    Ok(())
}

#[test]
fn id_stability_same_content_same_id() {
    let chunk_a = Chunk::new(b"stable".to_vec());
    let chunk_b = Chunk::new(b"stable".to_vec());
    assert_eq!(chunk_a.id(), chunk_b.id());
}

#[test]
fn id_stability_different_content_different_id() {
    let chunk_a = Chunk::new(b"aaa".to_vec());
    let chunk_b = Chunk::new(b"bbb".to_vec());
    assert_ne!(chunk_a.id(), chunk_b.id());
}

// ── Identity ──────────────────────────────────────────────────────────────

#[test]
fn identity_round_trips() {
    let id = sample_identity();
    assert_round_trip(&id);
}

#[test]
fn identity_empty_fields_round_trip() {
    let id = Identity::new("", "");
    assert_round_trip(&id);
}

#[test]
fn identity_email_returns_email() {
    let id = Identity::new("Alice", "alice@example.com");
    assert_eq!(id.email(), "alice@example.com");
}

// ── Timestamp ─────────────────────────────────────────────────────────────

#[test]
fn timestamp_round_trips() {
    let ts = sample_timestamp();
    assert_round_trip(&ts);
}

#[test]
fn timestamp_negative_unix_secs_round_trips() {
    let ts = Timestamp::new(-86400, -480); // UTC-8
    assert_round_trip(&ts);
}

// ── Snapshot ──────────────────────────────────────────────────────────────

fn sample_snapshot() -> Snapshot {
    Snapshot::new(
        zero_id(),
        vec![one_id()],
        two_id(),
        sample_identity(),
        Identity::new("Bot", "bot@ci.example.com"),
        "initial snapshot",
        sample_timestamp(),
    )
}

#[test]
fn snapshot_round_trips() {
    assert_round_trip(&sample_snapshot());
}

#[test]
fn snapshot_root_no_parents_round_trips() {
    let snap = Snapshot::new(
        zero_id(),
        vec![],
        one_id(),
        sample_identity(),
        sample_identity(),
        "",
        sample_timestamp(),
    );
    assert_round_trip(&snap);
}

#[test]
fn snapshot_id_uses_tag_0x04() {
    let snap = sample_snapshot();
    let encoded = encode_to_vec(&snap);
    let expected = hash_object(TypeTag::Snapshot, &encoded);
    assert_eq!(snap.id(), expected);
}

#[test]
fn snapshot_id_is_deterministic() {
    let a = sample_snapshot();
    let b = sample_snapshot();
    assert_eq!(a.id(), b.id());
}

// ── NamedRef ──────────────────────────────────────────────────────────────

#[test]
fn named_ref_round_trips() {
    let nr = NamedRef::new("main", zero_id());
    assert_round_trip(&nr);
}

#[test]
fn named_ref_target_returns_target() {
    let nr = NamedRef::new("main", one_id());
    assert_eq!(nr.target(), one_id());
}

// ── View ──────────────────────────────────────────────────────────────────

fn sample_view() -> View {
    View::new(
        zero_id(),
        vec![
            NamedRef::new("main", one_id()),
            NamedRef::new("dev", two_id()),
        ],
        vec![NamedRef::new("v1.0", zero_id())],
        vec![two_id(), one_id()],
    )
}

#[test]
fn view_round_trips() {
    assert_round_trip(&sample_view());
}

#[test]
fn view_empty_round_trips() {
    let view = View::new(zero_id(), vec![], vec![], vec![]);
    assert_round_trip(&view);
}

#[test]
fn view_bookmarks_sorted_by_name() {
    let view = View::new(
        zero_id(),
        vec![
            NamedRef::new("zzz", one_id()),
            NamedRef::new("aaa", two_id()),
        ],
        vec![],
        vec![],
    );
    assert_eq!(view.bookmarks()[0].name(), "aaa");
    assert_eq!(view.bookmarks()[1].name(), "zzz");
}

#[test]
fn view_tags_sorted_by_name() {
    let view = View::new(
        zero_id(),
        vec![],
        vec![
            NamedRef::new("v2.0", one_id()),
            NamedRef::new("v1.0", two_id()),
        ],
        vec![],
    );
    assert_eq!(view.tags()[0].name(), "v1.0");
    assert_eq!(view.tags()[1].name(), "v2.0");
}

#[test]
fn view_heads_sorted() {
    let view = View::new(zero_id(), vec![], vec![], vec![two_id(), one_id(), zero_id()]);
    // Sorted by byte representation: [0;32] < [1;32] < [2;32]
    assert_eq!(view.heads()[0], zero_id());
    assert_eq!(view.heads()[1], one_id());
    assert_eq!(view.heads()[2], two_id());
}

#[test]
fn view_id_uses_tag_0x06() {
    let view = sample_view();
    let encoded = encode_to_vec(&view);
    let expected = hash_object(TypeTag::View, &encoded);
    assert_eq!(view.id(), expected);
}

// ── OpMetadata ────────────────────────────────────────────────────────────

fn sample_metadata() -> OpMetadata {
    OpMetadata::new(
        Timestamp::new(1_700_000_000, 0),
        Timestamp::new(1_700_000_001, 0),
        "machine-01",
        "alice",
        vec!["tack".to_owned(), "snap".to_owned(), "-m".to_owned(), "msg".to_owned()],
    )
}

#[test]
fn op_metadata_round_trips() {
    assert_round_trip(&sample_metadata());
}

#[test]
fn op_metadata_command_returns_argv() {
    let meta = sample_metadata();
    assert_eq!(
        meta.command(),
        ["tack".to_owned(), "snap".to_owned(), "-m".to_owned(), "msg".to_owned()]
    );
}

// ── Op ────────────────────────────────────────────────────────────────────

fn sample_op() -> Op {
    Op::new(
        vec![zero_id()],
        one_id(),
        sample_metadata(),
        "snapshot working copy",
    )
}

#[test]
fn op_round_trips() {
    assert_round_trip(&sample_op());
}

#[test]
fn op_root_no_parents_round_trips() {
    let op = Op::new(vec![], zero_id(), sample_metadata(), "init");
    assert_round_trip(&op);
}

#[test]
fn op_id_uses_tag_0x05() {
    let op = sample_op();
    let encoded = encode_to_vec(&op);
    let expected = hash_object(TypeTag::Op, &encoded);
    assert_eq!(op.id(), expected);
}

#[test]
fn op_id_is_deterministic() {
    let a = sample_op();
    let b = sample_op();
    assert_eq!(a.id(), b.id());
}

// ── many byte-stable round-trips ──────────────────────────────────────────

/// A reproducible source of values (xorshift).
struct Source(u64);

impl Source {
    fn next(&mut self) -> u64 {
        self.0 ^= self.0 << 13;
        self.0 ^= self.0 >> 7;
        self.0 ^= self.0 << 17;
        self.0
    }

    fn below(&mut self, n: u64) -> u64 {
        self.next() % n
    }

    fn bytes(&mut self) -> Vec<u8> {
        let n = self.below(40);
        (0..n).map(|_| self.next() as u8).collect()
    }

    fn text(&mut self) -> String {
        let n = self.below(12);
        (0..n).filter_map(|_| char::from_u32(self.below(0x11_0000) as u32)).collect()
    }

    fn id(&mut self) -> ObjectId {
        let mut bytes = [0u8; 32];
        for b in &mut bytes {
            *b = self.next() as u8;
        }
        ObjectId::from_bytes(bytes)
    }

    fn ids(&mut self) -> Vec<ObjectId> {
        let n = self.below(4);
        (0..n).map(|_| self.id()).collect()
    }

    fn blob(&mut self) -> Blob {
        let total = self.next();
        let n = self.below(8);
        let chunks = (0..n).map(|_| ChunkRef::new(self.id(), self.next() as u32)).collect();
        Blob::new(total, chunks)
    }

    fn identity(&mut self) -> Identity {
        let name = self.text();
        Identity::new(&name, &self.text())
    }

    fn timestamp(&mut self) -> Timestamp {
        Timestamp::new(self.next() as i64, self.next() as i32)
    }

    fn refs(&mut self) -> Vec<NamedRef> {
        let n = self.below(4);
        (0..n)
            .map(|_| {
                let name = self.text();
                NamedRef::new(&name, self.id())
            })
            .collect()
    }
}

fn sources() -> Vec<Source> {
    (1..65).map(|i| Source(i * 0x9e37_79b9_7f4a_7c15)).collect()
}

#[test]
fn prop_chunk_round_trip() {
    for mut source in sources() {
        assert_round_trip(&Chunk::new(source.bytes()));
    }
}

#[test]
fn prop_blob_round_trip() {
    for mut source in sources() {
        assert_round_trip(&source.blob());
    }
}

#[test]
fn prop_snapshot_round_trip() {
    for mut source in sources() {
        let snap = Snapshot::new(
            source.id(),
            source.ids(),
            source.id(),
            source.identity(),
            source.identity(),
            &source.text(),
            source.timestamp(),
        );
        assert_round_trip(&snap);
    }
}

#[test]
fn prop_view_round_trip() {
    for mut source in sources() {
        let view = View::new(source.id(), source.refs(), source.refs(), source.ids());
        assert_round_trip(&view);
    }
}

#[test]
fn prop_op_round_trip() {
    for mut source in sources() {
        let command = (0..source.below(4)).map(|_| source.text()).collect();
        let metadata = OpMetadata::new(
            source.timestamp(),
            source.timestamp(),
            &source.text(),
            &source.text(),
            command,
        );
        let op = Op::new(source.ids(), source.id(), metadata, &source.text());
        assert_round_trip(&op);
    }
}

#[test]
fn prop_chunk_id_stable() {
    for mut source in sources() {
        let data = source.bytes();
        let a = Chunk::new(data.clone());
        let b = Chunk::new(data);
        assert_eq!(a.id(), b.id());
    }
}

#[test]
fn prop_blob_id_stable() {
    for mut source in sources() {
        let blob = source.blob();
        let a = blob.clone();
        assert_eq!(a.id(), blob.id());
    }
}

#[test]
fn the_order_of_parts_does_not_matter() -> Result<(), Error> {
    let entry = |name: &str| tree_entry(name, 0o100_644, EntryKind::Blob, zero_id());
    let one_way = Tree::new(vec![entry("a")?, entry("b")?, entry("c")?])?;
    let other_way = Tree::new(vec![entry("c")?, entry("a")?, entry("b")?])?;
    assert_eq!(one_way.id(), other_way.id());
    let mark = |name: &str| NamedRef::new(name, one_id());
    let one_way = View::new(zero_id(), vec![mark("x"), mark("y")], vec![], vec![one_id(), two_id()]);
    let other_way = View::new(zero_id(), vec![mark("y"), mark("x")], vec![], vec![two_id(), one_id()]);
    assert_eq!(one_way.id(), other_way.id());
    Ok(())
}
