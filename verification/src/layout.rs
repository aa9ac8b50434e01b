//! How objects look as bytes.
//!
//! The laws here say, of each number, text and object, which bytes stand for it and
//! in which order, and what its id is the digest of.
use vstd::prelude::*;
use vstd::utf8::*;
use vstd::view::View as _;

use crate::codec;
use crate::encoding;
use crate::hash;
use crate::store;
use crate::encoding::{Decode, Encode};
use crate::error::ErrorV;
use crate::hash::{ObjectId, TypeTag};
use crate::object::{
    Blob, BlobV, Chunk, ChunkRef, ChunkRefV, EntryKind, Identity, IdentityV, NamedRef, NamedRefV, Op,
    OpMetadata, OpMetadataV, OpV, Snapshot, SnapshotV, Timestamp, TimestampV, Tree, TreeEntry,
    TreeEntryV, TreeV, View, ViewV,
};
use crate::store::Objects;

verus! {

// ── numbers ──────────────────────────────────────────────────────────────────

/// The byte at a place of a number, the lowest at place 0.
pub open spec fn place(v: nat, i: nat) -> u8
    decreases i,
{
    if i == 0 {
        (v % 256) as u8
    } else {
        place(v / 256, (i - 1) as nat)
    }
}

/// The bytes of a number, the lowest first.
pub open spec fn fixed(v: nat, n: nat) -> Seq<u8> {
    Seq::new(n, |i: int| place(v, i as nat))
}

proof fn lemma_fixed(v: nat, n: nat)
    ensures
        codec::le_bytes(v, n) == fixed(v, n),
    decreases n,
{
    if n > 0 {
        lemma_fixed(v / 256, (n - 1) as nat);
        let rest = fixed(v / 256, (n - 1) as nat);
        assert forall|i: int| 0 <= i < n implies #[trigger] codec::le_bytes(v, n)[i] == fixed(
            v,
            n,
        )[i] by {
            if i > 0 {
                assert(codec::le_bytes(v, n)[i] == rest[i - 1]);
            }
        }
    }
    assert(codec::le_bytes(v, n) =~= fixed(v, n));
}

/// Numbers of four and of eight bytes have the lowest byte first; a negative one is
/// what is left of the next power of two.
pub proof fn law_numbers(a: u32, b: u64, c: i32, d: i64)
    ensures
        codec::enc_u32(a) == fixed(a as nat, 4),
        codec::enc_u64(b) == fixed(b as nat, 8),
        c >= 0 ==> codec::enc_i32(c) == fixed(c as nat, 4),
        c < 0 ==> codec::enc_i32(c) == fixed((0x1_0000_0000 + c) as nat, 4),
        d >= 0 ==> codec::enc_i64(d) == fixed(d as nat, 8),
        d < 0 ==> codec::enc_i64(d) == fixed((0x1_0000_0000_0000_0000 + d) as nat, 8),
{
    lemma_fixed(a as nat, 4);
    lemma_fixed(b as nat, 8);
    lemma_fixed(codec::unsigned32(c), 4);
    lemma_fixed(codec::unsigned64(d), 8);
}

/// The number that bytes of seven bits each make, the lowest first.
pub open spec fn sevens(bytes: Seq<u8>) -> nat
    decreases bytes.len(),
{
    if bytes.len() == 0 {
        0
    } else {
        bytes[0] as nat % 128 + 128 * sevens(bytes.skip(1))
    }
}

/// A length is written with seven bits to a byte, the lowest first; every byte but the
/// last has its high bit set, and the last is not zero unless it is the only one.
pub proof fn law_varint(n: nat)
    ensures
        ({
            let bytes = codec::leb128(n);
            &&& bytes.len() > 0
            &&& sevens(bytes) == n
            &&& bytes.last() < 128
            &&& bytes.len() > 1 ==> bytes.last() > 0
            &&& forall|i: int| 0 <= i < bytes.len() - 1 ==> #[trigger] bytes[i] >= 128
        }),
    decreases n,
{
    let bytes = codec::leb128(n);
    if n < 128 {
        assert(sevens(bytes.skip(1)) == 0);
    } else {
        let rest = codec::leb128(n / 128);
        law_varint(n / 128);
        assert(bytes.skip(1) =~= rest);
        assert(bytes.last() == rest.last());
        assert((128 + n % 128) as u8 as nat % 128 == n % 128);
        if rest.len() == 1 {
            assert(sevens(rest.skip(1)) == 0);
            assert(n / 128 > 0);
        }
        assert forall|i: int| 0 <= i < bytes.len() - 1 implies #[trigger] bytes[i] >= 128 by {
            if i > 0 {
                assert(bytes[i] == rest[i - 1]);
            }
        }
    }
}

/// Whether bytes are a length as it may be written: at most ten, with the high bit set on
/// all but the last.
pub open spec fn is_varint(bytes: Seq<u8>) -> bool {
    &&& 0 < bytes.len() <= 10
    &&& bytes.last() < 128
    &&& forall|i: int| 0 <= i < bytes.len() - 1 ==> #[trigger] bytes[i] >= 128
}

proof fn lemma_varint_from(s: Seq<u8>, bytes: Seq<u8>, i: nat, acc: nat)
    requires
        is_varint(bytes),
        i < bytes.len(),
        bytes.len() <= s.len(),
        s.take(bytes.len() as int) == bytes,
    ensures
        codec::varint_from(s, i, acc) == codec::done(
            ((acc + sevens(bytes.skip(i as int)) * codec::pow128(i)) % 0x1_0000_0000_0000_0000) as u64,
            bytes.len(),
        ),
    decreases bytes.len() - i,
{
    let rest = bytes.skip(i as int);
    let b = bytes[i as int];
    assert(s[i as int] == s.take(bytes.len() as int)[i as int]);
    assert(rest[0] == b);
    let next = acc + (b as nat % 128) * codec::pow128(i);
    let p = codec::pow128(i);
    let low = b as nat % 128;
    assert(rest.skip(1) =~= bytes.skip(i as int + 1));
    if i == bytes.len() - 1 {
        assert(rest.skip(1).len() == 0);
        assert(sevens(rest.skip(1)) == 0);
        assert(sevens(rest) == low);
    } else {
        lemma_varint_from(s, bytes, i + 1, next);
        let high = sevens(bytes.skip(i as int + 1));
        assert(sevens(rest) == low + 128 * high);
        assert(codec::pow128(i + 1) == 128 * p);
        assert((low + 128 * high) * p == low * p + high * (128 * p)) by (nonlinear_arith);
    }
}

/// A length is read from the bytes that write it, and nothing behind them; of a number
/// that is too large the low 64 bits are kept. More than ten bytes are too many, and bytes
/// that end early are too few.
pub proof fn law_varint_read(bytes: Seq<u8>, tail: Seq<u8>, s: Seq<u8>)
    ensures
        is_varint(bytes) ==> codec::parse_varint(bytes + tail) == codec::done(
            (sevens(bytes) % 0x1_0000_0000_0000_0000) as u64,
            bytes.len(),
        ),
        s.len() >= 10 && (forall|i: int| 0 <= i < 10 ==> #[trigger] s[i] >= 128)
            ==> codec::parse_varint(s).value == Err::<u64, ErrorV>(ErrorV::OverlongVarint),
        s.len() < 10 && (forall|i: int| 0 <= i < s.len() ==> #[trigger] s[i] >= 128)
            ==> codec::parse_varint(s).value == Err::<u64, ErrorV>(ErrorV::Truncated),
{
    if is_varint(bytes) {
        let all = bytes + tail;
        assert(all.take(bytes.len() as int) =~= bytes);
        lemma_varint_from(all, bytes, 0, 0);
        assert(bytes.skip(0) =~= bytes);
        assert(codec::pow128(0) == 1);
        assert(sevens(bytes) * 1 == sevens(bytes));
    }
    if forall|i: int| 0 <= i < s.len() && i < 10 ==> #[trigger] s[i] >= 128 {
        lemma_varint_open(s, 0, 0);
    }
}

proof fn lemma_varint_open(s: Seq<u8>, i: nat, acc: nat)
    requires
        i <= 10,
        i <= s.len(),
        forall|k: int| 0 <= k < s.len() && k < 10 ==> #[trigger] s[k] >= 128,
    ensures
        codec::varint_from(s, i, acc).value == Err::<u64, ErrorV>(
            if s.len() >= 10 {
                ErrorV::OverlongVarint
            } else {
                ErrorV::Truncated
            },
        ),
    decreases 10 - i,
{
    if i < 10 && i < s.len() {
        let next = acc + (s[i as int] as nat % 128) * codec::pow128(i);
        lemma_varint_open(s, i + 1, next);
    }
}

/// Numbers and ids are read from as many bytes as they are written in; where there are
/// fewer, the input is truncated.
pub proof fn law_truncated(s: Seq<u8>)
    ensures
        s.len() < 1 ==> codec::parse_u8(s).value == Err::<u8, ErrorV>(ErrorV::Truncated),
        s.len() < 4 ==> codec::parse_u32(s).value == Err::<u32, ErrorV>(ErrorV::Truncated),
        s.len() < 8 ==> codec::parse_u64(s).value == Err::<u64, ErrorV>(ErrorV::Truncated),
        s.len() < 4 ==> codec::parse_i32(s).value == Err::<i32, ErrorV>(ErrorV::Truncated),
        s.len() < 8 ==> codec::parse_i64(s).value == Err::<i64, ErrorV>(ErrorV::Truncated),
        s.len() < 32 ==> codec::parse_id(s).value == Err::<Seq<u8>, ErrorV>(ErrorV::Truncated),
        s.len() >= 32 ==> codec::parse_id(s) == codec::done(s.take(32), 32),
        s.len() >= 1 ==> codec::parse_u8(s) == codec::done(s[0], 1),
{
}

// ── texts and lists ──────────────────────────────────────────────────────────

/// The bytes of a text: how many they are, and they themselves.
pub open spec fn text_bytes(s: Seq<char>) -> Seq<u8> {
    codec::leb128(encode_utf8(s).len()) + encode_utf8(s)
}

/// The parts, one after the other.
pub open spec fn flat(parts: Seq<Seq<u8>>) -> Seq<u8>
    decreases parts.len(),
{
    if parts.len() == 0 {
        seq![]
    } else {
        parts[0] + flat(parts.skip(1))
    }
}

/// A list: how many items it has, and their bytes, one after the other.
pub open spec fn list_bytes(parts: Seq<Seq<u8>>) -> Seq<u8> {
    codec::leb128(parts.len()) + flat(parts)
}

proof fn lemma_flat_push(parts: Seq<Seq<u8>>, last: Seq<u8>)
    ensures
        flat(parts.push(last)) == flat(parts) + last,
    decreases parts.len(),
{
    let more = parts.push(last);
    if parts.len() == 0 {
        assert(more.skip(1) =~= parts);
        assert(flat(more) =~= flat(parts) + last);
    } else {
        assert(more.skip(1) =~= parts.skip(1).push(last));
        lemma_flat_push(parts.skip(1), last);
        assert(flat(more) =~= flat(parts) + last);
    }
}

/// A list is written as its length and its items, in order.
pub proof fn law_list<T>(items: Seq<T>, one: spec_fn(T) -> Seq<u8>)
    ensures
        codec::enc_list(items, one) == list_bytes(items.map_values(one)),
{
    reveal(codec::enc_list);
    lemma_many(items, one);
}

proof fn lemma_many<T>(items: Seq<T>, one: spec_fn(T) -> Seq<u8>)
    ensures
        codec::enc_many(items, one) == flat(items.map_values(one)),
    decreases items.len(),
{
    if items.len() > 0 {
        let before = items.drop_last();
        lemma_many(before, one);
        lemma_flat_push(before.map_values(one), one(items.last()));
        assert(before.map_values(one).push(one(items.last())) =~= items.map_values(one));
    } else {
        assert(items.map_values(one) =~= seq![]);
    }
}

/// A text is written as its length in bytes and its bytes.
pub proof fn law_text(s: Seq<char>)
    ensures
        codec::enc_text(s) == text_bytes(s),
{
    reveal(codec::enc_text);
    reveal(codec::enc_bytes);
}

/// A count that the machine cannot hold is refused.
pub proof fn law_huge_counts(n: u64, tail: Seq<u8>)
    ensures
        n > usize::MAX ==> codec::parse_bytes(codec::leb128(n as nat) + tail).value == Err::<
            Seq<u8>,
            ErrorV,
        >(ErrorV::Corruption("byte-string length overflows usize"@)),
        n > usize::MAX ==> codec::parse_count(codec::leb128(n as nat) + tail).value == Err::<
            usize,
            ErrorV,
        >(ErrorV::Corruption("array length overflows usize"@)),
        n <= usize::MAX ==> codec::parse_count(codec::leb128(n as nat) + tail).value == Ok::<
            usize,
            ErrorV,
        >(n as usize),
{
    reveal(codec::parse_bytes);
    reveal(codec::parse_count);
    codec::lemma_varint_round_trip(n, tail);
}

/// A text whose bytes are no UTF-8 is refused, and so is one that has fewer bytes than it
/// says.
pub proof fn law_bad_text(raw: Seq<u8>, tail: Seq<u8>, n: nat)
    requires
        raw.len() <= n <= usize::MAX,
    ensures
        raw.len() == n && !valid_utf8(raw) ==> codec::parse_text(codec::leb128(n) + raw + tail).value
            == Err::<Seq<char>, ErrorV>(ErrorV::Corruption("invalid utf-8 in string"@)),
        raw.len() < n ==> codec::parse_text(codec::leb128(n) + raw).value == Err::<Seq<char>, ErrorV>(
            ErrorV::Truncated,
        ),
        raw.len() < n ==> codec::parse_bytes(codec::leb128(n) + raw).value == Err::<
            Seq<u8>,
            ErrorV,
        >(ErrorV::Truncated),
        raw.len() == n ==> codec::parse_bytes(codec::leb128(n) + raw + tail).value == Ok::<
            Seq<u8>,
            ErrorV,
        >(raw),
{
    reveal(codec::parse_text);
    reveal(codec::parse_bytes);
    let head = codec::leb128(n);
    let whole = head + raw + tail;
    codec::lemma_varint_round_trip(n as u64, raw + tail);
    codec::lemma_varint_round_trip(n as u64, raw);
    assert(whole =~= head + (raw + tail));
    assert(whole.skip(head.len() as int) =~= raw + tail);
    assert((raw + tail).take(raw.len() as int) =~= raw);
    assert((head + raw).skip(head.len() as int) =~= raw);
}

proof fn lemma_ids(ids: Seq<Seq<u8>>)
    ensures
        codec::enc_list(ids, encoding::item_format::<ObjectId>()) == list_bytes(ids),
{
    law_list(ids, encoding::item_format::<ObjectId>());
    assert(ids.map_values(encoding::item_format::<ObjectId>()) =~= ids);
}

// ── objects ──────────────────────────────────────────────────────────────────

/// The bytes of a chunk reference: the id, and the length in four bytes.
pub open spec fn chunk_ref_bytes(v: ChunkRefV) -> Seq<u8> {
    v.id + fixed(v.len as nat, 4)
}

/// A chunk is its bytes. A blob is the length of the file in eight bytes, and the list
/// of its chunks.
pub proof fn law_file_bytes(chunk: Seq<u8>, blob: BlobV)
    ensures
        Chunk::format(chunk) == chunk,
        Blob::format(blob) == fixed(blob.total_len as nat, 8) + list_bytes(
            blob.chunks.map_values(|c: ChunkRefV| chunk_ref_bytes(c)),
        ),
{
    law_numbers(0, blob.total_len, 0, 0);
    let one = encoding::item_format::<ChunkRef>();
    law_list(blob.chunks, one);
    assert forall|i: int| 0 <= i < blob.chunks.len() implies #[trigger] blob.chunks.map_values(
        one,
    )[i] == chunk_ref_bytes(blob.chunks[i]) by {
        law_numbers(blob.chunks[i].len, 0, 0, 0);
    }
    assert(blob.chunks.map_values(one) =~= blob.chunks.map_values(
        |c: ChunkRefV| chunk_ref_bytes(c),
    ));
}

/// The bytes of a tree entry: its name, its mode in four bytes, one byte for its kind
/// (0 for a file, 1 for a directory, 2 for a symbolic link), and the id.
pub open spec fn entry_bytes(v: TreeEntryV) -> Seq<u8> {
    text_bytes(v.name) + fixed(v.mode as nat, 4) + seq![
        match v.kind {
            EntryKind::Blob => 0u8,
            EntryKind::Tree => 1u8,
            EntryKind::Symlink => 2u8,
        },
    ] + v.id
}

/// A tree is the list of its entries.
pub proof fn law_tree_bytes(v: TreeV)
    ensures
        Tree::format(v) == list_bytes(v.entries.map_values(|e: TreeEntryV| entry_bytes(e))),
{
    let one = encoding::item_format::<TreeEntry>();
    law_list(v.entries, one);
    assert forall|i: int| 0 <= i < v.entries.len() implies #[trigger] v.entries.map_values(one)[i]
        == entry_bytes(v.entries[i]) by {
        law_numbers(v.entries[i].mode, 0, 0, 0);
        law_text(v.entries[i].name);
        assert(one(v.entries[i]) =~= entry_bytes(v.entries[i]));
    }
    assert(v.entries.map_values(one) =~= v.entries.map_values(|e: TreeEntryV| entry_bytes(e)));
}

/// The bytes of who did something: the name and the address.
pub open spec fn identity_bytes(v: IdentityV) -> Seq<u8> {
    text_bytes(v.name) + text_bytes(v.email)
}

/// The bytes of a moment: the seconds in eight bytes, and the minutes of the time zone in
/// four.
pub open spec fn moment_bytes(v: TimestampV) -> Seq<u8> {
    fixed(
        if v.unix_secs >= 0 {
            v.unix_secs as nat
        } else {
            (0x1_0000_0000_0000_0000 + v.unix_secs) as nat
        },
        8,
    ) + fixed(
        if v.tz_offset_mins >= 0 {
            v.tz_offset_mins as nat
        } else {
            (0x1_0000_0000 + v.tz_offset_mins) as nat
        },
        4,
    )
}

proof fn lemma_moment(v: TimestampV)
    ensures
        Timestamp::format(v) == moment_bytes(v),
{
    law_numbers(0, 0, v.tz_offset_mins, v.unix_secs);
}

/// A snapshot is its root tree, its parents, its change, the author, the committer, the
/// message and the moment, in this order.
pub proof fn law_snapshot_bytes(v: SnapshotV)
    ensures
        Snapshot::format(v) == flat(
            seq![
                v.root_tree,
                list_bytes(v.parents),
                v.change_id,
                identity_bytes(v.author),
                identity_bytes(v.committer),
                text_bytes(v.message),
                moment_bytes(v.timestamp),
            ],
        ),
{
    lemma_ids(v.parents);
    lemma_moment(v.timestamp);
    let parts = seq![
        v.root_tree,
        list_bytes(v.parents),
        v.change_id,
        identity_bytes(v.author),
        identity_bytes(v.committer),
        text_bytes(v.message),
        moment_bytes(v.timestamp),
    ];
    lemma_flat_of_seven(parts);
    law_text(v.author.name);
    law_text(v.author.email);
    law_text(v.committer.name);
    law_text(v.committer.email);
    law_text(v.message);
    assert(Identity::format(v.author) =~= identity_bytes(v.author));
    assert(Identity::format(v.committer) =~= identity_bytes(v.committer));
}

proof fn lemma_flat_of_seven(p: Seq<Seq<u8>>)
    requires
        p.len() == 7,
    ensures
        flat(p) == p[0] + p[1] + p[2] + p[3] + p[4] + p[5] + p[6],
{
    let none: Seq<Seq<u8>> = seq![];
    let a1 = none.push(p[0]);
    let a2 = a1.push(p[1]);
    let a3 = a2.push(p[2]);
    let a4 = a3.push(p[3]);
    let a5 = a4.push(p[4]);
    let a6 = a5.push(p[5]);
    lemma_flat_push(none, p[0]);
    lemma_flat_push(a1, p[1]);
    lemma_flat_push(a2, p[2]);
    lemma_flat_push(a3, p[3]);
    lemma_flat_push(a4, p[4]);
    lemma_flat_push(a5, p[5]);
    lemma_flat_push(a6, p[6]);
    assert(flat(none) + p[0] =~= p[0]);
    assert(a6.push(p[6]) =~= p);
}

proof fn lemma_flat_of_four(p: Seq<Seq<u8>>)
    requires
        p.len() == 4,
    ensures
        flat(p) == p[0] + p[1] + p[2] + p[3],
{
    let none: Seq<Seq<u8>> = seq![];
    let a1 = none.push(p[0]);
    let a2 = a1.push(p[1]);
    let a3 = a2.push(p[2]);
    lemma_flat_push(none, p[0]);
    lemma_flat_push(a1, p[1]);
    lemma_flat_push(a2, p[2]);
    lemma_flat_push(a3, p[3]);
    assert(flat(none) + p[0] =~= p[0]);
    assert(a3.push(p[3]) =~= p);
}

proof fn lemma_flat_of_five(p: Seq<Seq<u8>>)
    requires
        p.len() == 5,
    ensures
        flat(p) == p[0] + p[1] + p[2] + p[3] + p[4],
{
    lemma_flat_of_four(p.drop_last());
    lemma_flat_push(p.drop_last(), p[4]);
    assert(p.drop_last().push(p[4]) =~= p);
}

/// The bytes of a pointer: its name and its target.
pub open spec fn pointer_bytes(v: NamedRefV) -> Seq<u8> {
    text_bytes(v.name) + v.target
}

proof fn lemma_pointers(refs: Seq<NamedRefV>)
    ensures
        codec::enc_list(refs, encoding::item_format::<NamedRef>()) == list_bytes(
            refs.map_values(|r: NamedRefV| pointer_bytes(r)),
        ),
{
    let one = encoding::item_format::<NamedRef>();
    law_list(refs, one);
    assert forall|i: int| 0 <= i < refs.len() implies #[trigger] refs.map_values(one)[i]
        == pointer_bytes(refs[i]) by {
        law_text(refs[i].name);
    }
    assert(refs.map_values(one) =~= refs.map_values(|r: NamedRefV| pointer_bytes(r)));
}

/// A view is its working copy, its bookmarks, its tags and its heads, in this order.
pub proof fn law_view_bytes(v: ViewV)
    ensures
        View::format(v) == flat(
            seq![
                v.working_copy,
                list_bytes(v.bookmarks.map_values(|r: NamedRefV| pointer_bytes(r))),
                list_bytes(v.tags.map_values(|r: NamedRefV| pointer_bytes(r))),
                list_bytes(v.heads),
            ],
        ),
{
    lemma_pointers(v.bookmarks);
    lemma_pointers(v.tags);
    lemma_ids(v.heads);
    lemma_flat_of_four(
        seq![
            v.working_copy,
            list_bytes(v.bookmarks.map_values(|r: NamedRefV| pointer_bytes(r))),
            list_bytes(v.tags.map_values(|r: NamedRefV| pointer_bytes(r))),
            list_bytes(v.heads),
        ],
    );
}

/// The bytes of how an op came about: when it began and ended, on which machine and by
/// whom, and the words of the command.
pub open spec fn metadata_bytes(v: OpMetadataV) -> Seq<u8> {
    flat(
        seq![
            moment_bytes(v.start),
            moment_bytes(v.end),
            text_bytes(v.hostname),
            text_bytes(v.username),
            list_bytes(v.command.map_values(|s: Seq<char>| text_bytes(s))),
        ],
    )
}

/// An op is its parents, its view, how it came about, and its description, in this order.
pub proof fn law_op_bytes(v: OpV)
    ensures
        Op::format(v) == flat(
            seq![
                list_bytes(v.parents),
                v.view,
                metadata_bytes(v.metadata),
                text_bytes(v.description),
            ],
        ),
{
    let m = v.metadata;
    lemma_ids(v.parents);
    lemma_moment(m.start);
    lemma_moment(m.end);
    let one = encoding::item_format::<String>();
    law_list(m.command, one);
    law_text(m.hostname);
    law_text(m.username);
    law_text(v.description);
    assert forall|i: int| 0 <= i < m.command.len() implies #[trigger] m.command.map_values(one)[i]
        == text_bytes(m.command[i]) by {
        law_text(m.command[i]);
    }
    assert(m.command.map_values(one) =~= m.command.map_values(|s: Seq<char>| text_bytes(s)));
    lemma_flat_of_five(
        seq![
            moment_bytes(m.start),
            moment_bytes(m.end),
            text_bytes(m.hostname),
            text_bytes(m.username),
            list_bytes(m.command.map_values(|s: Seq<char>| text_bytes(s))),
        ],
    );
    assert(OpMetadata::format(m) == metadata_bytes(m));
    lemma_flat_of_four(
        seq![
            list_bytes(v.parents),
            v.view,
            metadata_bytes(v.metadata),
            text_bytes(v.description),
        ],
    );
}

// ── ids and the store ────────────────────────────────────────────────────────

/// The id of an object is the digest of one byte for its type and its bytes.
pub proof fn law_object_id(bytes: Seq<u8>)
    ensures
        hash::content_id(TypeTag::Blob, bytes) == hash::blake3_digest(seq![1u8] + bytes),
        hash::content_id(TypeTag::Chunk, bytes) == hash::blake3_digest(seq![2u8] + bytes),
        hash::content_id(TypeTag::Tree, bytes) == hash::blake3_digest(seq![3u8] + bytes),
        hash::content_id(TypeTag::Snapshot, bytes) == hash::blake3_digest(seq![4u8] + bytes),
        hash::content_id(TypeTag::Op, bytes) == hash::blake3_digest(seq![5u8] + bytes),
        hash::content_id(TypeTag::View, bytes) == hash::blake3_digest(seq![6u8] + bytes),
{
}

/// What is stored is found under its id, unless another object was there; every other id
/// stands for what it stood for.
pub proof fn law_store(objects: Objects, tag: TypeTag, bytes: Seq<u8>, other: Seq<u8>)
    ensures
        ({
            let id = hash::content_id(tag, bytes);
            let after = store::stored(objects, tag, bytes);
            &&& !objects.dom().contains(id) ==> store::lookup(after, id) == Ok::<
                (TypeTag, Seq<u8>),
                ErrorV,
            >((tag, bytes))
            &&& objects.dom().contains(id) ==> after == objects
            &&& other != id ==> store::lookup(after, other) == store::lookup(objects, other)
            &&& other != id ==> after.dom().contains(other) == objects.dom().contains(other)
        }),
{
}

/// An id that no object has is reported, an object whose bytes do not have its id is
/// damaged, and every other object is read as it is.
pub proof fn law_lookup(objects: Objects, id: Seq<u8>)
    ensures
        !objects.dom().contains(id) ==> store::lookup(objects, id) == Err::<
            (TypeTag, Seq<u8>),
            ErrorV,
        >(ErrorV::ObjectNotFound(id)),
        objects.dom().contains(id) && hash::content_id(objects[id].0, objects[id].1) != id
            ==> store::lookup(objects, id) == Err::<(TypeTag, Seq<u8>), ErrorV>(
            ErrorV::Corruption(
                "object "@ + hash::hex_text(id).take(12) + " does not match its id"@,
            ),
        ),
        objects.dom().contains(id) && hash::content_id(objects[id].0, objects[id].1) == id
            ==> store::lookup(objects, id) == Ok::<(TypeTag, Seq<u8>), ErrorV>(objects[id]),
{
}

/// An object is read only as what it is, and only as a whole: one of another type, one
/// that cannot be decoded and one with bytes left over are refused.
pub proof fn law_read<T: Decode>(objects: Objects, id: Seq<u8>, tag: TypeTag)
    requires
        objects.dom().contains(id),
        hash::content_id(objects[id].0, objects[id].1) == id,
    ensures
        ({
            let bytes = objects[id].1;
            let parsed = T::parse(bytes);
            let r = store::read_as::<T>(objects, id, tag);
            &&& objects[id].0 != tag ==> r == Err::<<T as vstd::view::View>::V, ErrorV>(
                ErrorV::Corruption(
                    "object "@ + hash::hex_text(id).take(12) + " has an unexpected type tag"@,
                ),
            )
            &&& objects[id].0 == tag && parsed.value is Ok && parsed.used == bytes.len() ==> r
                == parsed.value
            &&& objects[id].0 == tag && parsed.value is Ok && parsed.used < bytes.len() ==> r == Err::<
                <T as vstd::view::View>::V,
                ErrorV,
            >(ErrorV::TrailingBytes)
            &&& objects[id].0 == tag && parsed.value is Err ==> r == parsed.value
        }),
{
}

} // verus!
