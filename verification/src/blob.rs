//! File bytes, blobs, and chunks.
//!
//! A file's content is stored as a list of [`Chunk`] objects plus one [`Blob`]
//! object that records the ordered chunk references and the total length.
//! Identical files dedup at the blob level; files sharing byte regions dedup at
//! the chunk level. An empty file becomes a zero-chunk blob.
use vstd::prelude::*;
use vstd::string::*;

use crate::object;
use crate::text;
use crate::store;
use crate::hash;
use crate::error;
use crate::encoding;
use crate::chunker;
use crate::chunker::chunk_ranges;
use crate::encoding::{Decode, Encode};
use crate::error::{Error, ErrorV};
use crate::hash::{ObjectId, TypeTag};
use crate::object::{Blob, BlobV, Chunk, ChunkRef, ChunkRefV};
use crate::store::{ObjectStore, Objects};
use crate::text::{append_decimal, append_text};

verus! {

// ── storing ──────────────────────────────────────────────────────────────────

/// The bytes of one chunk of `data`.
pub open spec fn piece(data: Seq<u8>, span: (usize, usize)) -> Seq<u8> {
    data.subrange(span.0 as int, span.0 + span.1)
}

/// The references to the chunks of `data`, in order.
pub open spec fn chunk_refs(data: Seq<u8>, spans: Seq<(usize, usize)>) -> Seq<ChunkRefV> {
    spans.map_values(
        |span: (usize, usize)|
            ChunkRefV {
                id: hash::content_id(TypeTag::Chunk, piece(data, span)),
                len: span.1 as u32,
            },
    )
}

/// The blob of a file with the content `data`.
pub open spec fn file_blob(data: Seq<u8>) -> BlobV {
    BlobV { total_len: data.len() as u64, chunks: chunk_refs(data, chunker::chunk_spans(data)) }
}

/// The id of a file with the content `data`.
pub open spec fn file_id(data: Seq<u8>) -> Seq<u8> {
    hash::content_id(TypeTag::Blob, Blob::format(file_blob(data)))
}

/// The objects after the chunks of `data` were written, in order.
pub open spec fn stored_chunks(
    objects: Objects,
    data: Seq<u8>,
    spans: Seq<(usize, usize)>,
) -> Objects
    decreases spans.len(),
{
    if spans.len() == 0 {
        objects
    } else {
        store::stored(
            stored_chunks(objects, data, spans.drop_last()),
            TypeTag::Chunk,
            piece(data, spans.last()),
        )
    }
}

/// The objects after a file was written: its chunks, and then its blob.
pub open spec fn stored_file(objects: Objects, data: Seq<u8>) -> Objects {
    store::stored(
        stored_chunks(objects, data, chunker::chunk_spans(data)),
        TypeTag::Blob,
        Blob::format(file_blob(data)),
    )
}

/// Stores `bytes` as chunk objects plus a [`Blob`] chunk-list, returning the
/// id of the blob.
pub fn store_file_bytes(store: &mut ObjectStore, bytes: &[u8]) -> (r: ObjectId)
    ensures
        r@ == file_id(bytes@),
        final(store)@ == stored_file(old(store)@, bytes@),
        well_cut(bytes@),
        no_collision(old(store)@, bytes@) ==> file_content(final(store)@, r@) == Ok::<
            Seq<u8>,
            ErrorV,
        >(bytes@),
{
    let ranges = chunk_ranges(bytes);
    let ghost spans = chunker::chunk_spans(bytes@);
    let mut refs: Vec<ChunkRef> = Vec::new();
    let mut i: usize = 0;
    assert(spans.take(0) =~= Seq::<(usize, usize)>::empty());
    while i < ranges.len()
        invariant
            i <= ranges@.len(),
            ranges@.len() == spans.len(),
            spans == chunker::chunk_spans(bytes@),
            chunker::tiles(ranges@, bytes@.len() as int),
            forall|k: int|
                0 <= k < ranges@.len() ==> (#[trigger] ranges@[k]).start == spans[k].0
                    && ranges@[k].end == spans[k].0 + spans[k].1,
            forall|k: int|
                0 <= k < ranges@.len() ==> (#[trigger] ranges@[k]).end - ranges@[k].start
                    <= crate::chunker::MAX_CHUNK,
            chunker::covers(spans, bytes@.len() as int, crate::chunker::MAX_CHUNK as int),
            encoding::views(refs@) =~= chunk_refs(bytes@, spans.take(i as int)),
            forall|k: int|
                0 <= k < i ==> object::is_id(
                    hash::content_id(TypeTag::Chunk, piece(bytes@, #[trigger] spans[k])),
                ),
            store@ == stored_chunks(old(store)@, bytes@, spans.take(i as int)),
        decreases ranges.len() - i,
    {
        let start: usize = ranges[i].start;
        let end: usize = ranges[i].end;
        assert(ranges@[i as int].start < ranges@[i as int].end <= bytes@.len());
        assert(ranges@[i as int].end - ranges@[i as int].start <= crate::chunker::MAX_CHUNK);
        let chunk = Chunk::new(vstd::slice::slice_to_vec(slice_of(bytes, start, end)));
        let id = store.put_chunk(&chunk);
        let ghost was = refs@;
        let len: u32 = (end - start) as u32;
        refs.push(ChunkRef::new(id, len));
        proof {
            hash::lemma_id_len(id);
            let next = spans.take(i + 1);
            assert(next.drop_last() =~= spans.take(i as int));
            assert(next.last() == spans[i as int]);
            assert(chunk@ == piece(bytes@, spans[i as int]));
            assert(encoding::views(refs@) =~= encoding::views(was).push(refs@.last()@));
            assert(chunk_refs(bytes@, next) =~= chunk_refs(bytes@, spans.take(i as int)).push(
                refs@.last()@,
            ));
        }
        i += 1;
    }
    assert(spans.take(i as int) =~= spans);
    let total_len: u64 = bytes.len() as u64;
    let ghost count = refs.len();
    let blob = Blob::new(total_len, refs);
    let id = store.put_blob(&blob);
    proof {
        assert(spans.len() == count);
        assert forall|k: int| 0 <= k < spans.len() implies object::is_id(
            hash::content_id(TypeTag::Chunk, piece(bytes@, #[trigger] spans[k])),
        ) by {}
        assert forall|k: int| 0 <= k < spans.len() - 1 implies (#[trigger] spans[k]).1
            >= crate::chunker::MIN_CHUNK by {
            assert(ranges@[k].end - ranges@[k].start >= crate::chunker::MIN_CHUNK);
        }
        if no_collision(old(store)@, bytes@) {
            lemma_file_reads_back(old(store)@, bytes@);
        }
    }
    id
}

/// The objects that writing a file with the content `data` writes.
pub open spec fn written(data: Seq<u8>, object: (TypeTag, Seq<u8>)) -> bool {
    ||| object == (TypeTag::Blob, Blob::format(file_blob(data)))
    ||| exists|i: int|
        0 <= i < chunker::chunk_spans(data).len() && object == (
            TypeTag::Chunk,
            piece(data, #[trigger] chunker::chunk_spans(data)[i]),
        )
}

/// Whether no two of the objects that are there or get written have the same
/// digest, unless they are the same.
pub open spec fn no_collision(objects: Objects, data: Seq<u8>) -> bool {
    &&& forall|a: (TypeTag, Seq<u8>)| #[trigger]
        written(data, a) && objects.dom().contains(hash::content_id(a.0, a.1)) ==> objects[hash::content_id(
            a.0,
            a.1,
        )] == a
    &&& forall|a: (TypeTag, Seq<u8>), b: (TypeTag, Seq<u8>)| #[trigger]
        written(data, a) && #[trigger] written(data, b) && hash::content_id(a.0, a.1) == hash::content_id(
            b.0,
            b.1,
        ) ==> a == b
}

/// Whether each written object that is there is what its id says.
spec fn faithful(objects: Objects, data: Seq<u8>) -> bool {
    forall|a: (TypeTag, Seq<u8>)| #[trigger]
        written(data, a) && objects.dom().contains(hash::content_id(a.0, a.1)) ==> objects[hash::content_id(
            a.0,
            a.1,
        )] == a
}

/// After the first `n` chunks were written they are there, as they are.
proof fn lemma_chunks_stored(objects: Objects, data: Seq<u8>, n: int)
    requires
        0 <= n <= chunker::chunk_spans(data).len(),
        no_collision(objects, data),
    ensures
        faithful(stored_chunks(objects, data, chunker::chunk_spans(data).take(n)), data),
        forall|i: int|
            0 <= i < n ==> stored_chunks(
                objects,
                data,
                chunker::chunk_spans(data).take(n),
            ).dom().contains(hash::content_id(TypeTag::Chunk, piece(data, #[trigger] chunker::chunk_spans(data)[i]))),
    decreases n,
{
    let spans = chunker::chunk_spans(data);
    if n == 0 {
        assert(spans.take(0) =~= Seq::<(usize, usize)>::empty());
    } else {
        lemma_chunks_stored(objects, data, n - 1);
        assert(spans.take(n).drop_last() =~= spans.take(n - 1));
        assert(spans.take(n).last() == spans[n - 1]);
        let before = stored_chunks(objects, data, spans.take(n - 1));
        let after = stored_chunks(objects, data, spans.take(n));
        let new = (TypeTag::Chunk, piece(data, spans[n - 1]));
        assert(written(data, new));
        assert forall|a: (TypeTag, Seq<u8>)| #[trigger]
            written(data, a) && after.dom().contains(hash::content_id(a.0, a.1)) implies after[hash::content_id(
            a.0,
            a.1,
        )] == a by {
            if !before.dom().contains(hash::content_id(a.0, a.1)) {
                assert(hash::content_id(a.0, a.1) == hash::content_id(new.0, new.1));
            }
        }
    }
}

/// The chunks of a file that is stored join to its content.
proof fn lemma_chunks_join(objects: Objects, data: Seq<u8>, n: int)
    requires
        0 <= n <= chunker::chunk_spans(data).len(),
        chunker::covers(chunker::chunk_spans(data), data.len() as int, crate::chunker::MAX_CHUNK as int),
        faithful(objects, data),
        forall|i: int|
            0 <= i < chunker::chunk_spans(data).len() ==> objects.dom().contains(
                hash::content_id(TypeTag::Chunk, piece(data, #[trigger] chunker::chunk_spans(data)[i])),
            ),
    ensures
        n < chunker::chunk_spans(data).len() ==> recorded_len(file_blob(data).chunks, n) == chunker::chunk_spans(
            data,
        )[n].0,
        n == chunker::chunk_spans(data).len() ==> recorded_len(file_blob(data).chunks, n) == data.len(),
        joined_chunks(objects, file_blob(data).chunks, n) == Ok::<Seq<u8>, ErrorV>(
            data.take(recorded_len(file_blob(data).chunks, n)),
        ),
    decreases n,
{
    let spans = chunker::chunk_spans(data);
    let refs = file_blob(data).chunks;
    if n == 0 {
        assert(data.take(0) =~= seq![]);
    } else {
        lemma_chunks_join(objects, data, n - 1);
        let span = spans[n - 1];
        let part = piece(data, span);
        let id = hash::content_id(TypeTag::Chunk, part);
        assert(refs[n - 1].id == id);
        assert(refs[n - 1].len == span.1);
        assert(written(data, (TypeTag::Chunk, part)));
        assert(objects[id] == (TypeTag::Chunk, part));
        assert(store::read_as::<Chunk>(objects, id, TypeTag::Chunk) == Ok::<Seq<u8>, ErrorV>(part));
        assert(recorded_len(refs, n - 1) == span.0);
        assert(data.take(span.0 as int) + part =~= data.take(span.0 + span.1));
        if n < spans.len() {
            assert(spans[n - 1].0 + spans[n - 1].1 == spans[n].0);
        }
    }
}

/// A chunk of a file that was stored can be read, and is as long as recorded.
proof fn lemma_stored_chunk(objects: Objects, data: Seq<u8>, i: int)
    requires
        no_collision(objects, data),
        0 <= i < chunker::chunk_spans(data).len(),
        chunker::covers(chunker::chunk_spans(data), data.len() as int, crate::chunker::MAX_CHUNK as int),
    ensures
        store::read_as::<Chunk>(
            stored_file(objects, data),
            file_blob(data).chunks[i].id,
            TypeTag::Chunk,
        ) matches Ok(chunk) && chunk.len() == file_blob(data).chunks[i].len,
{
    let spans = chunker::chunk_spans(data);
    let n = spans.len() as int;
    assert(spans.take(n) =~= spans);
    lemma_chunks_stored(objects, data, n);
    let before = stored_chunks(objects, data, spans);
    let part = piece(data, spans[i]);
    let id = hash::content_id(TypeTag::Chunk, part);
    assert(written(data, (TypeTag::Chunk, part)));
    assert(before.dom().contains(id));
    assert(before[id] == (TypeTag::Chunk, part));
    assert(0 < spans[i].1 <= crate::chunker::MAX_CHUNK && spans[i].0 + spans[i].1 <= data.len());
    assert(file_blob(data).chunks[i].len == spans[i].1);
}

proof fn lemma_file_reads_back(objects: Objects, data: Seq<u8>)
    requires
        no_collision(objects, data),
        chunker::covers(chunker::chunk_spans(data), data.len() as int, crate::chunker::MAX_CHUNK as int),
        data.len() <= usize::MAX,
        chunker::chunk_spans(data).len() <= usize::MAX,
        forall|k: int|
            0 <= k < chunker::chunk_spans(data).len() ==> object::is_id(
                hash::content_id(TypeTag::Chunk, piece(data, #[trigger] chunker::chunk_spans(data)[k])),
            ),
    ensures
        file_content(stored_file(objects, data), file_id(data)) == Ok::<Seq<u8>, ErrorV>(data),
        store::read_as::<Blob>(stored_file(objects, data), file_id(data), TypeTag::Blob) == Ok::<
            BlobV,
            ErrorV,
        >(file_blob(data)),
{
    let spans = chunker::chunk_spans(data);
    let n = spans.len() as int;
    let v = file_blob(data);
    assert(spans.take(n) =~= spans);
    lemma_chunks_stored(objects, data, n);
    let before = stored_chunks(objects, data, spans);
    let after = stored_file(objects, data);
    let new = (TypeTag::Blob, Blob::format(v));
    assert(written(data, new));
    assert(faithful(after, data)) by {
        assert forall|a: (TypeTag, Seq<u8>)| #[trigger]
            written(data, a) && after.dom().contains(hash::content_id(a.0, a.1)) implies after[hash::content_id(
            a.0,
            a.1,
        )] == a by {
            if !before.dom().contains(hash::content_id(a.0, a.1)) {
                assert(hash::content_id(a.0, a.1) == hash::content_id(new.0, new.1));
            }
        }
    }
    assert forall|i: int| 0 <= i < spans.len() implies after.dom().contains(
        hash::content_id(TypeTag::Chunk, piece(data, #[trigger] spans[i])),
    ) by {
        assert(before.dom().contains(hash::content_id(TypeTag::Chunk, piece(data, spans[i]))));
    }
    lemma_chunks_join(after, data, n);
    assert(data.take(data.len() as int) =~= data);
    assert(object::blob_fits(v)) by {
        assert forall|i: int| 0 <= i < v.chunks.len() implies object::is_id((#[trigger] v.chunks[i]).id) by {
            assert(object::is_id(hash::content_id(TypeTag::Chunk, piece(data, spans[i]))));
        }
    }
    object::lemma_blob_round_trip(v, seq![]);
    assert(Blob::format(v) + seq![] =~= Blob::format(v));
    assert(store::read_as::<Blob>(after, file_id(data), TypeTag::Blob) == Ok::<BlobV, ErrorV>(v));
}

/// The part `bytes[from..to]`.
fn slice_of<'a>(bytes: &'a [u8], from: usize, to: usize) -> (r: &'a [u8])
    requires
        from <= to <= bytes@.len(),
    ensures
        r@ == bytes@.subrange(from as int, to as int),
{
    vstd::slice::slice_subrange(bytes, from, to)
}

// ── reading ──────────────────────────────────────────────────────────────────

/// The sum of the recorded lengths of the first `n` chunks.
pub open spec fn recorded_len(chunks: Seq<ChunkRefV>, n: int) -> int
    decreases n,
{
    if n <= 0 {
        0
    } else {
        recorded_len(chunks, n - 1) + chunks[n - 1].len
    }
}

/// The bytes of the first `n` chunks, one after the other, or the error of the
/// first that cannot be read.
pub open spec fn joined_chunks(objects: Objects, chunks: Seq<ChunkRefV>, n: int) -> Result<
    Seq<u8>,
    ErrorV,
>
    decreases n,
{
    if n <= 0 {
        Ok(seq![])
    } else {
        match joined_chunks(objects, chunks, n - 1) {
            Err(e) => Err(e),
            Ok(head) => match store::read_as::<Chunk>(objects, chunks[n - 1].id, TypeTag::Chunk) {
                Err(e) => Err(e),
                Ok(data) => Ok(head + data),
            },
        }
    }
}

/// A text about a blob, from its parts.
pub open spec fn blob_note(id: Seq<u8>, what: Seq<char>) -> Seq<char> {
    "blob "@ + hash::hex_text(id).take(12) + what
}

/// What reading the file under `id` gives.
pub open spec fn file_content(objects: Objects, id: Seq<u8>) -> Result<Seq<u8>, ErrorV> {
    match store::read_as::<Blob>(objects, id, TypeTag::Blob) {
        Err(e) => Err(e),
        Ok(blob) => {
            let n = blob.chunks.len() as int;
            let sum = recorded_len(blob.chunks, n);
            if blob.total_len > usize::MAX {
                Err(ErrorV::Corruption("blob total_len exceeds usize"@))
            } else if sum > usize::MAX {
                Err(ErrorV::Corruption(blob_note(id, " chunk lengths overflow usize"@)))
            } else if sum != blob.total_len {
                Err(
                    ErrorV::Corruption(
                        blob_note(
                            id,
                            " records total_len "@ + text::decimal_text(blob.total_len as nat)
                                + " but its chunks sum to "@ + text::decimal_text(sum as nat),
                        ),
                    ),
                )
            } else {
                match joined_chunks(objects, blob.chunks, n) {
                    Err(e) => Err(e),
                    Ok(data) => if data.len() != blob.total_len {
                        Err(
                            ErrorV::Corruption(
                                blob_note(
                                    id,
                                    " reassembled to "@ + text::decimal_text(data.len())
                                        + " bytes, expected "@ + text::decimal_text(
                                        blob.total_len as nat,
                                    ),
                                ),
                            ),
                        )
                    } else {
                        Ok(data)
                    },
                }
            }
        },
    }
}

/// A message about the blob with the given id.
fn note(id: &ObjectId, what: &str) -> (r: String)
    ensures
        r@ == blob_note(id@, what@),
{
    let mut out = "blob ".to_owned();
    append_text(&mut out, id.short().as_str());
    append_text(&mut out, what);
    out
}

/// `a`, a number, `b`, a number.
fn two_numbers(a: &str, x: u64, b: &str, y: u64) -> (r: String)
    ensures
        r@ == a@ + text::decimal_text(x as nat) + b@ + text::decimal_text(y as nat),
{
    let mut out = a.to_owned();
    append_decimal(&mut out, x);
    append_text(&mut out, b);
    append_decimal(&mut out, y);
    out
}

proof fn lemma_recorded_len_grows(chunks: Seq<ChunkRefV>, m: int, n: int)
    requires
        0 <= m <= n,
    ensures
        0 <= recorded_len(chunks, m) <= recorded_len(chunks, n),
    decreases n,
{
    if m < n {
        lemma_recorded_len_grows(chunks, m, n - 1);
    } else if n > 0 {
        lemma_recorded_len_grows(chunks, m - 1, n - 1);
    }
}

proof fn lemma_join_fails(objects: Objects, chunks: Seq<ChunkRefV>, m: int, n: int)
    requires
        0 <= m <= n,
        joined_chunks(objects, chunks, m) is Err,
    ensures
        joined_chunks(objects, chunks, n) == joined_chunks(objects, chunks, m),
    decreases n,
{
    if m < n {
        lemma_join_fails(objects, chunks, m, n - 1);
    }
}

/// Reassembles and returns the full content of the [`Blob`] at `blob_id`.
///
/// The recorded total length is held against the recorded chunk lengths before
/// anything is allocated, and against the bytes afterwards.
pub fn read_blob(store: &ObjectStore, blob_id: &ObjectId) -> (r: Result<Vec<u8>, Error>)
    ensures
        error::outcome(r) == file_content(store@, blob_id@),
{
    let blob = match store.get_blob(blob_id) {
        Ok(blob) => blob,
        Err(e) => {
            return Err(e);
        },
    };
    if blob.total_len() > usize::MAX as u64 {
        return Err(Error::Corruption("blob total_len exceeds usize".to_owned()));
    }
    let total: usize = blob.total_len() as usize;
    let chunks = blob.chunks();
    let ghost refs = blob@.chunks;

    let mut chunk_total: usize = 0;
    let mut i: usize = 0;
    while i < chunks.len()
        invariant
            i <= chunks@.len(),
            refs == encoding::views(chunks@),
            refs == blob@.chunks,
            store::read_as::<Blob>(store@, blob_id@, TypeTag::Blob) == Ok::<BlobV, ErrorV>(blob@),
            blob@.total_len <= usize::MAX,
            chunk_total == recorded_len(refs, i as int),
        decreases chunks.len() - i,
    {
        let len: usize = chunks[i].len() as usize;
        assert(refs[i as int] == chunks@[i as int]@);
        match chunk_total.checked_add(len) {
            Some(sum) => {
                chunk_total = sum;
            },
            None => {
                proof {
                    lemma_recorded_len_grows(refs, i + 1, refs.len() as int);
                }
                return Err(Error::Corruption(note(blob_id, " chunk lengths overflow usize")));
            },
        }
        i += 1;
    }
    if chunk_total != total {
        let what = two_numbers(
            " records total_len ",
            total as u64,
            " but its chunks sum to ",
            chunk_total as u64,
        );
        return Err(Error::Corruption(note(blob_id, what.as_str())));
    }
    let mut out: Vec<u8> = Vec::with_capacity(total);
    let mut i: usize = 0;
    while i < chunks.len()
        invariant
            i <= chunks@.len(),
            refs == encoding::views(chunks@),
            refs == blob@.chunks,
            store::read_as::<Blob>(store@, blob_id@, TypeTag::Blob) == Ok::<BlobV, ErrorV>(blob@),
            blob@.total_len <= usize::MAX,
            recorded_len(refs, refs.len() as int) == blob@.total_len,
            joined_chunks(store@, refs, i as int) == Ok::<Seq<u8>, ErrorV>(out@),
        decreases chunks.len() - i,
    {
        assert(refs[i as int] == chunks@[i as int]@);
        let ghost was = out@;
        match store.get_chunk(&chunks[i].id()) {
            Ok(chunk) => {
                out.extend_from_slice(chunk.data());
                assert(out@ =~= was + chunk@);
            },
            Err(e) => {
                proof {
                    lemma_join_fails(store@, refs, i + 1, refs.len() as int);
                }
                return Err(e);
            },
        }
        i += 1;
    }
    if out.len() != total {
        let what = two_numbers(
            " reassembled to ",
            out.len() as u64,
            " bytes, expected ",
            total as u64,
        );
        return Err(Error::Corruption(note(blob_id, what.as_str())));
    }
    Ok(out)
}

/// The error for a chunk whose length is not the recorded one.
pub open spec fn length_error(id: Seq<u8>, actual: nat, recorded: nat) -> ErrorV {
    ErrorV::Corruption(
        "chunk "@ + hash::hex_text(id).take(12) + (" length "@ + text::decimal_text(actual)
            + " disagrees with blob record "@ + text::decimal_text(recorded)),
    )
}

/// The error for a blob whose chunks do not reach the end of what it is read
/// for.
pub open spec fn end_error() -> ErrorV {
    ErrorV::Corruption("the recorded chunks end before the range does"@)
}

pub open spec fn least(a: int, b: int) -> int {
    if a <= b {
        a
    } else {
        b
    }
}

pub open spec fn most(a: int, b: int) -> int {
    if a >= b {
        a
    } else {
        b
    }
}

/// The bytes of the window `[from, to)` that lie in the chunks from index `i`
/// on, where the chunk at `i` begins at `start`; only chunks that overlap the
/// window are read. The chunks must reach the end of the window.
pub open spec fn window(
    objects: Objects,
    chunks: Seq<ChunkRefV>,
    i: int,
    start: int,
    from: int,
    to: int,
) -> Result<Seq<u8>, ErrorV>
    decreases chunks.len() - i,
{
    if i >= chunks.len() {
        if start >= to {
            Ok(seq![])
        } else {
            Err(end_error())
        }
    } else {
        let len = chunks[i].len as int;
        if start + len <= from {
            window(objects, chunks, i + 1, start + len, from, to)
        } else if start >= to {
            Ok(seq![])
        } else {
            match store::read_as::<Chunk>(objects, chunks[i].id, TypeTag::Chunk) {
                Err(e) => Err(e),
                Ok(data) => if data.len() != len {
                    Err(length_error(chunks[i].id, data.len(), len as nat))
                } else {
                    let part = data.subrange(most(from - start, 0), least(to - start, len));
                    match window(objects, chunks, i + 1, start + len, from, to) {
                        Err(e) => Err(e),
                        Ok(tail) => Ok(part + tail),
                    }
                },
            }
        }
    }
}

/// What reading `len` bytes at `offset` of the file under `id` gives.
pub open spec fn file_range(objects: Objects, id: Seq<u8>, offset: int, len: int) -> Result<
    Seq<u8>,
    ErrorV,
> {
    match store::read_as::<Blob>(objects, id, TypeTag::Blob) {
        Err(e) => Err(e),
        Ok(blob) => if len == 0 || offset >= blob.total_len {
            Ok(seq![])
        } else {
            window(
                objects,
                blob.chunks,
                0,
                0,
                offset,
                least(offset + len, blob.total_len as int),
            )
        },
    }
}

/// What was collected so far, followed by the rest.
pub open spec fn followed(head: Seq<u8>, tail: Result<Seq<u8>, ErrorV>) -> Result<
    Seq<u8>,
    ErrorV,
> {
    match tail {
        Ok(t) => Ok(head + t),
        Err(e) => Err(e),
    }
}

/// A window that can be read is read whole.
proof fn lemma_window_len(
    objects: Objects,
    chunks: Seq<ChunkRefV>,
    i: int,
    start: int,
    from: int,
    to: int,
)
    requires
        0 <= i,
        0 <= start,
        0 <= from <= to,
        window(objects, chunks, i, start, from, to) is Ok,
    ensures
        window(objects, chunks, i, start, from, to)->Ok_0.len() == to - least(
            most(from, start),
            to,
        ),
    decreases chunks.len() - i,
{
    if i < chunks.len() {
        let len = chunks[i].len as int;
        if start + len <= from || start < to {
            lemma_window_len(objects, chunks, i + 1, start + len, from, to);
        }
    }
}

/// Whether a read of `len` bytes at `offset` gives as many as the file records
/// there.
pub open spec fn whole_range(objects: Objects, id: Seq<u8>, offset: int, len: int) -> bool {
    store::read_as::<Blob>(objects, id, TypeTag::Blob) matches Ok(blob) && file_range(
        objects,
        id,
        offset,
        len,
    ) matches Ok(bytes) && bytes.len() == least(offset + len, blob.total_len as int) - least(
        offset,
        blob.total_len as int,
    )
}

/// A partial read gives all the bytes that were asked for, up to the end of the
/// file.
pub proof fn lemma_range_is_complete(objects: Objects, id: Seq<u8>, offset: int, len: int)
    requires
        0 <= offset,
        0 <= len,
        file_range(objects, id, offset, len) is Ok,
    ensures
        whole_range(objects, id, offset, len),
{
    let blob = store::read_as::<Blob>(objects, id, TypeTag::Blob)->Ok_0;
    if len > 0 && offset < blob.total_len {
        let to = least(offset + len, blob.total_len as int);
        lemma_window_len(objects, blob.chunks, 0, 0, offset, to);
    }
}

/// Reads `len` bytes starting at `offset` from the [`Blob`] at `blob_id`,
/// fetching only the chunks that overlap the requested range.
///
/// The returned vector is shorter than `len` only when the range runs past the
/// end of the file; reading at or beyond the end yields an empty vector. A blob
/// whose chunks end before the range does is corrupt.
pub fn read_blob_range(store: &ObjectStore, blob_id: &ObjectId, offset: u64, len: usize) -> (r:
    Result<Vec<u8>, Error>)
    ensures
        error::outcome(r) == file_range(store@, blob_id@, offset as int, len as int),
        r is Ok ==> whole_range(store@, blob_id@, offset as int, len as int),
{
    proof {
        if file_range(store@, blob_id@, offset as int, len as int) is Ok {
            lemma_range_is_complete(store@, blob_id@, offset as int, len as int);
        }
    }
    let blob = match store.get_blob(blob_id) {
        Ok(blob) => blob,
        Err(e) => {
            return Err(e);
        },
    };
    let total = blob.total_len();
    if len == 0 || offset >= total {
        let out: Vec<u8> = Vec::new();
        assert(out@ =~= seq![]);
        return Ok(out);
    }
    let want_end: u64 = if len as u64 <= total - offset {
        offset + len as u64
    } else {
        total
    };
    let ghost goal = file_range(store@, blob_id@, offset as int, len as int);
    let chunks = blob.chunks();
    let ghost refs = blob@.chunks;
    let mut out: Vec<u8> = Vec::with_capacity((want_end - offset) as usize);
    let mut chunk_start: u128 = 0;
    let mut i: usize = 0;
    proof {
        assert(out@ + seq![] =~= out@);
        match window(store@, refs, 0, 0, offset as int, want_end as int) {
            Ok(t) => {
                assert(out@ + t =~= t);
            },
            Err(_) => {},
        }
    }
    while i < chunks.len()
        invariant
            i <= chunks@.len(),
            refs == encoding::views(chunks@),
            offset < want_end,
            chunk_start <= i * 0x1_0000_0000,
            goal == file_range(store@, blob_id@, offset as int, len as int),
            goal is Ok ==> whole_range(store@, blob_id@, offset as int, len as int),
            goal == followed(
                out@,
                window(
                    store@,
                    refs,
                    i as int,
                    chunk_start as int,
                    offset as int,
                    want_end as int,
                ),
            ),
        decreases chunks.len() - i,
    {
        assert(refs[i as int] == chunks@[i as int]@);
        let chunk_len: u32 = chunks[i].len();
        assert(chunk_start <= 0xffff_ffff_ffff_ffff * 0x1_0000_0000) by (nonlinear_arith)
            requires
                chunk_start <= i * 0x1_0000_0000,
                i <= 0xffff_ffff_ffff_ffff,
        ;
        let chunk_end: u128 = chunk_start + chunk_len as u128;
        if chunk_end <= offset as u128 {
            chunk_start = chunk_end;
            i += 1;
            continue;
        }
        if chunk_start >= want_end as u128 {
            assert(out@ + seq![] =~= out@);
            return Ok(out);
        }
        let id = chunks[i].id();
        let chunk = match store.get_chunk(&id) {
            Ok(chunk) => chunk,
            Err(e) => {
                return Err(e);
            },
        };
        let data = chunk.data();
        if data.len() as u64 != chunk_len as u64 {
            let what = two_numbers(
                " length ",
                data.len() as u64,
                " disagrees with blob record ",
                chunk_len as u64,
            );
            let mut message = "chunk ".to_owned();
            append_text(&mut message, id.short().as_str());
            append_text(&mut message, what.as_str());
            return Err(Error::Corruption(message));
        }
        let start: u64 = chunk_start as u64;
        let copy_from: u64 = if offset >= start {
            offset - start
        } else {
            0
        };
        let copy_to: u64 = if want_end - start <= chunk_len as u64 {
            want_end - start
        } else {
            chunk_len as u64
        };
        let part = slice_of(data, copy_from as usize, copy_to as usize);
        let ghost was = out@;
        out.extend_from_slice(part);
        proof {
            assert(out@ =~= was + part@);
            match window(
                store@,
                refs,
                i + 1,
                chunk_end as int,
                offset as int,
                want_end as int,
            ) {
                Ok(t) => {
                    assert(was + (part@ + t) =~= out@ + t);
                },
                Err(_) => {},
            }
        }
        chunk_start = chunk_end;
        i += 1;
    }
    if chunk_start < want_end as u128 {
        return Err(
            Error::Corruption("the recorded chunks end before the range does".to_owned()),
        );
    }
    assert(out@ + seq![] =~= out@);
    Ok(out)
}

// ── reading a part ───────────────────────────────────────────────────────────

/// Whether each chunk can be read and is as long as it is recorded.
pub open spec fn honest(objects: Objects, chunks: Seq<ChunkRefV>) -> bool {
    forall|i: int|
        0 <= i < chunks.len() ==> (store::read_as::<Chunk>(
            objects,
            (#[trigger] chunks[i]).id,
            TypeTag::Chunk,
        ) matches Ok(data) && data.len() == chunks[i].len)
}

/// The chunks up to `n` join to as many bytes as are recorded for them.
proof fn lemma_joined_len(objects: Objects, chunks: Seq<ChunkRefV>, n: int)
    requires
        0 <= n <= chunks.len(),
        honest(objects, chunks),
    ensures
        joined_chunks(objects, chunks, n) matches Ok(data) && data.len() == recorded_len(chunks, n),
    decreases n,
{
    if n > 0 {
        lemma_joined_len(objects, chunks, n - 1);
        assert(store::read_as::<Chunk>(objects, chunks[n - 1].id, TypeTag::Chunk) is Ok);
    }
}

/// What the chunks up to `m` join to is the beginning of what the chunks up to
/// `n` join to.
proof fn lemma_joined_prefix(objects: Objects, chunks: Seq<ChunkRefV>, m: int, n: int)
    requires
        0 <= m <= n <= chunks.len(),
        honest(objects, chunks),
    ensures
        joined_chunks(objects, chunks, m)->Ok_0 == joined_chunks(objects, chunks, n)->Ok_0.take(
            recorded_len(chunks, m),
        ),
        recorded_len(chunks, m) <= joined_chunks(objects, chunks, n)->Ok_0.len(),
        0 <= recorded_len(chunks, m),
    decreases n,
{
    lemma_joined_len(objects, chunks, m);
    lemma_joined_len(objects, chunks, n);
    let whole = joined_chunks(objects, chunks, n)->Ok_0;
    if m == n {
        assert(whole.take(whole.len() as int) =~= whole);
    } else {
        lemma_joined_prefix(objects, chunks, m, n - 1);
        lemma_joined_len(objects, chunks, n - 1);
        let front = joined_chunks(objects, chunks, n - 1)->Ok_0;
        assert(store::read_as::<Chunk>(objects, chunks[n - 1].id, TypeTag::Chunk) is Ok);
        assert(whole.take(recorded_len(chunks, m)) =~= front.take(recorded_len(chunks, m)));
    }
}

proof fn lemma_window(
    objects: Objects,
    chunks: Seq<ChunkRefV>,
    i: int,
    from: int,
    to: int,
    data: Seq<u8>,
)
    requires
        0 <= i <= chunks.len(),
        honest(objects, chunks),
        joined_chunks(objects, chunks, chunks.len() as int) == Ok::<Seq<u8>, ErrorV>(data),
        0 <= from < to <= data.len(),
    ensures
        window(objects, chunks, i, recorded_len(chunks, i), from, to) == Ok::<Seq<u8>, ErrorV>(
            data.subrange(least(most(from, recorded_len(chunks, i)), to), to),
        ),
    decreases chunks.len() - i,
{
    let start = recorded_len(chunks, i);
    lemma_joined_prefix(objects, chunks, i, chunks.len() as int);
    lemma_joined_len(objects, chunks, chunks.len() as int);
    if i == chunks.len() {
        assert(data.subrange(least(most(from, start), to), to) =~= seq![]);
    } else {
        let len = chunks[i].len as int;
        lemma_window(objects, chunks, i + 1, from, to, data);
        lemma_joined_prefix(objects, chunks, i + 1, chunks.len() as int);
        lemma_joined_len(objects, chunks, i);
        lemma_joined_len(objects, chunks, i + 1);
        assert(recorded_len(chunks, i + 1) == start + len);
        let chunk = store::read_as::<Chunk>(objects, chunks[i].id, TypeTag::Chunk)->Ok_0;
        assert(store::read_as::<Chunk>(objects, chunks[i].id, TypeTag::Chunk) is Ok);
        let front = joined_chunks(objects, chunks, i)->Ok_0;
        assert(data.take(start + len) == front + chunk);
        assert(chunk =~= data.subrange(start, start + len)) by {
            assert forall|k: int| 0 <= k < len implies chunk[k] == data[start + k] by {
                assert((front + chunk)[start + k] == chunk[k]);
                assert(data.take(start + len)[start + k] == data[start + k]);
            }
        }
        if start + len <= from {
        } else if start >= to {
            assert(data.subrange(least(most(from, start), to), to) =~= seq![]);
        } else {
            let part = chunk.subrange(most(from - start, 0), least(to - start, len));
            let tail = data.subrange(least(most(from, start + len), to), to);
            assert(part + tail =~= data.subrange(least(most(from, start), to), to));
        }
    }
}

/// A partial read is a part of the whole: where every chunk is as long as
/// recorded, reading `len` bytes at `offset` gives those bytes of the content,
/// cut off at its end.
pub proof fn lemma_range_is_part(objects: Objects, id: Seq<u8>, offset: int, len: int)
    requires
        0 <= offset,
        0 <= len,
        store::read_as::<Blob>(objects, id, TypeTag::Blob) matches Ok(blob) && honest(
            objects,
            blob.chunks,
        ),
        file_content(objects, id) is Ok,
    ensures
        ({
            let data = file_content(objects, id)->Ok_0;
            file_range(objects, id, offset, len) == Ok::<Seq<u8>, ErrorV>(
                data.subrange(
                    least(offset, data.len() as int),
                    least(offset + len, data.len() as int),
                ),
            )
        }),
{
    let blob = store::read_as::<Blob>(objects, id, TypeTag::Blob)->Ok_0;
    let data = file_content(objects, id)->Ok_0;
    if len == 0 || offset >= blob.total_len {
        assert(data.subrange(
            least(offset, data.len() as int),
            least(offset + len, data.len() as int),
        ) =~= seq![]);
    } else {
        lemma_window(
            objects,
            blob.chunks,
            0,
            offset,
            least(offset + len, blob.total_len as int),
            data,
        );
    }
}

/// Whether two stores read the same chunks where those at `i` and later, the
/// first of which begins at `start`, overlap the window `[from, to)`.
pub open spec fn agree_on(
    a: Objects,
    b: Objects,
    chunks: Seq<ChunkRefV>,
    i: int,
    start: int,
    from: int,
    to: int,
) -> bool
    decreases chunks.len() - i,
{
    i < chunks.len() ==> {
        let end = start + chunks[i].len;
        &&& start < to && from < end ==> store::read_as::<Chunk>(
            a,
            chunks[i].id,
            TypeTag::Chunk,
        ) == store::read_as::<Chunk>(b, chunks[i].id, TypeTag::Chunk)
        &&& agree_on(a, b, chunks, i + 1, end, from, to)
    }
}

proof fn lemma_window_agrees(
    a: Objects,
    b: Objects,
    chunks: Seq<ChunkRefV>,
    i: int,
    start: int,
    from: int,
    to: int,
)
    requires
        0 <= i,
        agree_on(a, b, chunks, i, start, from, to),
    ensures
        window(a, chunks, i, start, from, to) == window(b, chunks, i, start, from, to),
    decreases chunks.len() - i,
{
    if i < chunks.len() {
        lemma_window_agrees(a, b, chunks, i + 1, start + chunks[i].len, from, to);
    }
}

/// A partial read needs only the blob and the chunks that overlap the range:
/// whatever else is missing or different, it gives the same.
pub proof fn lemma_range_needs_its_chunks_only(
    a: Objects,
    b: Objects,
    id: Seq<u8>,
    offset: int,
    len: int,
)
    requires
        store::read_as::<Blob>(a, id, TypeTag::Blob) == store::read_as::<Blob>(
            b,
            id,
            TypeTag::Blob,
        ),
        store::read_as::<Blob>(a, id, TypeTag::Blob) matches Ok(blob) ==> agree_on(
            a,
            b,
            blob.chunks,
            0,
            0,
            offset,
            least(offset + len, blob.total_len as int),
        ),
    ensures
        file_range(a, id, offset, len) == file_range(b, id, offset, len),
{
    if let Ok(blob) = store::read_as::<Blob>(a, id, TypeTag::Blob) {
        let to = least(offset + len, blob.total_len as int);
        lemma_window_agrees(a, b, blob.chunks, 0, 0, offset, to);
    }
}

/// Whether the chunks that `data` is cut into cover it, and their ids are ids.
///
/// `store_file_bytes` establishes this of every file that it stores.
pub open spec fn well_cut(data: Seq<u8>) -> bool {
    let spans = chunker::chunk_spans(data);
    &&& data.len() <= usize::MAX
    &&& spans.len() <= usize::MAX
    &&& chunker::covers(spans, data.len() as int, crate::chunker::MAX_CHUNK as int)
    &&& forall|i: int| 0 <= i < spans.len() - 1 ==> (#[trigger] spans[i]).1
        >= crate::chunker::MIN_CHUNK
    &&& 0 < data.len() <= crate::chunker::MIN_CHUNK ==> spans.len() == 1
    &&& forall|k: int|
        0 <= k < spans.len() ==> object::is_id(
            hash::content_id(TypeTag::Chunk, piece(data, #[trigger] spans[k])),
        )
}

/// A file that was stored is there: its blob, with its length and its chunks,
/// and its content. Its chunks are not empty, none is longer than the maximum,
/// and together they are as long as the file. Storing it again gives the same id
/// and adds nothing.
pub proof fn lemma_stored_file(objects: Objects, data: Seq<u8>)
    requires
        no_collision(objects, data),
        well_cut(data),
    ensures
        ({
            let after = stored_file(objects, data);
            &&& file_content(after, file_id(data)) == Ok::<Seq<u8>, ErrorV>(data)
            &&& store::read_as::<Blob>(after, file_id(data), TypeTag::Blob) matches Ok(blob) && {
                &&& blob == file_blob(data)
                &&& blob.total_len == data.len()
                &&& recorded_len(blob.chunks, blob.chunks.len() as int) == data.len()
                &&& forall|i: int|
                    0 <= i < blob.chunks.len() ==> 1 <= (#[trigger] blob.chunks[i]).len
                        <= crate::chunker::MAX_CHUNK
                &&& blob.chunks.len() == 0 <==> data.len() == 0
                &&& 1 <= data.len() <= crate::chunker::MIN_CHUNK ==> blob.chunks.len() == 1
                &&& honest(after, blob.chunks)
            }
            &&& stored_file(after, data) == after
        }),
{
    lemma_file_reads_back(objects, data);
    lemma_storing_again_adds_nothing(objects, data);
    let after = stored_file(objects, data);
    let spans = chunker::chunk_spans(data);
    let refs = file_blob(data).chunks;
    assert forall|i: int| 0 <= i < refs.len() implies 1 <= (#[trigger] refs[i]).len
        <= crate::chunker::MAX_CHUNK by {
        assert(0 < spans[i].1 <= crate::chunker::MAX_CHUNK);
    }
    assert forall|i: int| 0 <= i < refs.len() implies (store::read_as::<Chunk>(
        after,
        (#[trigger] refs[i]).id,
        TypeTag::Chunk,
    ) matches Ok(chunk) && chunk.len() == refs[i].len) by {
        lemma_stored_chunk(objects, data, i);
    }
}

/// A partial read of a file that was stored gives that part of its content, cut
/// off at its end. That is so in every store that holds the blob and the chunks
/// that overlap the range, whatever chunk outside the range is missing.
pub proof fn lemma_stored_range(
    objects: Objects,
    other: Objects,
    data: Seq<u8>,
    offset: int,
    len: int,
)
    requires
        0 <= offset,
        0 <= len,
        no_collision(objects, data),
        well_cut(data),
        store::read_as::<Blob>(other, file_id(data), TypeTag::Blob) == store::read_as::<Blob>(
            stored_file(objects, data),
            file_id(data),
            TypeTag::Blob,
        ),
        agree_on(
            stored_file(objects, data),
            other,
            file_blob(data).chunks,
            0,
            0,
            offset,
            least(offset + len, data.len() as int),
        ),
    ensures
        file_range(other, file_id(data), offset, len) == Ok::<Seq<u8>, ErrorV>(
            data.subrange(
                least(offset, data.len() as int),
                least(offset + len, data.len() as int),
            ),
        ),
{
    let after = stored_file(objects, data);
    lemma_stored_file(objects, data);
    lemma_range_is_part(after, file_id(data), offset, len);
    lemma_range_needs_its_chunks_only(after, other, file_id(data), offset, len);
}

proof fn lemma_join_survives(before: Objects, after: Objects, chunks: Seq<ChunkRefV>, n: int)
    requires
        store::extends(before, after),
        joined_chunks(before, chunks, n) is Ok,
    ensures
        joined_chunks(after, chunks, n) == joined_chunks(before, chunks, n),
    decreases n,
{
    if n > 0 {
        lemma_join_survives(before, after, chunks, n - 1);
        store::lemma_reads_survive::<Chunk>(before, after, chunks[n - 1].id, TypeTag::Chunk);
    }
}

/// A file that can be read stays readable, and its content stays, whatever is
/// written later.
pub proof fn lemma_files_survive(before: Objects, after: Objects, id: Seq<u8>)
    requires
        store::extends(before, after),
        file_content(before, id) is Ok,
    ensures
        file_content(after, id) == file_content(before, id),
{
    store::lemma_reads_survive::<Blob>(before, after, id, TypeTag::Blob);
    let blob = store::read_as::<Blob>(before, id, TypeTag::Blob)->Ok_0;
    lemma_join_survives(before, after, blob.chunks, blob.chunks.len() as int);
}

proof fn lemma_chunks_there(objects: Objects, data: Seq<u8>, spans: Seq<(usize, usize)>)
    ensures
        store::extends(objects, stored_chunks(objects, data, spans)),
        forall|i: int|
            0 <= i < spans.len() ==> stored_chunks(objects, data, spans).dom().contains(
                hash::content_id(TypeTag::Chunk, piece(data, #[trigger] spans[i])),
            ),
    decreases spans.len(),
{
    if spans.len() > 0 {
        let rest = spans.drop_last();
        lemma_chunks_there(objects, data, rest);
        assert forall|i: int| 0 <= i < spans.len() implies stored_chunks(
            objects,
            data,
            spans,
        ).dom().contains(hash::content_id(TypeTag::Chunk, piece(data, #[trigger] spans[i]))) by {
            if i < spans.len() - 1 {
                assert(rest[i] == spans[i]);
            }
        }
    }
}

proof fn lemma_chunks_stored_again(objects: Objects, data: Seq<u8>, spans: Seq<(usize, usize)>)
    requires
        forall|i: int|
            0 <= i < spans.len() ==> objects.dom().contains(
                hash::content_id(TypeTag::Chunk, piece(data, #[trigger] spans[i])),
            ),
    ensures
        stored_chunks(objects, data, spans) == objects,
    decreases spans.len(),
{
    if spans.len() > 0 {
        let rest = spans.drop_last();
        assert forall|i: int| 0 <= i < rest.len() implies objects.dom().contains(
            hash::content_id(TypeTag::Chunk, piece(data, #[trigger] rest[i])),
        ) by {
            assert(rest[i] == spans[i]);
        }
        lemma_chunks_stored_again(objects, data, rest);
        assert(objects.dom().contains(
            hash::content_id(TypeTag::Chunk, piece(data, spans[spans.len() - 1])),
        ));
    }
}

/// Identical files are stored once: storing a file again adds no object.
pub proof fn lemma_storing_again_adds_nothing(objects: Objects, data: Seq<u8>)
    ensures
        store::extends(objects, stored_file(objects, data)),
        stored_file(stored_file(objects, data), data) == stored_file(objects, data),
{
    let spans = chunker::chunk_spans(data);
    let once = stored_file(objects, data);
    lemma_chunks_there(objects, data, spans);
    assert forall|i: int| 0 <= i < spans.len() implies once.dom().contains(
        hash::content_id(TypeTag::Chunk, piece(data, #[trigger] spans[i])),
    ) by {
        assert(stored_chunks(objects, data, spans).dom().contains(
            hash::content_id(TypeTag::Chunk, piece(data, spans[i])),
        ));
    }
    lemma_chunks_stored_again(once, data, spans);
}

// ── laws ─────────────────────────────────────────────────────────────────────

/// A file that reads is as long as its blob records, and is the content of its chunks, one
/// after the other; one whose chunks add up to another length, or of which a chunk cannot be
/// read, does not read.
pub proof fn law_file_content(objects: Objects, id: Seq<u8>, blob: BlobV)
    requires
        store::read_as::<Blob>(objects, id, TypeTag::Blob) == Ok::<BlobV, ErrorV>(blob),
    ensures
        ({
            let r = file_content(objects, id);
            &&& r matches Ok(data) ==> data.len() == blob.total_len && is_joined(
                objects,
                blob.chunks,
                data,
            )
            &&& recorded_len(blob.chunks, blob.chunks.len() as int) != blob.total_len ==> r is Err
            &&& recorded_len(blob.chunks, blob.chunks.len() as int) != blob.total_len
                && blob.total_len <= usize::MAX && recorded_len(
                blob.chunks,
                blob.chunks.len() as int,
            ) <= usize::MAX ==> r == Err::<Seq<u8>, ErrorV>(
                ErrorV::Corruption(
                    "blob "@ + hash::hex_text(id).take(12) + (" records total_len "@
                        + text::decimal_text(blob.total_len as nat) + " but its chunks sum to "@
                        + text::decimal_text(
                        recorded_len(blob.chunks, blob.chunks.len() as int) as nat,
                    )),
                ),
            )
            &&& forall|i: int|
                0 <= i < blob.chunks.len() && store::read_as::<Chunk>(
                    objects,
                    (#[trigger] blob.chunks[i]).id,
                    TypeTag::Chunk,
                ) is Err ==> r is Err
        }),
{
    lemma_is_joined(objects, blob.chunks, blob.chunks.len() as int);
    assert(blob.chunks.take(blob.chunks.len() as int) =~= blob.chunks);
}

/// Whether the bytes are those of the chunks, one after the other.
pub open spec fn is_joined(objects: Objects, chunks: Seq<ChunkRefV>, data: Seq<u8>) -> bool
    decreases chunks.len(),
{
    if chunks.len() == 0 {
        data.len() == 0
    } else {
        store::read_as::<Chunk>(objects, chunks.last().id, TypeTag::Chunk) matches Ok(last)
            && last.len() <= data.len() && data.skip(data.len() - last.len()) == last && is_joined(
            objects,
            chunks.drop_last(),
            data.take(data.len() - last.len()),
        )
    }
}

proof fn lemma_is_joined(objects: Objects, chunks: Seq<ChunkRefV>, n: int)
    requires
        0 <= n <= chunks.len(),
    ensures
        joined_chunks(objects, chunks, n) matches Ok(data) ==> is_joined(
            objects,
            chunks.take(n),
            data,
        ) && forall|i: int|
            0 <= i < n ==> store::read_as::<Chunk>(
                objects,
                (#[trigger] chunks[i]).id,
                TypeTag::Chunk,
            ) is Ok,
    decreases n,
{
    if n > 0 {
        lemma_is_joined(objects, chunks, n - 1);
        if let Ok(data) = joined_chunks(objects, chunks, n) {
            let head = joined_chunks(objects, chunks, n - 1)->Ok_0;
            let last = store::read_as::<Chunk>(objects, chunks[n - 1].id, TypeTag::Chunk)->Ok_0;
            assert(chunks.take(n).drop_last() =~= chunks.take(n - 1));
            assert(data.skip(data.len() - last.len()) =~= last);
            assert(data.take(data.len() - last.len()) =~= head);
        }
    }
}

/// A range that needs a chunk of another length than its blob records, or that the chunks do
/// not reach, cannot be read.
pub proof fn law_range_errors(objects: Objects, chunk: ChunkRefV, data: Seq<u8>, from: int, to: int)
    requires
        store::read_as::<Chunk>(objects, chunk.id, TypeTag::Chunk) == Ok::<Seq<u8>, ErrorV>(data),
        0 <= from < chunk.len,
        from < to,
    ensures
        data.len() != chunk.len ==> window(objects, seq![chunk], 0, 0, from, to) == Err::<
            Seq<u8>,
            ErrorV,
        >(
            ErrorV::Corruption(
                "chunk "@ + hash::hex_text(chunk.id).take(12) + (" length "@ + text::decimal_text(
                    data.len(),
                ) + " disagrees with blob record "@ + text::decimal_text(chunk.len as nat)),
            ),
        ),
        data.len() == chunk.len && to > chunk.len ==> window(objects, seq![chunk], 0, 0, from, to)
            == Err::<Seq<u8>, ErrorV>(
            ErrorV::Corruption("the recorded chunks end before the range does"@),
        ),
        data.len() == chunk.len && to <= chunk.len ==> window(objects, seq![chunk], 0, 0, from, to)
            == Ok::<Seq<u8>, ErrorV>(data.subrange(from, to)),
{
    reveal_with_fuel(window, 2);
    if data.len() == chunk.len && to <= chunk.len {
        assert(data.subrange(from, to) + Seq::<u8>::empty() =~= data.subrange(from, to));
    }
}

/// A file is cut between 2 and 64 kibibytes, on average at 8. Its blob records its length
/// and, for each piece, the length and the id of the piece as a chunk.
pub proof fn law_file_blob(data: Seq<u8>, i: int)
    requires
        well_cut(data),
    ensures
        ({
            let spans = chunker::fastcdc_chunks(data, 2048, 8192, 65536);
            let blob = file_blob(data);
            &&& blob.total_len == data.len()
            &&& blob.chunks.len() == spans.len()
            &&& 0 <= i < spans.len() ==> blob.chunks[i].len == spans[i].1 && blob.chunks[i].id
                == hash::content_id(
                TypeTag::Chunk,
                data.subrange(spans[i].0 as int, spans[i].0 + spans[i].1),
            )
        }),
{
    let spans = chunker::chunk_spans(data);
    if 0 <= i < spans.len() {
        assert(0 < spans[i].1 <= 65536);
    }
}

} // verus!
