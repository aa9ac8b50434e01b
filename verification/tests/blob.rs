use tack::blob::{read_blob, read_blob_range, store_file_bytes};
use tack::chunker::MIN_CHUNK;
use tack::encoding::{Encode, Encoder};
use tack::error::Error;
use tack::hash::TypeTag;
use tack::object::{Blob, Chunk, ChunkRef};
use tack::store::ObjectStore;

/// Deterministic pseudo-random byte generator (xorshift) — reproducible
/// across runs without an RNG dependency.
fn pseudo_random(len: usize, seed: u64) -> Vec<u8> {
    let mut state = seed | 1;
    let mut out = Vec::with_capacity(len);
    for _ in 0..len {
        state ^= state << 13;
        state ^= state >> 7;
        state ^= state << 17;
        out.push((state & 0xff) as u8);
    }
    out
}

// ── store/read round-trips ────────────────────────────────────────────────

#[test]
fn empty_file_round_trips() -> Result<(), Error> {
    let mut store = ObjectStore::new();
    let id = store_file_bytes(&mut store, &[]);
    let back = read_blob(&store, &id)?;
    assert!(back.is_empty());
    // An empty file is a zero-chunk blob.
    assert_eq!(store.get_blob(&id)?.chunks().len(), 0);
    Ok(())
}

#[test]
fn sub_min_chunk_file_is_single_chunk() -> Result<(), Error> {
    let mut store = ObjectStore::new();
    let bytes = pseudo_random(MIN_CHUNK / 2, 1);
    let id = store_file_bytes(&mut store, &bytes);
    assert_eq!(store.get_blob(&id)?.chunks().len(), 1);
    assert_eq!(read_blob(&store, &id)?, bytes);
    Ok(())
}

#[test]
fn multi_mb_file_round_trips() -> Result<(), Error> {
    let mut store = ObjectStore::new();
    let bytes = pseudo_random(3 * 1024 * 1024, 0xcafe);
    let id = store_file_bytes(&mut store, &bytes);
    let blob = store.get_blob(&id)?;
    assert!(blob.chunks().len() > 1, "multi-MiB file should be many chunks");
    assert_eq!(read_blob(&store, &id)?, bytes);
    Ok(())
}

#[test]
fn identical_files_dedup_at_blob_level() -> Result<(), Error> {
    let mut store = ObjectStore::new();
    let bytes = pseudo_random(512 * 1024, 7);
    let id1 = store_file_bytes(&mut store, &bytes);
    let id2 = store_file_bytes(&mut store, &bytes);
    assert_eq!(id1, id2, "identical files must produce the same BlobId");
    Ok(())
}

#[test]
fn identical_chunks_stored_once() -> Result<(), Error> {
    let mut store = ObjectStore::new();
    // Two files made of the same repeated block share chunks.
    let block = pseudo_random(256 * 1024, 99);
    let id1 = store_file_bytes(&mut store, &block);
    let _id2 = store_file_bytes(&mut store, &block);
    // Every chunk referenced by the blob exists exactly once (content
    // addressing). Re-storing the same chunk is a no-op; verify each chunk
    // referenced is present and that re-putting returns the same id.
    let blob = store.get_blob(&id1)?;
    for chunk_ref in blob.chunks() {
        let chunk = store.get_chunk(&chunk_ref.id())?;
        assert_eq!(store.put_chunk(&chunk), chunk_ref.id());
    }
    Ok(())
}

#[test]
fn shared_prefix_dedups_chunks() -> Result<(), Error> {
    let mut store = ObjectStore::new();
    // File B = file A with a small suffix appended. FastCDC should keep most
    // leading chunk boundaries identical, so the leading chunks dedup.
    let a = pseudo_random(1024 * 1024, 0x5151);
    let mut b = a.clone();
    b.extend_from_slice(&pseudo_random(4096, 0x6262));

    let id_a = store_file_bytes(&mut store, &a);
    let id_b = store_file_bytes(&mut store, &b);
    let blob_a = store.get_blob(&id_a)?;
    let blob_b = store.get_blob(&id_b)?;

    let a_ids: std::collections::HashSet<_> =
        blob_a.chunks().iter().map(ChunkRef::id).collect();
    let shared = blob_b
        .chunks()
        .iter()
        .filter(|c| a_ids.contains(&c.id()))
        .count();
    assert!(shared > 0, "files sharing a prefix should share chunks");
    Ok(())
}

// ── read_blob_range ───────────────────────────────────────────────────────

#[test]
fn range_matches_full_read_at_edges() -> Result<(), Error> {
    let mut store = ObjectStore::new();
    let bytes = pseudo_random(2 * 1024 * 1024 + 123, 0x9090);
    let id = store_file_bytes(&mut store, &bytes);
    let full = read_blob(&store, &id)?;
    assert_eq!(full, bytes);

    let total = bytes.len();
    // Edge offsets: start, near a chunk boundary, end, past end.
    let cases: &[(u64, usize)] = &[
        (0, 1),
        (0, total),
        (0, MIN_CHUNK),
        (1, 100),
        ((total / 2) as u64, 4096),
        ((total - 1) as u64, 1),
        ((total - 10) as u64, 10),
        ((total - 10) as u64, 1000), // runs past end -> clamps
        (total as u64, 50),          // at EOF -> empty
        ((total + 100) as u64, 50),  // past EOF -> empty
        (12345, 0),                  // zero-length -> empty
    ];
    for &(offset, len) in cases {
        let got = read_blob_range(&store, &id, offset, len)?;
        let start = usize::try_from(offset).expect("offset fits usize").min(total);
        let end = (start + len).min(total);
        let expected = &full[start..end];
        assert_eq!(
            got, expected,
            "range mismatch at offset={offset} len={len}"
        );
    }
    Ok(())
}

#[test]
fn random_ranges_match_full_read() -> Result<(), Error> {
    let mut store = ObjectStore::new();
    let bytes = pseudo_random(1024 * 1024 + 777, 0x3141);
    let id = store_file_bytes(&mut store, &bytes);
    let full = read_blob(&store, &id)?;
    let total = full.len();

    // Deterministic "random" offset/len pairs via the same xorshift.
    let mut state: u64 = 0xfeed_face;
    for _ in 0..200 {
        state ^= state << 13;
        state ^= state >> 7;
        state ^= state << 17;
        let offset = (state % (total as u64 + 16)) as u64;
        let len = (state >> 20) as usize % (total + 16);
        let got = read_blob_range(&store, &id, offset, len)?;
        let start = usize::try_from(offset).expect("offset fits usize").min(total);
        let end = (start + len).min(total);
        assert_eq!(got, &full[start..end], "offset={offset} len={len}");
    }
    Ok(())
}

#[test]
fn range_on_empty_blob_is_empty() -> Result<(), Error> {
    let mut store = ObjectStore::new();
    let id = store_file_bytes(&mut store, &[]);
    assert!(read_blob_range(&store, &id, 0, 100)?.is_empty());
    Ok(())
}

// ── oversized total_len ───────────────────────────────────────────────────

/// A crafted blob whose `total_len` is enormous but
/// whose chunk list is empty must give a recoverable `Error::Corruption`,
/// NOT pre-allocate `Vec::with_capacity(total_len)` and abort the process.
/// `total_len` is validated against the summed chunk lengths before any
/// allocation, so the lie is caught cheaply.
#[test]
fn read_blob_rejects_oversized_total_len() -> Result<(), Error> {

    let mut store = ObjectStore::new();
    // total_len = 1 TiB, but zero chunks → reassembly can never reach it and a
    // naive Vec::with_capacity(1<<40) would abort on Windows.
    let evil = Blob::new(1 << 40, Vec::new());
    let mut enc = Encoder::new();
    evil.encode(&mut enc);
    let id = store.put(TypeTag::Blob, enc.into_bytes());

    let result = read_blob(&store, &id);
    assert!(
        matches!(result, Err(Error::Corruption(_))),
        "oversized total_len must be Corruption, got {result:?}"
    );
    Ok(())
}

/// A blob whose chunks sum to less than its `total_len` is likewise rejected
/// before allocating the inflated size.
#[test]
fn read_blob_rejects_total_len_chunk_mismatch() -> Result<(), Error> {

    let mut store = ObjectStore::new();
    // Store one real 3-byte chunk, then claim total_len = 1 GiB.
    let real_chunk = Chunk::new(b"abc".to_vec());
    let chunk_id = store.put_chunk(&real_chunk);
    let evil = Blob::new(1 << 30, vec![ChunkRef::new(chunk_id, 3)]);
    let mut enc = Encoder::new();
    evil.encode(&mut enc);
    let id = store.put(TypeTag::Blob, enc.into_bytes());

    let result = read_blob(&store, &id);
    assert!(matches!(result, Err(Error::Corruption(_))), "got {result:?}");
    Ok(())
}

// ── many round-trips ──────────────────────────────────────────────────────

#[test]
fn prop_read_blob_round_trips() {
    for seed in 0..48u64 {
        let data = pseudo_random((seed as usize * 6400) % (300 * 1024), seed + 11);
        let mut store = ObjectStore::new();
        let id = store_file_bytes(&mut store, &data);
        let back = read_blob(&store, &id).expect("read");
        assert_eq!(back, data);
    }
}

#[test]
fn prop_range_matches_full() {
    for seed in 0..48u64 {
        let data = pseudo_random((seed as usize * 2731) % (128 * 1024), seed + 5);
        let mut store = ObjectStore::new();
        let id = store_file_bytes(&mut store, &data);
        let full = read_blob(&store, &id).expect("read");
        let total = full.len();
        let offset = (seed * 7919) % (total as u64 + 1);
        let len = (seed as usize * 1361) % (64 * 1024);
        let got = read_blob_range(&store, &id, offset, len).expect("range");
        let start = usize::try_from(offset).expect("offset fits usize").min(total);
        let end = (start + len).min(total);
        assert_eq!(got, full[start..end].to_vec());
    }
}

#[test]
fn files_survive_and_are_stored_once() -> Result<(), Error> {
    let mut store = ObjectStore::new();
    let first = pseudo_random(MIN_CHUNK * 3, 5);
    let id = store_file_bytes(&mut store, &first);
    let held = store.len();
    assert_eq!(store_file_bytes(&mut store, &first), id);
    assert_eq!(store.len(), held);
    store_file_bytes(&mut store, b"another file");
    assert!(store.len() > held);
    assert_eq!(read_blob(&store, &id)?, first);
    Ok(())
}

#[test]
fn a_range_that_the_chunks_do_not_reach_is_corrupt() -> Result<(), Error> {
    let mut store = ObjectStore::new();
    let id = store.put_blob(&Blob::new(10, vec![]));
    assert!(matches!(read_blob_range(&store, &id, 0, 5), Err(Error::Corruption(_))));
    assert!(matches!(read_blob_range(&store, &id, 9, 1), Err(Error::Corruption(_))));
    assert!(read_blob_range(&store, &id, 10, 5)?.is_empty());
    assert!(read_blob_range(&store, &id, 3, 0)?.is_empty());

    let chunk = store.put_chunk(&Chunk::new(b"abcd".to_vec()));
    let id = store.put_blob(&Blob::new(10, vec![ChunkRef::new(chunk, 4)]));
    assert_eq!(read_blob_range(&store, &id, 1, 3)?, b"bcd");
    assert!(matches!(read_blob_range(&store, &id, 1, 4), Err(Error::Corruption(_))));
    Ok(())
}

#[test]
fn a_range_needs_only_its_own_chunks() -> Result<(), Error> {
    let mut store = ObjectStore::new();
    let bytes = pseudo_random(MIN_CHUNK * 40, 9);
    let id = store_file_bytes(&mut store, &bytes);
    let blob = store.get_blob(&id)?;
    assert!(blob.chunks().len() > 1);
    let first = blob.chunks()[0].len() as usize;
    let mut part = ObjectStore::new();
    part.put_blob(&blob);
    part.put_chunk(&store.get_chunk(&blob.chunks()[0].id())?);
    assert_eq!(read_blob_range(&part, &id, 0, first)?, bytes[..first]);
    assert!(matches!(
        read_blob_range(&part, &id, 0, first + 1),
        Err(Error::ObjectNotFound(_))
    ));
    assert_eq!(read_blob_range(&store, &id, 5, usize::MAX)?, bytes[5..]);
    assert!(read_blob_range(&store, &id, u64::MAX, usize::MAX)?.is_empty());
    Ok(())
}
