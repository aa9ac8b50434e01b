//! Content-defined chunking via `FastCDC` (`fastcdc::v2020`).
//!
//! A file's bytes are split into variable-length chunks at content-defined
//! boundaries, so an insertion early in a file only re-chunks the region around
//! the edit. The three size parameters and the normalization level are part of
//! the on-disk **format contract**: changing any of them moves chunk boundaries
//! and therefore changes chunk ids.
use vstd::prelude::*;

use std::ops::Range;

verus! {

/// Minimum chunk size: 2 KiB. Files no larger than this become a single chunk.
pub const MIN_CHUNK: usize = 2048;

/// Target ("average") chunk size: 8 KiB.
pub const AVG_CHUNK: usize = 8192;

/// Maximum chunk size: 64 KiB. No chunk ever exceeds this.
pub const MAX_CHUNK: usize = 65536;

/// The chunks that FastCDC (2020, normalization level 2) cuts `data` into with
/// the given minimum, average and maximum size: offset and length of each.
pub uninterp spec fn fastcdc_chunks(data: Seq<u8>, min: usize, avg: usize, max: usize) -> Seq<
    (usize, usize),
>;

/// Whether the chunks (offset and length) are not empty, not longer than `max`,
/// follow one another, and cover `len` bytes.
pub open spec fn covers(chunks: Seq<(usize, usize)>, len: int, max: int) -> bool {
    &&& len == 0 ==> chunks.len() == 0
    &&& len > 0 ==> chunks.len() > 0 && chunks[0].0 == 0 && chunks.last().0 + chunks.last().1
        == len
    &&& forall|i: int|
        0 <= i < chunks.len() ==> 0 < (#[trigger] chunks[i]).1 <= max && chunks[i].0 + chunks[i].1
            <= len
    &&& forall|i: int, j: int|
        0 <= i && j == i + 1 && j < chunks.len() ==> (#[trigger] chunks[i]).0 + chunks[i].1 == (
        #[trigger] chunks[j]).0
}

/// `fastcdc::v2020::FastCDC::with_level` at `Normalization::Level2`, iterated to
/// its end.
///
/// Its result depends on the bytes and the sizes alone. Its chunks cover the
/// input in order, each with at least one and at most `max` bytes; none but the
/// last is shorter than an even `min`, and an input of at most `min` bytes is
/// one chunk.
#[verifier::external_body]
fn fastcdc_level2(data: &[u8], min: usize, avg: usize, max: usize) -> (r: Vec<(usize, usize)>)
    requires
        64 <= min <= 1_048_576,
        256 <= avg <= 4_194_304,
        1024 <= max <= 16_777_216,
        min <= avg <= max,
    ensures
        r@ == fastcdc_chunks(data@, min, avg, max),
        covers(r@, data@.len() as int, max as int),
        min % 2 == 0 ==> forall|i: int| 0 <= i < r@.len() - 1 ==> (#[trigger] r@[i]).1 >= min,
        0 < data@.len() <= min ==> r@.len() == 1,
{
    let level = fastcdc::v2020::Normalization::Level2;
    fastcdc::v2020::FastCDC::with_level(data, min, avg, max, level)
        .map(|chunk| (chunk.offset, chunk.length))
        .collect()
}

/// The byte ranges that `data` is split into.
pub open spec fn chunk_spans(data: Seq<u8>) -> Seq<(usize, usize)> {
    fastcdc_chunks(data, MIN_CHUNK, AVG_CHUNK, MAX_CHUNK)
}

/// Whether the ranges are not empty, follow one another, and cover `len` bytes.
pub open spec fn tiles(ranges: Seq<Range<usize>>, len: int) -> bool {
    &&& len == 0 ==> ranges.len() == 0
    &&& len > 0 ==> ranges.len() > 0 && ranges[0].start == 0 && ranges.last().end == len
    &&& forall|i: int| 0 <= i < ranges.len() ==> (#[trigger] ranges[i]).start < ranges[i].end <= len
    &&& forall|i: int, j: int|
        0 <= i && j == i + 1 && j < ranges.len() ==> (#[trigger] ranges[i]).end == (
        #[trigger] ranges[j]).start
}

/// Splits `data` into content-defined chunk byte ranges.
///
/// The ranges are half-open, contiguous, non-overlapping, and cover the whole
/// input in order. An empty input yields no ranges.
pub fn chunk_ranges(data: &[u8]) -> (r: Vec<Range<usize>>)
    ensures
        r@.len() == chunk_spans(data@).len(),
        forall|i: int|
            0 <= i < r@.len() ==> (#[trigger] r@[i]).start == chunk_spans(data@)[i].0 && r@[i].end
                == chunk_spans(data@)[i].0 + chunk_spans(data@)[i].1,
        covers(chunk_spans(data@), data@.len() as int, MAX_CHUNK as int),
        tiles(r@, data@.len() as int),
        forall|i: int| 0 <= i < r@.len() ==> (#[trigger] r@[i]).end - r@[i].start <= MAX_CHUNK,
        forall|i: int|
            0 <= i < r@.len() - 1 ==> (#[trigger] r@[i]).end - r@[i].start >= MIN_CHUNK,
        0 < data@.len() <= MIN_CHUNK ==> r@.len() == 1,
{
    let chunks = fastcdc_level2(data, MIN_CHUNK, AVG_CHUNK, MAX_CHUNK);
    let mut out: Vec<Range<usize>> = Vec::new();
    let mut i: usize = 0;
    while i < chunks.len()
        invariant
            i <= chunks@.len(),
            covers(chunks@, data.len() as int, MAX_CHUNK as int),
            out@.len() == i,
            forall|k: int|
                0 <= k < i ==> (#[trigger] out@[k]).start == chunks@[k].0 && out@[k].end
                    == chunks@[k].0 + chunks@[k].1,
        decreases chunks.len() - i,
    {
        let chunk = chunks[i];
        assert(chunks@[i as int].0 + chunks@[i as int].1 <= data.len());
        out.push(chunk.0..chunk.0 + chunk.1);
        i += 1;
    }
    proof {
        assert forall|k: int| 0 <= k < out@.len() implies (#[trigger] out@[k]).start < out@[k].end
            <= data@.len() by {
            assert(chunks@[k].1 > 0);
        }
        assert forall|a: int, b: int| 0 <= a && b == a + 1 && b < out@.len() implies (
        #[trigger] out@[a]).end == (#[trigger] out@[b]).start by {
            assert(chunks@[a].0 + chunks@[a].1 == chunks@[b].0);
        }
        assert forall|k: int| 0 <= k < out@.len() implies (#[trigger] out@[k]).end - out@[k].start
            <= MAX_CHUNK by {
            assert(chunks@[k].1 <= MAX_CHUNK);
        }
        assert forall|k: int| 0 <= k < out@.len() - 1 implies (#[trigger] out@[k]).end
            - out@[k].start >= MIN_CHUNK by {
            assert(chunks@[k].1 >= MIN_CHUNK);
        }
    }
    out
}

} // verus!
