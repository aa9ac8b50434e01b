use tack::chunker::{chunk_ranges, AVG_CHUNK, MAX_CHUNK, MIN_CHUNK};

/// Deterministic pseudo-random byte generator (xorshift) so tests do not
/// depend on an RNG crate and stay reproducible.
fn pseudo_random(len: usize, seed: u64) -> Vec<u8> {
    let mut state = seed | 1;
    let mut out = Vec::with_capacity(len);
    for _ in 0..len {
        state ^= state << 13;
        state ^= state >> 7;
        state ^= state << 17;
        out.push((state & 0xff) as u8);
    }
    out
}

#[test]
fn empty_input_yields_no_ranges() {
    assert!(
        chunk_ranges(&[]).into_iter().next().is_none(),
        "empty input must yield zero ranges"
    );
}

#[test]
fn small_input_is_single_chunk() {
    let data = vec![7u8; MIN_CHUNK / 2];
    let ranges: Vec<_> = chunk_ranges(&data);
    assert_eq!(ranges.len(), 1, "sub-MIN_CHUNK input must be one chunk");
    assert_eq!(ranges[0], 0..data.len());
}

#[test]
fn exactly_min_chunk_is_single_chunk() {
    let data = vec![3u8; MIN_CHUNK];
    let ranges: Vec<_> = chunk_ranges(&data);
    assert_eq!(ranges.len(), 1);
    assert_eq!(ranges[0], 0..MIN_CHUNK);
}

#[test]
fn ranges_are_contiguous_and_cover_input() {
    let data = pseudo_random(5 * 1024 * 1024, 0x1234_5678);
    let ranges: Vec<_> = chunk_ranges(&data);
    assert!(ranges.len() > 1, "multi-MiB input should split into many chunks");

    let mut expected_start = 0usize;
    for range in &ranges {
        assert_eq!(range.start, expected_start, "ranges must be contiguous");
        assert!(range.end > range.start, "ranges must be non-empty");
        expected_start = range.end;
    }
    assert_eq!(expected_start, data.len(), "ranges must cover entire input");
}

#[test]
fn chunk_sizes_respect_max_bound() {
    let data = pseudo_random(2 * 1024 * 1024, 0xdead_beef);
    for range in chunk_ranges(&data) {
        assert!(
            range.end - range.start <= MAX_CHUNK,
            "no chunk may exceed MAX_CHUNK"
        );
    }
}

#[test]
fn chunking_is_deterministic() {
    let data = pseudo_random(1024 * 1024, 0xabcd);
    let first: Vec<_> = chunk_ranges(&data);
    let second: Vec<_> = chunk_ranges(&data);
    assert_eq!(first, second, "chunking must be deterministic for fixed input");
}

#[test]
fn consts_match_design_contract() {
    assert_eq!(MIN_CHUNK, 2 * 1024);
    assert_eq!(AVG_CHUNK, 8 * 1024);
    assert_eq!(MAX_CHUNK, 64 * 1024);
}
