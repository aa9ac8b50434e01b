use tack::encoding::{Decoder, Encoder};
use tack::error::Error;
use tack::hash::ObjectId;

// ── u8 ────────────────────────────────────────────────────────────────────

#[test]
fn u8_round_trips() -> Result<(), Error> {
    for v in [0u8, 1, 127, 128, 255] {
        let mut enc = Encoder::new();
        enc.u8(v);
        let bytes = enc.into_bytes();
        let mut dec = Decoder::new(&bytes);
        assert_eq!(dec.u8()?, v);
        dec.finish()?;
    }
    Ok(())
}

// ── u32 ───────────────────────────────────────────────────────────────────

#[test]
fn u32_round_trips() -> Result<(), Error> {
    for v in [0u32, 1, u32::MAX / 2, u32::MAX] {
        let mut enc = Encoder::new();
        enc.u32(v);
        let bytes = enc.into_bytes();
        let mut dec = Decoder::new(&bytes);
        assert_eq!(dec.u32()?, v);
        dec.finish()?;
    }
    Ok(())
}

// ── u64 ───────────────────────────────────────────────────────────────────

#[test]
fn u64_round_trips() -> Result<(), Error> {
    for v in [0u64, 1, u64::MAX / 2, u64::MAX] {
        let mut enc = Encoder::new();
        enc.u64(v);
        let bytes = enc.into_bytes();
        let mut dec = Decoder::new(&bytes);
        assert_eq!(dec.u64()?, v);
        dec.finish()?;
    }
    Ok(())
}

// ── i64 ───────────────────────────────────────────────────────────────────

#[test]
fn i64_round_trips() -> Result<(), Error> {
    for v in [0i64, 1, -1, i64::MIN, i64::MAX] {
        let mut enc = Encoder::new();
        enc.i64(v);
        let bytes = enc.into_bytes();
        let mut dec = Decoder::new(&bytes);
        assert_eq!(dec.i64()?, v);
        dec.finish()?;
    }
    Ok(())
}

// ── i32 ───────────────────────────────────────────────────────────────────

#[test]
fn i32_round_trips() -> Result<(), Error> {
    for v in [0i32, 1, -1, i32::MIN, i32::MAX] {
        let mut enc = Encoder::new();
        enc.i32(v);
        let bytes = enc.into_bytes();
        let mut dec = Decoder::new(&bytes);
        assert_eq!(dec.i32()?, v);
        dec.finish()?;
    }
    Ok(())
}

// ── varint LEB128 ─────────────────────────────────────────────────────────

#[test]
fn varint_boundary_values() -> Result<(), Error> {
    // 0: single byte 0x00
    // 127: single byte 0x7f (max single-byte value)
    // 128: two bytes 0x80 0x01
    // u64::MAX: 10 bytes
    for v in [0u64, 127, 128, u64::MAX] {
        let mut enc = Encoder::new();
        enc.varint(v);
        let bytes = enc.into_bytes();
        let mut dec = Decoder::new(&bytes);
        let got = dec.varint()?;
        dec.finish()?;
        assert_eq!(got, v, "varint round-trip failed for {v}");
    }
    Ok(())
}

#[test]
fn varint_single_byte_for_values_0_to_127() -> Result<(), Error> {
    for v in [0u64, 1, 63, 127] {
        let mut enc = Encoder::new();
        enc.varint(v);
        let bytes = enc.into_bytes();
        assert_eq!(bytes.len(), 1, "value {v} should encode to 1 byte");
        let mut dec = Decoder::new(&bytes);
        assert_eq!(dec.varint()?, v);
    }
    Ok(())
}

#[test]
fn varint_two_bytes_for_128() {
    let mut enc = Encoder::new();
    enc.varint(128);
    let bytes = enc.into_bytes();
    assert_eq!(bytes, [0x80, 0x01]);
}

// ── bytes ─────────────────────────────────────────────────────────────────

#[test]
fn bytes_round_trips() -> Result<(), Error> {
    for data in [b"".as_slice(), b"hello", b"\x00\xff\x80"] {
        let mut enc = Encoder::new();
        enc.bytes(data);
        let encoded = enc.into_bytes();
        let mut dec = Decoder::new(&encoded);
        assert_eq!(dec.bytes()?, data);
        dec.finish()?;
    }
    Ok(())
}

// ── str ───────────────────────────────────────────────────────────────────

#[test]
fn str_round_trips() -> Result<(), Error> {
    for s in ["", "hello", "unicode: \u{1F600}"] {
        let mut enc = Encoder::new();
        enc.str(s);
        let encoded = enc.into_bytes();
        let mut dec = Decoder::new(&encoded);
        assert_eq!(dec.str()?, s);
        dec.finish()?;
    }
    Ok(())
}

// ── ObjectId ──────────────────────────────────────────────────────────────

#[test]
fn object_id_round_trips() -> Result<(), Error> {
    let id = ObjectId::from_bytes([0xab; 32]);
    let mut enc = Encoder::new();
    enc.object_id(&id);
    let encoded = enc.into_bytes();
    assert_eq!(encoded.len(), 32, "ObjectId must encode to exactly 32 bytes");
    let mut dec = Decoder::new(&encoded);
    let got = dec.object_id()?;
    dec.finish()?;
    assert_eq!(got, id);
    Ok(())
}

// ── array_len ─────────────────────────────────────────────────────────────

#[test]
fn array_len_round_trips() -> Result<(), Error> {
    for count in [0usize, 1, 127, 128, 1024] {
        let mut enc = Encoder::new();
        enc.array_len(count);
        let encoded = enc.into_bytes();
        let mut dec = Decoder::new(&encoded);
        assert_eq!(dec.array_len()?, count);
        dec.finish()?;
    }
    Ok(())
}

// ── Decoder error cases ───────────────────────────────────────────────────

#[test]
fn decoder_errors_on_truncated_u8() {
    let mut dec = Decoder::new(&[]);
    assert!(
        matches!(dec.u8(), Err(Error::Truncated)),
        "expected Truncated on empty buffer"
    );
}

#[test]
fn decoder_errors_on_truncated_u32() {
    let mut dec = Decoder::new(&[0x01, 0x02]); // only 2 bytes instead of 4
    assert!(matches!(dec.u32(), Err(Error::Truncated)));
}

#[test]
fn decoder_errors_on_truncated_u64() {
    let mut dec = Decoder::new(&[0x01, 0x02, 0x03]); // only 3 bytes instead of 8
    assert!(matches!(dec.u64(), Err(Error::Truncated)));
}

#[test]
fn decoder_errors_on_truncated_varint() {
    // A continuation byte (high bit set) with nothing following.
    let mut dec = Decoder::new(&[0x80]);
    assert!(matches!(dec.varint(), Err(Error::Truncated)));
}

#[test]
fn decoder_errors_on_overlong_varint() {
    // 11 bytes total: 10 continuation bytes + 1 more — too many for a u64.
    let overlong: Vec<u8> = std::iter::repeat_n(0x80_u8, 10)
        .chain(std::iter::once(0x01_u8))
        .collect();
    let mut dec = Decoder::new(&overlong);
    assert!(
        matches!(dec.varint(), Err(Error::OverlongVarint)),
        "expected OverlongVarint"
    );
}

#[test]
fn decoder_errors_on_truncated_object_id() {
    let mut dec = Decoder::new(&[0u8; 16]); // only 16 bytes instead of 32
    assert!(matches!(dec.object_id(), Err(Error::Truncated)));
}

#[test]
fn finish_errors_on_trailing_bytes() {
    let mut enc = Encoder::new();
    enc.u8(42);
    enc.u8(99); // extra byte
    let bytes = enc.into_bytes();
    let mut dec = Decoder::new(&bytes);
    let _ = dec.u8().unwrap();
    // One byte remains.
    assert!(
        matches!(dec.finish(), Err(Error::TrailingBytes)),
        "expected TrailingBytes"
    );
}

#[test]
fn remaining_tracks_unread_bytes() -> Result<(), Error> {
    let mut enc = Encoder::new();
    enc.u8(1);
    enc.u32(2);
    let bytes = enc.into_bytes();
    let mut dec = Decoder::new(&bytes);
    assert_eq!(dec.remaining(), 5, "all 5 bytes are unread initially");
    dec.u8()?;
    assert_eq!(dec.remaining(), 4, "1 byte consumed");
    dec.u32()?;
    assert_eq!(dec.remaining(), 0, "all bytes consumed");
    Ok(())
}

#[test]
fn finish_succeeds_when_fully_consumed() -> Result<(), Error> {
    let mut enc = Encoder::new();
    enc.u32(1234);
    let bytes = enc.into_bytes();
    let mut dec = Decoder::new(&bytes);
    dec.u32()?;
    dec.finish()
}

// ── many u64 varint round-trips ────────────────────────────────────────────

#[test]
fn prop_varint_round_trips() {
    let mut value: u64 = 0x9e37_79b9_7f4a_7c15;
    for shift in 0..64 {
        for v in [value, value >> shift, 1u64 << shift, (1u64 << shift) - 1] {
            let mut enc = Encoder::new();
            enc.varint(v);
            let bytes = enc.into_bytes();
            let mut dec = Decoder::new(&bytes);
            let got = dec.varint().expect("varint decode should succeed");
            assert_eq!(got, v);
            dec.finish().expect("no trailing bytes expected");
        }
        value ^= value << 13;
        value ^= value >> 7;
        value ^= value << 17;
    }
}

// ── Multiple fields in sequence ───────────────────────────────────────────

#[test]
fn multiple_fields_in_sequence() -> Result<(), Error> {
    let mut enc = Encoder::new();
    enc.u8(7);
    enc.u32(0x0102_0304);
    enc.i64(-42);
    enc.str("tack");
    enc.varint(300);
    let id = ObjectId::from_bytes([0xcc; 32]);
    enc.object_id(&id);

    let bytes = enc.into_bytes();
    let mut dec = Decoder::new(&bytes);
    assert_eq!(dec.u8()?, 7);
    assert_eq!(dec.u32()?, 0x0102_0304);
    assert_eq!(dec.i64()?, -42);
    assert_eq!(dec.str()?, "tack");
    assert_eq!(dec.varint()?, 300);
    assert_eq!(dec.object_id()?, id);
    dec.finish()
}
