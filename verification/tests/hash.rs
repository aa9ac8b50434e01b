use tack::error::Error;
use tack::hash::{hash_object, ObjectId, TypeTag};

// ── ObjectId Display / FromStr round-trip ─────────────────────────────

#[test]
fn display_is_64_lowercase_hex_chars() {
    let id = ObjectId::from_bytes([0xab; 32]);
    let hex = id.to_hex();
    assert_eq!(hex.len(), 64, "expected 64 hex chars, got {}", hex.len());
    assert!(
        hex.chars()
            .all(|c| c.is_ascii_hexdigit() && !c.is_uppercase()),
        "expected lowercase hex, got: {hex}"
    );
}

#[test]
fn from_str_round_trips_display() -> Result<(), Error> {
    let original = ObjectId::from_bytes([0x1a; 32]);
    let hex = original.to_hex();
    let parsed = ObjectId::from_str(&hex)?;
    assert_eq!(original, parsed);
    Ok(())
}

#[test]
fn from_str_accepts_mixed_case() -> Result<(), Error> {
    // Our parser is case-insensitive; Display always emits lowercase.
    let upper = "AB".repeat(32);
    let id = ObjectId::from_str(&upper)?;
    let lower = "ab".repeat(32);
    let expected = ObjectId::from_str(&lower)?;
    assert_eq!(id, expected);
    Ok(())
}

#[test]
fn from_str_rejects_too_short() {
    let result = ObjectId::from_str("abc");
    assert!(
        matches!(result, Err(Error::InvalidObjectId(_))),
        "expected InvalidObjectId, got {result:?}"
    );
}

#[test]
fn from_str_rejects_too_long() {
    let long = "a".repeat(65);
    let result = ObjectId::from_str(&long);
    assert!(matches!(result, Err(Error::InvalidObjectId(_))));
}

#[test]
fn from_str_rejects_non_hex_chars() {
    // 63 valid chars + 1 invalid.
    let bad = format!("{}z", "a".repeat(63));
    let result = ObjectId::from_str(&bad);
    assert!(matches!(result, Err(Error::InvalidObjectId(_))));
}

#[test]
fn short_returns_first_12_hex_chars() {
    let id = ObjectId::from_bytes([0xde, 0xad, 0xbe, 0xef, 0xca, 0xfe, 0, 0, 0, 0, 0, 0, 0, 0, 0, 0, 0, 0, 0, 0, 0, 0, 0, 0, 0, 0, 0, 0, 0, 0, 0, 0]);
    let short = id.short();
    assert_eq!(short.len(), 12);
    assert_eq!(&short, "deadbeefcafe");
}

// ── TypeTag ──────────────────────────────────────────────────────────────

#[test]
fn type_tag_discriminants_match_design() {
    assert_eq!(TypeTag::Blob.byte(), 0x01);
    assert_eq!(TypeTag::Chunk.byte(), 0x02);
    assert_eq!(TypeTag::Tree.byte(), 0x03);
    assert_eq!(TypeTag::Snapshot.byte(), 0x04);
    assert_eq!(TypeTag::Op.byte(), 0x05);
    assert_eq!(TypeTag::View.byte(), 0x06);
}

// ── hash_object ──────────────────────────────────────────────────────────

#[test]
fn hash_object_is_deterministic() {
    let a = hash_object(TypeTag::Blob, b"hello");
    let b = hash_object(TypeTag::Blob, b"hello");
    assert_eq!(a, b);
}

#[test]
fn hash_object_differs_by_tag() {
    let payload = b"same payload";
    let blob_id = hash_object(TypeTag::Blob, payload);
    let chunk_id = hash_object(TypeTag::Chunk, payload);
    assert_ne!(
        blob_id, chunk_id,
        "different type tags must produce different IDs"
    );
}

#[test]
fn hash_object_differs_by_payload() {
    let a = hash_object(TypeTag::Blob, b"aaa");
    let b = hash_object(TypeTag::Blob, b"bbb");
    assert_ne!(a, b);
}

#[test]
fn hash_object_empty_payload_is_stable() {
    // Must not panic and must return a 32-byte id.
    let id = hash_object(TypeTag::Chunk, &[]);
    assert_eq!(id.as_bytes().len(), 32);
}

#[test]
fn hash_object_matches_manual_blake3() {
    let tag = TypeTag::Blob;
    let payload = b"tack test";
    let mut hasher = blake3::Hasher::new();
    hasher.update(&[tag.byte()]);
    hasher.update(payload);
    let expected: [u8; 32] = *hasher.finalize().as_bytes();
    let got = hash_object(tag, payload);
    assert_eq!(got.as_bytes(), &expected);
}
