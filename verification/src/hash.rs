//! Content-addressing primitives: [`ObjectId`], [`TypeTag`], and
//! [`hash_object`].
//!
//! Every object is named by `BLAKE3(TYPE_TAG_BYTE || canonical_encoding)`.
use vstd::prelude::*;
use vstd::string::*;

use crate::order;
use crate::error;
use crate::error::{Error, ErrorV};
use crate::order::{bytes_before, Ranked};
use crate::text::{chars_of, string_of};

verus! {

/// A 32-byte BLAKE3-256 content address.
///
/// Rendered as lowercase hex (64 chars); stored and compared as raw bytes. The
/// short form used in human output is the first 12 hex chars.
#[derive(Debug, Clone, Copy, Eq, Hash, PartialOrd, Ord)]
pub struct ObjectId([u8; 32]);

impl View for ObjectId {
    type V = Seq<u8>;

    closed spec fn view(&self) -> Seq<u8> {
        self.0@
    }
}

/// An id has 32 bytes.
pub broadcast proof fn lemma_id_len(id: ObjectId)
    ensures
        #[trigger] id@.len() == 32,
{
}

impl PartialEq for ObjectId {
    fn eq(&self, other: &ObjectId) -> (r: bool) {
        let mut i: usize = 0;
        while i < 32
            invariant
                i <= 32,
                forall|k: int| 0 <= k < i ==> self.0@[k] == other.0@[k],
            decreases 32 - i,
        {
            if self.0[i] != other.0[i] {
                return false;
            }
            i += 1;
        }
        assert(self.0@ =~= other.0@);
        true
    }
}

impl vstd::std_specs::cmp::PartialEqSpecImpl for ObjectId {
    open spec fn obeys_eq_spec() -> bool {
        true
    }

    open spec fn eq_spec(&self, other: &ObjectId) -> bool {
        self@ == other@
    }
}

impl Ranked for ObjectId {
    open spec fn rank(&self) -> Seq<int> {
        order::ints(self@)
    }

    fn precedes(&self, other: &Self) -> (r: bool) {
        bytes_before(self.0.as_slice(), other.0.as_slice())
    }
}

// ── hex ──────────────────────────────────────────────────────────────────────

/// The lowercase hex digit of `n`, for `n < 16`.
pub open spec fn hex_char(n: int) -> char {
    if n < 10 {
        (('0' as int) + n) as char
    } else {
        (('a' as int) + n - 10) as char
    }
}

/// The value of a hex digit of either case, or -1 for another character.
pub open spec fn hex_value(c: char) -> int {
    if '0' <= c <= '9' {
        c as int - '0' as int
    } else if 'a' <= c <= 'f' {
        c as int - 'a' as int + 10
    } else if 'A' <= c <= 'F' {
        c as int - 'A' as int + 10
    } else {
        -1
    }
}

/// The bytes as lowercase hex, two digits for each.
pub open spec fn hex_text(bytes: Seq<u8>) -> Seq<char> {
    Seq::new(
        2 * bytes.len(),
        |i: int|
            if i % 2 == 0 {
                hex_char(bytes[i / 2] as int / 16)
            } else {
                hex_char(bytes[i / 2] as int % 16)
            },
    )
}

/// Whether `s` is 64 hex digits of either case.
pub open spec fn is_hex_id(s: Seq<char>) -> bool {
    &&& s.len() == 64
    &&& forall|i: int| 0 <= i < 64 ==> #[trigger] hex_value(s[i]) >= 0
}

/// The bytes that 64 hex digits stand for.
pub open spec fn hex_bytes(s: Seq<char>) -> Seq<u8> {
    Seq::new(32, |i: int| (hex_value(s[2 * i]) * 16 + hex_value(s[2 * i + 1])) as u8)
}

/// The digit of a value is read back as that value.
pub proof fn lemma_hex_digit(n: int)
    requires
        0 <= n < 16,
    ensures
        hex_value(hex_char(n)) == n,
{
}

/// The lowercase hex of an id reads back as that id.
pub proof fn lemma_hex_round_trip(bytes: Seq<u8>)
    requires
        bytes.len() == 32,
    ensures
        is_hex_id(hex_text(bytes)),
        hex_bytes(hex_text(bytes)) == bytes,
{
    let s = hex_text(bytes);
    assert forall|i: int| 0 <= i < 64 implies #[trigger] hex_value(s[i]) >= 0 by {
        lemma_hex_digit(bytes[i / 2] as int / 16);
        lemma_hex_digit(bytes[i / 2] as int % 16);
    }
    assert forall|i: int| 0 <= i < 32 implies hex_bytes(s)[i] == bytes[i] by {
        lemma_hex_digit(bytes[i] as int / 16);
        lemma_hex_digit(bytes[i] as int % 16);
        assert((2 * i) / 2 == i);
        assert((2 * i + 1) / 2 == i);
        assert((2 * i + 1) % 2 == 1);
    }
    assert(hex_bytes(s) =~= bytes);
}

/// The lowercase hex digit of `n`.
fn hex_digit_char(n: u8) -> (r: char)
    requires
        n < 16,
    ensures
        r == hex_char(n as int),
{
    match n {
        0 => '0',
        1 => '1',
        2 => '2',
        3 => '3',
        4 => '4',
        5 => '5',
        6 => '6',
        7 => '7',
        8 => '8',
        9 => '9',
        10 => 'a',
        11 => 'b',
        12 => 'c',
        13 => 'd',
        14 => 'e',
        _ => 'f',
    }
}

/// Decodes a single hex digit, or reports `full_str` as no object id.
pub fn hex_digit(c: char, full_str: &str) -> (r: Result<u8, Error>)
    ensures
        match r {
            Ok(v) => v == hex_value(c) && v < 16,
            Err(e) => hex_value(c) == -1 && e@ == ErrorV::InvalidObjectId(full_str@),
        },
{
    if '0' <= c && c <= '9' {
        Ok((c as u32 - '0' as u32) as u8)
    } else if 'a' <= c && c <= 'f' {
        Ok((c as u32 - 'a' as u32) as u8 + 10)
    } else if 'A' <= c && c <= 'F' {
        Ok((c as u32 - 'A' as u32) as u8 + 10)
    } else {
        Err(Error::InvalidObjectId(full_str.to_owned()))
    }
}

impl ObjectId {
    /// Returns the raw 32-byte digest.
    pub fn as_bytes(&self) -> (r: &[u8; 32])
        ensures
            r@ == self@,
    {
        &self.0
    }

    /// Constructs an `ObjectId` from a raw 32-byte array.
    pub fn from_bytes(bytes: [u8; 32]) -> (r: Self)
        ensures
            r@ == bytes@,
    {
        Self(bytes)
    }

    /// Returns the 64 lowercase hex characters of the id.
    pub fn to_hex(&self) -> (r: String)
        ensures
            r@ == hex_text(self@),
    {
        let mut out = String::new();
        let mut i: usize = 0;
        while i < 32
            invariant
                i <= 32,
                out@ == hex_text(self@).take(2 * i),
            decreases 32 - i,
        {
            let b = self.0[i];
            out.push(hex_digit_char(b / 16));
            out.push(hex_digit_char(b % 16));
            proof {
                let full = hex_text(self@);
                assert((2 * i) / 2 == i);
                assert((2 * i + 1) / 2 == i);
                assert((2 * i + 1) % 2 == 1);
                assert(full.take(2 * (i + 1)) =~= full.take(2 * i).push(full[2 * i]).push(
                    full[2 * i + 1],
                ));
            }
            i += 1;
        }
        assert(hex_text(self@).take(64) =~= hex_text(self@));
        out
    }

    /// Returns the first 12 hex characters, suitable for human-facing output.
    pub fn short(&self) -> (r: String)
        ensures
            r@ == hex_text(self@).take(12),
    {
        let full = chars_of(self.to_hex().as_str());
        let r = string_of(&full, 0, 12);
        assert(full@.subrange(0, 12) =~= full@.take(12));
        r
    }

    /// Parses 64 hex digits of either case.
    pub fn from_str(s: &str) -> (r: Result<Self, Error>)
        ensures
            error::outcome(r) == (if is_hex_id(s@) {
                Ok(hex_bytes(s@))
            } else {
                Err(ErrorV::InvalidObjectId(s@))
            }),
    {
        let chars = chars_of(s);
        if chars.len() != 64 {
            return Err(Error::InvalidObjectId(s.to_owned()));
        }
        let mut bytes: [u8; 32] = [0u8; 32];
        let mut i: usize = 0;
        while i < 32
            invariant
                i <= 32,
                chars@ == s@,
                chars@.len() == 64,
                forall|k: int| 0 <= k < 2 * i ==> #[trigger] hex_value(s@[k]) >= 0,
                forall|k: int| 0 <= k < i ==> bytes@[k] == hex_bytes(s@)[k],
            decreases 32 - i,
        {
            let high = match hex_digit(chars[2 * i], s) {
                Ok(v) => v,
                Err(e) => {
                    assert(hex_value(s@[2 * i]) < 0);
                    return Err(e);
                },
            };
            let low = match hex_digit(chars[2 * i + 1], s) {
                Ok(v) => v,
                Err(e) => {
                    assert(hex_value(s@[2 * i + 1]) < 0);
                    return Err(e);
                },
            };
            bytes[i] = high * 16 + low;
            i += 1;
        }
        assert(bytes@ =~= hex_bytes(s@));
        Ok(Self(bytes))
    }
}

// ── TypeTag ──────────────────────────────────────────────────────────────────

/// Domain-separation tag prepended to every object before hashing, so that two
/// objects of different kinds with the same payload have different ids.
#[derive(Debug, Clone, Copy, PartialEq, Eq, Structural, Hash)]
pub enum TypeTag {
    /// A file-content blob (chunk-list). Tag byte `0x01`.
    Blob,
    /// A raw chunk of file bytes. Tag byte `0x02`.
    Chunk,
    /// A directory snapshot (sorted entries). Tag byte `0x03`.
    Tree,
    /// A working-copy or named-cut snapshot. Tag byte `0x04`.
    Snapshot,
    /// One entry in the operation log. Tag byte `0x05`.
    Op,
    /// The complete repo state at the end of an operation. Tag byte `0x06`.
    View,
}

/// The byte of a type tag.
pub open spec fn tag_byte(tag: TypeTag) -> u8 {
    match tag {
        TypeTag::Blob => 0x01,
        TypeTag::Chunk => 0x02,
        TypeTag::Tree => 0x03,
        TypeTag::Snapshot => 0x04,
        TypeTag::Op => 0x05,
        TypeTag::View => 0x06,
    }
}

impl TypeTag {
    /// Returns the tag byte.
    pub fn byte(self) -> (r: u8)
        ensures
            r == tag_byte(self),
    {
        match self {
            TypeTag::Blob => 0x01,
            TypeTag::Chunk => 0x02,
            TypeTag::Tree => 0x03,
            TypeTag::Snapshot => 0x04,
            TypeTag::Op => 0x05,
            TypeTag::View => 0x06,
        }
    }
}

/// Two kinds of object never share a tag byte.
pub proof fn lemma_tag_bytes_distinct(a: TypeTag, b: TypeTag)
    requires
        tag_byte(a) == tag_byte(b),
    ensures
        a == b,
{
}

// ── hash_object ──────────────────────────────────────────────────────────────

/// The BLAKE3-256 digest of a byte string.
pub uninterp spec fn blake3_digest(input: Seq<u8>) -> Seq<u8>;

/// `blake3::Hasher`: the digest after two updates is the BLAKE3 digest of the
/// two inputs one after the other.
#[verifier::external_body]
fn blake3_of_two(first: u8, second: &[u8]) -> (r: [u8; 32])
    ensures
        r@ == blake3_digest(seq![first] + second@),
{
    let mut hasher = blake3::Hasher::new();
    hasher.update(&[first]);
    hasher.update(second);
    let digest = hasher.finalize();
    *digest.as_bytes()
}

/// The content address of an object: the digest of its tag and its bytes.
pub open spec fn content_id(tag: TypeTag, canonical: Seq<u8>) -> Seq<u8> {
    blake3_digest(seq![tag_byte(tag)] + canonical)
}

/// Hashes an object: `BLAKE3(TYPE_TAG_BYTE || canonical_bytes)`.
pub fn hash_object(tag: TypeTag, canonical_bytes: &[u8]) -> (r: ObjectId)
    ensures
        r@ == content_id(tag, canonical_bytes@),
{
    ObjectId(blake3_of_two(tag.byte(), canonical_bytes))
}

// ── laws ─────────────────────────────────────────────────────────────────────

/// The digits of an id are those of `0123456789abcdef`, in this order; those of
/// `0123456789ABCDEF` are read as well, and nothing else is.
pub proof fn law_hex_digits(n: int, c: char)
    requires
        0 <= n < 16,
    ensures
        hex_char(n) == "0123456789abcdef"@[n],
        hex_value("0123456789abcdef"@[n]) == n,
        hex_value("0123456789ABCDEF"@[n]) == n,
        hex_value(c) >= 0 <==> "0123456789abcdef"@.contains(c) || "0123456789ABCDEF"@.contains(c),
{
    reveal_strlit("0123456789abcdef");
    reveal_strlit("0123456789ABCDEF");
    let low = "0123456789abcdef"@;
    let high = "0123456789ABCDEF"@;
    if '0' <= c <= '9' {
        assert(low[c as int - '0' as int] == c);
    } else if 'a' <= c <= 'f' {
        assert(low[c as int - 'a' as int + 10] == c);
    } else if 'A' <= c <= 'F' {
        assert(high[c as int - 'A' as int + 10] == c);
    }
}

/// An id is written with two digits to a byte, the high one first, and read from them; a text
/// that is no 64 digits long, or has another character, is no id.
pub proof fn law_hex_id(bytes: Seq<u8>, s: Seq<char>, i: int)
    ensures
        hex_text(bytes).len() == 2 * bytes.len(),
        0 <= i < bytes.len() ==> hex_value(hex_text(bytes)[2 * i]) * 16 + hex_value(
            hex_text(bytes)[2 * i + 1],
        ) == bytes[i],
        is_hex_id(s) && 0 <= i < 32 ==> hex_bytes(s).len() == 32 && hex_bytes(s)[i] == hex_value(
            s[2 * i],
        ) * 16 + hex_value(s[2 * i + 1]),
        s.len() != 64 ==> !is_hex_id(s),
        0 <= i < s.len() && hex_value(s[i]) < 0 ==> !is_hex_id(s),
{
    if 0 <= i < bytes.len() {
        lemma_hex_digit(bytes[i] as int / 16);
        lemma_hex_digit(bytes[i] as int % 16);
        assert((2 * i) / 2 == i);
        assert((2 * i + 1) / 2 == i);
        assert((2 * i + 1) % 2 == 1);
    }
    if is_hex_id(s) && 0 <= i < 32 {
        assert(hex_value(s[2 * i]) >= 0);
        assert(hex_value(s[2 * i + 1]) >= 0);
    }
}

} // verus!
