//! Deterministic binary codec for all tack objects.
//!
//! All integers are **little-endian**. Variable-length quantities use unsigned
//! LEB128. The format itself is stated in [`codec`](crate::codec); this
//! module writes and reads it.
use vstd::prelude::*;
use vstd::string::*;
use vstd::utf8::*;

use crate::codec;
use crate::error;
use crate::error::{Error, ErrorV};
use crate::codec::Parsed;
use crate::hash::ObjectId;

verus! {

// ── Traits ───────────────────────────────────────────────────────────────────

/// Types that can be serialized into the tack canonical binary format.
pub trait Encode: View {
    /// The canonical encoding of a value.
    spec fn format(v: <Self as View>::V) -> Seq<u8>;

    /// Appends the canonical encoding of `self` to `encoder`.
    fn encode(&self, encoder: &mut Encoder)
        ensures
            final(encoder)@ == old(encoder)@ + Self::format(self@),
    ;
}

/// Types that can be deserialized from the tack canonical binary format.
pub trait Decode: Sized + View {
    /// Which value a byte string begins with.
    spec fn parse(s: Seq<u8>) -> Parsed<<Self as View>::V>;

    /// Reads `Self` from `decoder`, advancing the cursor.
    fn decode(decoder: &mut Decoder<'_>) -> (r: Result<Self, Error>)
        ensures
            error::outcome(r) == Self::parse(old(decoder).rest()).value,
            codec::leaves(Self::parse(old(decoder).rest()), old(decoder).rest(), final(decoder).rest()),
    ;
}

/// The views of the items, in order.
pub open spec fn views<T: View>(items: Seq<T>) -> Seq<T::V> {
    items.map_values(|x: T| x@)
}

/// The encoding of one item of a list.
pub open spec fn item_format<T: Encode>() -> spec_fn(<T as View>::V) -> Seq<u8> {
    |v: <T as View>::V| T::format(v)
}

/// The parse of one item of a list.
pub open spec fn item_parse<T: Decode>() -> spec_fn(Seq<u8>) -> Parsed<<T as View>::V> {
    |s: Seq<u8>| T::parse(s)
}

/// Appends the encodings of the items, without a count.
pub fn encode_many<T: Encode>(items: &[T], encoder: &mut Encoder)
    ensures
        final(encoder)@ == old(encoder)@ + codec::enc_many(views(items@), item_format::<T>()),
{
    let mut i: usize = 0;
    while i < items.len()
        invariant
            i <= items@.len(),
            encoder@ == old(encoder)@ + codec::enc_many(
                views(items@.take(i as int)),
                item_format::<T>(),
            ),
        decreases items.len() - i,
    {
        items[i].encode(encoder);
        proof {
            let next = views(items@.take(i + 1));
            assert(next.drop_last() =~= views(items@.take(i as int)));
            assert(next.last() == items@[i as int]@);
            assert(encoder@ =~= old(encoder)@ + codec::enc_many(next, item_format::<T>()));
        }
        i += 1;
    }
    assert(items@.take(i as int) =~= items@);
}

/// Appends a count and the encodings of the items.
pub fn encode_list<T: Encode>(items: &[T], encoder: &mut Encoder)
    ensures
        final(encoder)@ == old(encoder)@ + codec::enc_list(views(items@), item_format::<T>()),
{
    proof {
        reveal(codec::enc_list);
    }
    encoder.array_len(items.len());
    encode_many(items, encoder);
    assert(encoder@ =~= old(encoder)@ + codec::enc_list(views(items@), item_format::<T>()));
}

/// Reads a count and that many items.
pub fn decode_list<T: Decode>(decoder: &mut Decoder<'_>) -> (r: Result<Vec<T>, Error>)
    ensures
        match r {
            Ok(items) => codec::parse_list(old(decoder).rest(), item_parse::<T>()).value == Ok::<
                Seq<<T as View>::V>,
                ErrorV,
            >(views(items@)),
            Err(e) => codec::parse_list(old(decoder).rest(), item_parse::<T>()).value == Err::<
                Seq<<T as View>::V>,
                ErrorV,
            >(e@),
        },
        codec::leaves(
            codec::parse_list(old(decoder).rest(), item_parse::<T>()),
            old(decoder).rest(),
            final(decoder).rest(),
        ),
{
    proof {
        reveal(codec::parse_list);
    }
    let ghost all = decoder.rest();
    let count = match decoder.array_len() {
        Ok(n) => n,
        Err(e) => {
            return Err(e);
        },
    };
    let ghost head = codec::parse_count(all).used;
    let ghost body = decoder.rest();
    let ghost one = item_parse::<T>();
    let mut items: Vec<T> = Vec::with_capacity(decoder.reserve_hint(count));
    let mut i: usize = 0;
    proof {
        assert(views(items@) =~= seq![]);
        assert(body.skip(0) =~= body);
    }
    while i < count
        invariant
            i <= count,
            all == old(decoder).rest(),
            codec::parse_count(all) == codec::done(count, head),
            head <= all.len(),
            body == all.skip(head as int),
            one == item_parse::<T>(),
            codec::parse_many(body, i as nat, one).value == Ok::<Seq<<T as View>::V>, ErrorV>(
                views(items@),
            ),
            codec::leaves(codec::parse_many(body, i as nat, one), body, decoder.rest()),
        decreases count - i,
    {
        let ghost sofar = codec::parse_many(body, i as nat, one);
        let ghost here = decoder.rest();
        let item = T::decode(decoder);
        proof {
            let next = codec::parse_many(body, (i + 1) as nat, one);
            assert(body.skip(sofar.used as int).skip(T::parse(here).used as int) =~= body.skip(
                next.used as int,
            ));
            assert(all.skip(head as int).skip(next.used as int) =~= all.skip(
                (head + next.used) as int,
            ));
        }
        match item {
            Ok(x) => {
                let ghost was = items@;
                items.push(x);
                assert(views(items@) =~= views(was).push(x@));
            },
            Err(e) => {
                proof {
                    reveal(codec::parse_list);
                    codec::lemma_parse_many_fails(body, (i + 1) as nat, count as nat, one);
                }
                return Err(e);
            },
        }
        i += 1;
    }
    proof {
        let many = codec::parse_many(body, count as nat, one);
        assert(all.skip(head as int).skip(many.used as int) =~= all.skip(
            (head + many.used) as int,
        ));
    }
    Ok(items)
}

// ── Encoder ──────────────────────────────────────────────────────────────────

/// A write-only byte buffer for constructing canonical object encodings.
#[derive(Debug)]
pub struct Encoder {
    buffer: Vec<u8>,
}

impl View for Encoder {
    type V = Seq<u8>;

    closed spec fn view(&self) -> Seq<u8> {
        self.buffer@
    }
}

impl Default for Encoder {
    fn default() -> (r: Self)
        ensures
            r@ == Seq::<u8>::empty(),
    {
        Encoder { buffer: Vec::new() }
    }
}

impl Encoder {
    /// Creates a new, empty encoder.
    pub fn new() -> (r: Self)
        ensures
            r@ == Seq::<u8>::empty(),
    {
        Encoder { buffer: Vec::new() }
    }

    /// Creates an encoder with a pre-allocated capacity hint.
    pub fn with_capacity(capacity: usize) -> (r: Self)
        ensures
            r@ == Seq::<u8>::empty(),
    {
        Encoder { buffer: Vec::with_capacity(capacity) }
    }

    /// Consumes the encoder and returns the accumulated bytes.
    pub fn into_bytes(self) -> (r: Vec<u8>)
        ensures
            r@ == self@,
    {
        self.buffer
    }

    /// Returns a view of the accumulated bytes without consuming the encoder.
    pub fn as_bytes(&self) -> (r: &[u8])
        ensures
            r@ == self@,
    {
        self.buffer.as_slice()
    }

    /// Writes a single `u8`.
    pub fn u8(&mut self, value: u8)
        ensures
            final(self)@ == old(self)@.push(value),
    {
        self.buffer.push(value);
    }

    /// Writes the `n` low bytes of `value`, the lowest first.
    fn low_bytes(&mut self, value: u64, n: usize)
        ensures
            final(self)@ == old(self)@ + codec::le_bytes(value as nat, n as nat),
        decreases n,
    {
        if n > 0 {
            self.buffer.push((value % 256) as u8);
            self.low_bytes(value / 256, n - 1);
        }
        assert(self@ =~= old(self)@ + codec::le_bytes(value as nat, n as nat));
    }

    /// Writes a `u32` as 4 little-endian bytes.
    pub fn u32(&mut self, value: u32)
        ensures
            final(self)@ == old(self)@ + codec::enc_u32(value),
    {
        self.low_bytes(value as u64, 4);
    }

    /// Writes a `u64` as 8 little-endian bytes.
    pub fn u64(&mut self, value: u64)
        ensures
            final(self)@ == old(self)@ + codec::enc_u64(value),
    {
        self.low_bytes(value, 8);
    }

    /// Writes an `i64` as 8 little-endian bytes.
    pub fn i64(&mut self, value: i64)
        ensures
            final(self)@ == old(self)@ + codec::enc_i64(value),
    {
        let bits: u64 = value as u64;
        assert(value >= 0 ==> bits == value) by (bit_vector)
            requires
                bits == value as u64,
        ;
        assert(value < 0 ==> bits == value + 0x1_0000_0000_0000_0000) by (bit_vector)
            requires
                bits == value as u64,
        ;
        self.low_bytes(bits, 8);
    }

    /// Writes an `i32` as 4 little-endian bytes.
    pub fn i32(&mut self, value: i32)
        ensures
            final(self)@ == old(self)@ + codec::enc_i32(value),
    {
        let bits: u32 = value as u32;
        assert(value >= 0 ==> bits == value) by (bit_vector)
            requires
                bits == value as u32,
        ;
        assert(value < 0 ==> bits == value + 0x1_0000_0000) by (bit_vector)
            requires
                bits == value as u32,
        ;
        self.low_bytes(bits as u64, 4);
    }

    /// Writes a `u64` as unsigned LEB128 (variable-length encoding).
    pub fn varint(&mut self, value: u64)
        ensures
            final(self)@ == old(self)@ + codec::leb128(value as nat),
    {
        let mut rest: u64 = value;
        while rest >= 128
            invariant
                self@ + codec::leb128(rest as nat) == old(self)@ + codec::leb128(value as nat),
            decreases rest,
        {
            let ghost before = self@;
            let ghost was = rest;
            self.buffer.push((128 + rest % 128) as u8);
            rest = rest / 128;
            assert(self@ + codec::leb128(rest as nat) =~= before + codec::leb128(was as nat));
        }
        self.buffer.push(rest as u8);
        assert(self@ =~= old(self)@ + codec::leb128(value as nat));
    }

    /// Writes a byte slice as a varint length followed by the raw bytes.
    pub fn bytes(&mut self, data: &[u8])
        ensures
            final(self)@ == old(self)@ + codec::enc_bytes(data@),
    {
        proof {
            reveal(codec::enc_bytes);
        }
        self.varint(data.len() as u64);
        self.bytes_raw(data);
        assert(self@ =~= old(self)@ + codec::enc_bytes(data@));
    }

    /// Writes a UTF-8 string as a varint length followed by the UTF-8 bytes.
    pub fn str(&mut self, value: &str)
        ensures
            final(self)@ == old(self)@ + codec::enc_text(value@),
    {
        proof {
            reveal(codec::enc_text);
        }
        self.bytes(value.as_bytes());
    }

    /// Writes an [`ObjectId`] as 32 raw bytes (no length prefix — fixed size).
    pub fn object_id(&mut self, id: &ObjectId)
        ensures
            final(self)@ == old(self)@ + id@,
    {
        self.bytes_raw(id.as_bytes().as_slice());
    }

    /// Writes an array length as a varint.
    ///
    /// Call this before encoding each element of the array.
    pub fn array_len(&mut self, count: usize)
        ensures
            final(self)@ == old(self)@ + codec::leb128(count as nat),
    {
        self.varint(count as u64);
    }

    /// Writes raw bytes directly, without a length prefix.
    pub fn bytes_raw(&mut self, data: &[u8])
        ensures
            final(self)@ == old(self)@ + data@,
    {
        self.buffer.extend_from_slice(data);
        assert(self@ =~= old(self)@ + data@);
    }
}

// ── Decoder ──────────────────────────────────────────────────────────────────

/// `std::str::from_utf8`: succeeds exactly on well-formed UTF-8, and then gives
/// the text that the bytes encode.
#[verifier::external_body]
fn utf8_text<'a>(raw: &'a [u8]) -> (r: Option<&'a str>)
    ensures
        match r {
            Some(s) => valid_utf8(raw@) && s@ == decode_utf8(raw@),
            None => !valid_utf8(raw@),
        },
{
    std::str::from_utf8(raw).ok()
}

/// A read-only cursor over a byte slice for decoding canonical object
/// encodings.
///
/// After reading all expected fields, call [`Decoder::finish`] to make sure
/// that no trailing bytes remain.
#[derive(Debug)]
pub struct Decoder<'a> {
    data: &'a [u8],
    cursor: usize,
}

impl<'a> Decoder<'a> {
    #[verifier::type_invariant]
    spec fn in_bounds(&self) -> bool {
        self.cursor <= self.data@.len()
    }

    /// The bytes that have not been read yet.
    pub closed spec fn rest(&self) -> Seq<u8> {
        self.data@.skip(self.cursor as int)
    }

    /// Creates a new decoder over the given byte slice.
    pub fn new(data: &'a [u8]) -> (r: Self)
        ensures
            r.rest() == data@,
    {
        let r = Decoder { data, cursor: 0 };
        assert(r.rest() =~= data@);
        r
    }

    /// Returns the number of bytes remaining to be read.
    pub fn remaining(&self) -> (r: usize)
        ensures
            r == self.rest().len(),
    {
        proof {
            use_type_invariant(self);
        }
        self.data.len() - self.cursor
    }

    /// Reads exactly `n` bytes from the buffer, advancing the cursor.
    fn read_bytes_raw(&mut self, n: usize) -> (r: Result<&'a [u8], Error>)
        ensures
            error::outcome(r) == codec::parse_raw(old(self).rest(), n as nat).value,
            codec::leaves(codec::parse_raw(old(self).rest(), n as nat), old(self).rest(), final(self).rest()),
    {
        proof {
            use_type_invariant(&*self);
        }
        let data: &'a [u8] = self.data;
        let start: usize = self.cursor;
        if n > data.len() - start {
            assert(self.rest().skip(0) =~= self.rest());
            return Err(Error::Truncated);
        }
        let end: usize = start + n;
        let slice = vstd::slice::slice_subrange(data, start, end);
        self.cursor = end;
        assert(slice@ =~= data@.skip(start as int).take(n as int));
        assert(self.rest() =~= data@.skip(start as int).skip(n as int));
        Ok(slice)
    }

    /// Reads a single `u8`.
    pub fn u8(&mut self) -> (r: Result<u8, Error>)
        ensures
            error::outcome(r) == codec::parse_u8(old(self).rest()).value,
            codec::leaves(codec::parse_u8(old(self).rest()), old(self).rest(), final(self).rest()),
    {
        match self.read_bytes_raw(1) {
            Ok(slice) => Ok(slice[0]),
            Err(e) => Err(e),
        }
    }

    /// The number whose bytes, the lowest first, are `slice`.
    fn number(slice: &[u8]) -> (r: u64)
        requires
            slice@.len() <= 8,
        ensures
            r == codec::le_value(slice@),
    {
        let mut i: usize = slice.len();
        let mut value: u64 = 0;
        proof {
            assert(slice@.skip(i as int) =~= Seq::<u8>::empty());
        }
        while i > 0
            invariant
                i <= slice@.len() <= 8,
                value == codec::le_value(slice@.skip(i as int)),
            decreases i,
        {
            proof {
                codec::lemma_le_bound(slice@.skip(i - 1));
                lemma_pow_small((8 - (i - 1)) as nat, 8);
                lemma_pow_small(slice@.skip(i - 1).len(), 8);
                codec::lemma_pow256();
                assert(slice@.skip(i - 1).skip(1) =~= slice@.skip(i as int));
                assert(slice@.skip(i - 1)[0] == slice@[i - 1]);
            }
            i -= 1;
            value = slice[i] as u64 + 256 * value;
        }
        assert(slice@.skip(0) =~= slice@);
        value
    }

    /// Reads a `u32` from 4 little-endian bytes.
    pub fn u32(&mut self) -> (r: Result<u32, Error>)
        ensures
            error::outcome(r) == codec::parse_u32(old(self).rest()).value,
            codec::leaves(codec::parse_u32(old(self).rest()), old(self).rest(), final(self).rest()),
    {
        match self.read_bytes_raw(4) {
            Ok(slice) => {
                proof {
                    codec::lemma_le_bound(slice@);
                    codec::lemma_pow256();
                }
                Ok(Self::number(slice) as u32)
            },
            Err(e) => Err(e),
        }
    }

    /// Reads a `u64` from 8 little-endian bytes.
    pub fn u64(&mut self) -> (r: Result<u64, Error>)
        ensures
            error::outcome(r) == codec::parse_u64(old(self).rest()).value,
            codec::leaves(codec::parse_u64(old(self).rest()), old(self).rest(), final(self).rest()),
    {
        match self.read_bytes_raw(8) {
            Ok(slice) => {
                proof {
                    codec::lemma_le_bound(slice@);
                    codec::lemma_pow256();
                }
                Ok(Self::number(slice))
            },
            Err(e) => Err(e),
        }
    }

    /// Reads an `i64` from 8 little-endian bytes.
    pub fn i64(&mut self) -> (r: Result<i64, Error>)
        ensures
            error::outcome(r) == codec::parse_i64(old(self).rest()).value,
            codec::leaves(codec::parse_i64(old(self).rest()), old(self).rest(), final(self).rest()),
    {
        match self.u64() {
            Ok(bits) => {
                let value: i64 = bits as i64;
                assert(bits < 0x8000_0000_0000_0000 ==> value == bits) by (bit_vector)
                    requires
                        value == bits as i64,
                ;
                assert(bits >= 0x8000_0000_0000_0000 ==> value == bits
                    - 0x1_0000_0000_0000_0000) by (bit_vector)
                    requires
                        value == bits as i64,
                ;
                proof {
                    codec::lemma_le_bound(old(self).rest().take(8));
                    codec::lemma_pow256();
                }
                Ok(value)
            },
            Err(e) => Err(e),
        }
    }

    /// Reads an `i32` from 4 little-endian bytes.
    pub fn i32(&mut self) -> (r: Result<i32, Error>)
        ensures
            error::outcome(r) == codec::parse_i32(old(self).rest()).value,
            codec::leaves(codec::parse_i32(old(self).rest()), old(self).rest(), final(self).rest()),
    {
        match self.u32() {
            Ok(bits) => {
                let value: i32 = bits as i32;
                assert(bits < 0x8000_0000 ==> value == bits) by (bit_vector)
                    requires
                        value == bits as i32,
                ;
                assert(bits >= 0x8000_0000 ==> value == bits - 0x1_0000_0000) by (bit_vector)
                    requires
                        value == bits as i32,
                ;
                proof {
                    codec::lemma_le_bound(old(self).rest().take(4));
                    codec::lemma_pow256();
                }
                Ok(value)
            },
            Err(e) => Err(e),
        }
    }

    /// Reads a `u64` encoded as unsigned LEB128.
    ///
    /// More than 10 bytes cannot be read, and bits beyond the 64th are dropped.
    pub fn varint(&mut self) -> (r: Result<u64, Error>)
        ensures
            error::outcome(r) == codec::parse_varint(old(self).rest()).value,
            codec::leaves(codec::parse_varint(old(self).rest()), old(self).rest(), final(self).rest()),
    {
        let ghost all = self.rest();
        let mut result: u64 = 0;
        let mut factor: u64 = 1;
        let mut i: usize = 0;
        proof {
            codec::lemma_pow128();
            assert(all.skip(0) =~= all);
        }
        while i < 10
            invariant
                i <= 10,
                i <= all.len(),
                all == old(self).rest(),
                self.rest() == all.skip(i as int),
                i < 10 ==> factor == codec::pow128(i as nat) && result < codec::pow128(i as nat),
                codec::varint_from(all, i as nat, result as nat) == codec::parse_varint(all) || i == 10,
                i == 10 ==> codec::parse_varint(all) == codec::failed::<u64>(ErrorV::OverlongVarint, 10),
            decreases 10 - i,
        {
            proof {
                codec::lemma_pow128();
            }
            let byte = match self.u8() {
                Ok(b) => b,
                Err(e) => {
                    assert(self.rest() =~= all.skip(i as int));
                    return Err(e);
                },
            };
            assert(byte == all[i as int]);
            assert(self.rest() =~= all.skip(i + 1));
            let low: u64 = (byte % 128) as u64;
            if i < 9 {
                assert(low * factor <= 127 * factor) by (nonlinear_arith)
                    requires
                        low <= 127,
                ;
                assert(low * factor >= 0) by (nonlinear_arith);
                result = result + low * factor;
                if byte < 128 {
                    return Ok(result);
                }
                factor = factor * 128;
            } else {
                let ghost full: nat = result as nat + low as nat * codec::pow128(9);
                let kept: u64 = result + (low % 2) * factor;
                assert(full % 0x1_0000_0000_0000_0000 == kept) by {
                    let half = (low / 2) as int;
                    assert(full == kept + half * 0x1_0000_0000_0000_0000);
                    vstd::arithmetic::div_mod::lemma_mod_multiples_vanish(
                        half,
                        kept as int,
                        0x1_0000_0000_0000_0000,
                    );
                    vstd::arithmetic::div_mod::lemma_small_mod(
                        kept as nat,
                        0x1_0000_0000_0000_0000,
                    );
                }
                if byte < 128 {
                    return Ok(kept);
                }
                assert(codec::varint_from(all, 10, full) == codec::failed::<u64>(ErrorV::OverlongVarint, 10));
            }
            i += 1;
        }
        Err(Error::OverlongVarint)
    }

    /// Reads a varint-prefixed byte slice.
    pub fn bytes(&mut self) -> (r: Result<&'a [u8], Error>)
        ensures
            error::outcome(r) == codec::parse_bytes(old(self).rest()).value,
            codec::leaves(codec::parse_bytes(old(self).rest()), old(self).rest(), final(self).rest()),
    {
        proof {
            reveal(codec::parse_bytes);
        }
        let ghost all = self.rest();
        let len = match self.varint() {
            Ok(n) => n,
            Err(e) => {
                return Err(e);
            },
        };
        if len > usize::MAX as u64 {
            return Err(Error::Corruption("byte-string length overflows usize".to_owned()));
        }
        let r = self.read_bytes_raw(len as usize);
        proof {
            let first = codec::parse_varint(all);
            let second = codec::parse_raw(all.skip(first.used as int), len as nat);
            assert(all.skip(first.used as int).skip(second.used as int) =~= all.skip(
                (first.used + second.used) as int,
            ));
        }
        r
    }

    /// Reads a varint-prefixed UTF-8 string.
    pub fn str(&mut self) -> (r: Result<&'a str, Error>)
        ensures
            error::outcome(r) == codec::parse_text(old(self).rest()).value,
            codec::leaves(codec::parse_text(old(self).rest()), old(self).rest(), final(self).rest()),
    {
        proof {
            reveal(codec::parse_text);
        }
        match self.bytes() {
            Ok(raw) => match utf8_text(raw) {
                Some(s) => Ok(s),
                None => Err(Error::Corruption("invalid utf-8 in string".to_owned())),
            },
            Err(e) => Err(e),
        }
    }

    /// Reads a fixed 32-byte [`ObjectId`] (no length prefix).
    pub fn object_id(&mut self) -> (r: Result<ObjectId, Error>)
        ensures
            error::outcome(r) == codec::parse_id(old(self).rest()).value,
            codec::leaves(codec::parse_id(old(self).rest()), old(self).rest(), final(self).rest()),
    {
        match self.read_bytes_raw(32) {
            Ok(slice) => {
                let mut array: [u8; 32] = [0u8; 32];
                let mut i: usize = 0;
                while i < 32
                    invariant
                        i <= 32,
                        slice@.len() == 32,
                        forall|k: int| 0 <= k < i ==> array@[k] == slice@[k],
                    decreases 32 - i,
                {
                    array[i] = slice[i];
                    i += 1;
                }
                assert(array@ =~= slice@);
                Ok(ObjectId::from_bytes(array))
            },
            Err(e) => Err(e),
        }
    }

    /// Reads an array length varint.
    pub fn array_len(&mut self) -> (r: Result<usize, Error>)
        ensures
            error::outcome(r) == codec::parse_count(old(self).rest()).value,
            codec::leaves(codec::parse_count(old(self).rest()), old(self).rest(), final(self).rest()),
    {
        proof {
            reveal(codec::parse_count);
        }
        match self.varint() {
            Ok(n) => {
                if n > usize::MAX as u64 {
                    Err(Error::Corruption("array length overflows usize".to_owned()))
                } else {
                    Ok(n as usize)
                }
            },
            Err(e) => Err(e),
        }
    }

    /// A pre-allocation hint for a decoded collection of `count` elements,
    /// bounded by the bytes still remaining.
    ///
    /// Every element encodes to at least one byte, so a corrupt length can
    /// never trigger a huge speculative allocation, while the decode loop still
    /// fails cleanly when the elements run out.
    pub(crate) fn reserve_hint(&self, count: usize) -> (r: usize)
        ensures
            r == if count <= self.rest().len() {
                count as int
            } else {
                self.rest().len() as int
            },
    {
        let remaining = self.remaining();
        if count <= remaining {
            count
        } else {
            remaining
        }
    }

    /// Returns the remaining (not-yet-read) bytes as a slice, and reads them.
    pub fn read_remaining(&mut self) -> (r: &'a [u8])
        ensures
            r@ == old(self).rest(),
            final(self).rest() == Seq::<u8>::empty(),
    {
        proof {
            use_type_invariant(&*self);
        }
        let data: &'a [u8] = self.data;
        let start: usize = self.cursor;
        let slice = vstd::slice::slice_subrange(data, start, data.len());
        self.cursor = data.len();
        assert(slice@ =~= data@.skip(start as int));
        assert(self.rest() =~= Seq::<u8>::empty());
        slice
    }

    /// Succeeds exactly if the entire input has been consumed.
    pub fn finish(&self) -> (r: Result<(), Error>)
        ensures
            match r {
                Ok(()) => self.rest().len() == 0,
                Err(e) => self.rest().len() > 0 && e@ == ErrorV::TrailingBytes,
            },
    {
        if self.remaining() > 0 {
            return Err(Error::TrailingBytes);
        }
        Ok(())
    }
}

/// Powers grow.
proof fn lemma_pow_small(a: nat, b: nat)
    requires
        a <= b,
    ensures
        crate::codec::pow256(a) <= crate::codec::pow256(b),
    decreases b,
{
    if a < b {
        lemma_pow_small(a, (b - 1) as nat);
        assert(crate::codec::pow256(b) >= crate::codec::pow256((b - 1) as nat));
    }
}

} // verus!
