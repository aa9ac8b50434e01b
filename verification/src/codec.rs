//! The canonical binary format, as mathematics.
//!
//! For every kind of value there is the byte string that stands for it, and a
//! parse of a byte string that says which value it begins with, how many bytes
//! that takes, or why there is none. All integers are little-endian; lengths
//! are unsigned LEB128.
use vstd::prelude::*;
use vstd::utf8::*;

use crate::error::ErrorV;

verus! {

/// The result of a parse: the value or the error, and the number of bytes that
/// were read for it.
pub struct Parsed<T> {
    pub value: Result<T, ErrorV>,
    pub used: nat,
}

/// A successful parse of `used` bytes.
pub open spec fn done<T>(value: T, used: nat) -> Parsed<T> {
    Parsed { value: Ok(value), used }
}

/// A parse that failed after reading `used` bytes.
pub open spec fn failed<T>(error: ErrorV, used: nat) -> Parsed<T> {
    Parsed { value: Err(error), used }
}

/// Continues with `next` behind the bytes that `first` read from `s`.
pub open spec fn chain<A, B>(
    first: Parsed<A>,
    s: Seq<u8>,
    next: spec_fn(A, Seq<u8>) -> Parsed<B>,
) -> Parsed<B> {
    match first.value {
        Ok(a) => {
            let second = next(a, s.skip(first.used as int));
            Parsed { value: second.value, used: first.used + second.used }
        },
        Err(e) => Parsed { value: Err(e), used: first.used },
    }
}

/// Replaces the value of a parse.
pub open spec fn mapped<A, B>(p: Parsed<A>, f: spec_fn(A) -> B) -> Parsed<B> {
    Parsed {
        value: match p.value {
            Ok(a) => Ok(f(a)),
            Err(e) => Err(e),
        },
        used: p.used,
    }
}

/// Skipping twice is skipping the sum.
pub broadcast proof fn lemma_skip_skip(s: Seq<u8>, a: int, b: int)
    requires
        0 <= a,
        0 <= b,
        a + b <= s.len(),
    ensures
        #[trigger] s.skip(a).skip(b) == s.skip(a + b),
{
    assert(s.skip(a).skip(b) =~= s.skip(a + b));
}

// ── fixed-width integers ─────────────────────────────────────────────────────

/// The `n` low bytes of `v`, the lowest first.
pub open spec fn le_bytes(v: nat, n: nat) -> Seq<u8>
    decreases n,
{
    if n == 0 {
        seq![]
    } else {
        seq![(v % 256) as u8] + le_bytes(v / 256, (n - 1) as nat)
    }
}

/// The number whose bytes, the lowest first, are `bytes`.
pub open spec fn le_value(bytes: Seq<u8>) -> nat
    decreases bytes.len(),
{
    if bytes.len() == 0 {
        0
    } else {
        bytes[0] as nat + 256 * le_value(bytes.skip(1))
    }
}

/// `256^n`.
pub open spec fn pow256(n: nat) -> nat
    decreases n,
{
    if n == 0 {
        1
    } else {
        256 * pow256((n - 1) as nat)
    }
}

/// `n` bytes hold every number below `256^n`.
pub proof fn lemma_le_round_trip(v: nat, n: nat)
    requires
        v < pow256(n),
    ensures
        le_bytes(v, n).len() == n,
        le_value(le_bytes(v, n)) == v,
    decreases n,
{
    if n > 0 {
        assert(v / 256 < pow256((n - 1) as nat));
        lemma_le_round_trip(v / 256, (n - 1) as nat);
        assert(le_bytes(v, n).skip(1) =~= le_bytes(v / 256, (n - 1) as nat));
    }
}

/// The number of bytes is `n` whatever the value.
pub proof fn lemma_le_len(v: nat, n: nat)
    ensures
        le_bytes(v, n).len() == n,
    decreases n,
{
    if n > 0 {
        lemma_le_len(v / 256, (n - 1) as nat);
    }
}

/// `n` bytes stand for a number below `256^n`.
pub proof fn lemma_le_bound(bytes: Seq<u8>)
    ensures
        le_value(bytes) < pow256(bytes.len()),
    decreases bytes.len(),
{
    if bytes.len() > 0 {
        lemma_le_bound(bytes.skip(1));
    }
}

/// The bounds of four and of eight bytes.
pub proof fn lemma_pow256()
    ensures
        pow256(4) == 0x1_0000_0000,
        pow256(8) == 0x1_0000_0000_0000_0000,
{
    reveal_with_fuel(pow256, 9);
}

/// The unsigned number with the same 64 bits as `v`.
pub open spec fn unsigned64(v: i64) -> nat {
    if v < 0 {
        (v + 0x1_0000_0000_0000_0000) as nat
    } else {
        v as nat
    }
}

/// The unsigned number with the same 32 bits as `v`.
pub open spec fn unsigned32(v: i32) -> nat {
    if v < 0 {
        (v + 0x1_0000_0000) as nat
    } else {
        v as nat
    }
}

/// The signed number with the same 64 bits as `v`.
pub open spec fn signed64(v: nat) -> i64 {
    if v >= 0x8000_0000_0000_0000 {
        (v - 0x1_0000_0000_0000_0000) as i64
    } else {
        v as i64
    }
}

/// The signed number with the same 32 bits as `v`.
pub open spec fn signed32(v: nat) -> i32 {
    if v >= 0x8000_0000 {
        (v - 0x1_0000_0000) as i32
    } else {
        v as i32
    }
}

pub open spec fn enc_u32(v: u32) -> Seq<u8> {
    le_bytes(v as nat, 4)
}

pub open spec fn enc_u64(v: u64) -> Seq<u8> {
    le_bytes(v as nat, 8)
}

pub open spec fn enc_i64(v: i64) -> Seq<u8> {
    le_bytes(unsigned64(v), 8)
}

pub open spec fn enc_i32(v: i32) -> Seq<u8> {
    le_bytes(unsigned32(v), 4)
}

/// The next `n` bytes.
pub open spec fn parse_raw(s: Seq<u8>, n: nat) -> Parsed<Seq<u8>> {
    if n <= s.len() {
        done(s.take(n as int), n)
    } else {
        failed(ErrorV::Truncated, 0)
    }
}

pub open spec fn parse_u8(s: Seq<u8>) -> Parsed<u8> {
    mapped(parse_raw(s, 1), |b: Seq<u8>| b[0])
}

pub open spec fn parse_u32(s: Seq<u8>) -> Parsed<u32> {
    mapped(parse_raw(s, 4), |b: Seq<u8>| le_value(b) as u32)
}

pub open spec fn parse_u64(s: Seq<u8>) -> Parsed<u64> {
    mapped(parse_raw(s, 8), |b: Seq<u8>| le_value(b) as u64)
}

pub open spec fn parse_i64(s: Seq<u8>) -> Parsed<i64> {
    mapped(parse_raw(s, 8), |b: Seq<u8>| signed64(le_value(b)))
}

pub open spec fn parse_i32(s: Seq<u8>) -> Parsed<i32> {
    mapped(parse_raw(s, 4), |b: Seq<u8>| signed32(le_value(b)))
}

/// The bytes of an id.
pub open spec fn parse_id(s: Seq<u8>) -> Parsed<Seq<u8>> {
    parse_raw(s, 32)
}

// ── variable-length integers ─────────────────────────────────────────────────

/// Unsigned LEB128: seven bits to a byte, the lowest first, with the high bit
/// set on all bytes but the last.
pub open spec fn leb128(n: nat) -> Seq<u8>
    decreases n,
{
    if n < 128 {
        seq![n as u8]
    } else {
        seq![(128 + n % 128) as u8] + leb128(n / 128)
    }
}

/// `128^n`.
pub open spec fn pow128(n: nat) -> nat
    decreases n,
{
    if n == 0 {
        1
    } else {
        128 * pow128((n - 1) as nat)
    }
}

/// Reads LEB128 from index `i` on, with `acc` read so far. At most ten bytes
/// are read, and of the number the low 64 bits are kept.
pub open spec fn varint_from(s: Seq<u8>, i: nat, acc: nat) -> Parsed<u64>
    decreases 10 - i,
{
    if i >= 10 {
        failed(ErrorV::OverlongVarint, 10)
    } else if i >= s.len() {
        failed(ErrorV::Truncated, i)
    } else {
        let next = acc + (s[i as int] as nat % 128) * pow128(i);
        if s[i as int] < 128 {
            done((next % 0x1_0000_0000_0000_0000) as u64, i + 1)
        } else {
            varint_from(s, i + 1, next)
        }
    }
}

pub open spec fn parse_varint(s: Seq<u8>) -> Parsed<u64> {
    varint_from(s, 0, 0)
}

/// The powers of 128 that a varint of ten bytes needs.
pub proof fn lemma_pow128()
    ensures
        pow128(0) == 1,
        pow128(1) == 0x80,
        pow128(2) == 0x4000,
        pow128(3) == 0x20_0000,
        pow128(4) == 0x1000_0000,
        pow128(5) == 0x8_0000_0000,
        pow128(6) == 0x400_0000_0000,
        pow128(7) == 0x2_0000_0000_0000,
        pow128(8) == 0x100_0000_0000_0000,
        pow128(9) == 0x8000_0000_0000_0000,
        pow128(10) == 0x40_0000_0000_0000_0000,
{
    reveal_with_fuel(pow128, 11);
}

proof fn lemma_varint_from(s: Seq<u8>, i: nat, acc: nat, n: nat)
    requires
        i < 10,
        acc + n * pow128(i) < 0x1_0000_0000_0000_0000,
        s.len() >= i + leb128(n).len(),
        s.subrange(i as int, (i + leb128(n).len()) as int) == leb128(n),
    ensures
        varint_from(s, i, acc) == done((acc + n * pow128(i)) as u64, i + leb128(n).len()),
    decreases n,
{
    let code = leb128(n);
    assert(s[i as int] == s.subrange(i as int, (i + code.len()) as int)[0]);
    if n >= 128 {
        let low = n % 128;
        let high = n / 128;
        assert(s[i as int] == (128 + low) as u8);
        assert(s[i as int] as nat % 128 == low);
        let next = acc + low * pow128(i);
        assert(n * pow128(i) == low * pow128(i) + high * pow128(i + 1)) by (nonlinear_arith)
            requires
                n == high * 128 + low,
                pow128(i + 1) == 128 * pow128(i),
        ;
        lemma_pow128();
        if i == 9 {
            assert(n * pow128(9) >= 128 * pow128(9)) by (nonlinear_arith)
                requires
                    n >= 128,
            ;
            assert(false);
        }
        assert(code.skip(1) =~= leb128(high));
        assert(s.subrange(i as int + 1, (i + 1 + leb128(high).len()) as int) =~= s.subrange(
            i as int,
            (i + code.len()) as int,
        ).skip(1));
        lemma_varint_from(s, i + 1, next, high);
    } else {
        assert(s[i as int] == n as u8);
        assert(code.len() == 1);
    }
}

/// Every 64-bit number reads back from its LEB128, whatever follows.
pub proof fn lemma_varint_round_trip(n: u64, tail: Seq<u8>)
    ensures
        parse_varint(leb128(n as nat) + tail) == done(n, leb128(n as nat).len()),
{
    let s = leb128(n as nat) + tail;
    assert(s.subrange(0, leb128(n as nat).len() as int) =~= leb128(n as nat));
    lemma_pow128();
    lemma_varint_from(s, 0, 0, n as nat);
}

/// LEB128 is never empty.
pub proof fn lemma_leb128_len(n: nat)
    ensures
        leb128(n).len() >= 1,
    decreases n,
{
    if n >= 128 {
        lemma_leb128_len(n / 128);
    }
}

// ── byte strings, texts, lists ───────────────────────────────────────────────

/// A length and that many bytes.
#[verifier::opaque]
pub open spec fn enc_bytes(data: Seq<u8>) -> Seq<u8> {
    leb128(data.len()) + data
}

/// A text as its UTF-8 bytes.
#[verifier::opaque]
pub open spec fn enc_text(s: Seq<char>) -> Seq<u8> {
    enc_bytes(encode_utf8(s))
}

#[verifier::opaque]
pub open spec fn parse_bytes(s: Seq<u8>) -> Parsed<Seq<u8>> {
    chain(
        parse_varint(s),
        s,
        |n: u64, rest: Seq<u8>|
            if n > usize::MAX {
                failed(ErrorV::Corruption("byte-string length overflows usize"@), 0)
            } else {
                parse_raw(rest, n as nat)
            },
    )
}

#[verifier::opaque]
pub open spec fn parse_text(s: Seq<u8>) -> Parsed<Seq<char>> {
    chain(
        parse_bytes(s),
        s,
        |raw: Seq<u8>, rest: Seq<u8>|
            if valid_utf8(raw) {
                done(decode_utf8(raw), 0)
            } else {
                failed(ErrorV::Corruption("invalid utf-8 in string"@), 0)
            },
    )
}

/// The number of elements of a list.
#[verifier::opaque]
pub open spec fn parse_count(s: Seq<u8>) -> Parsed<usize> {
    chain(
        parse_varint(s),
        s,
        |n: u64, rest: Seq<u8>|
            if n > usize::MAX {
                failed(ErrorV::Corruption("array length overflows usize"@), 0)
            } else {
                done(n as usize, 0)
            },
    )
}

/// `n` values, one after the other.
pub open spec fn parse_many<T>(
    s: Seq<u8>,
    n: nat,
    one: spec_fn(Seq<u8>) -> Parsed<T>,
) -> Parsed<Seq<T>>
    decreases n,
{
    if n == 0 {
        done(seq![], 0)
    } else {
        chain(
            parse_many(s, (n - 1) as nat, one),
            s,
            |items: Seq<T>, rest: Seq<u8>| mapped(one(rest), |x: T| items.push(x)),
        )
    }
}

/// A count and that many values.
#[verifier::opaque]
pub open spec fn parse_list<T>(s: Seq<u8>, one: spec_fn(Seq<u8>) -> Parsed<T>) -> Parsed<Seq<T>> {
    chain(parse_count(s), s, |n: usize, rest: Seq<u8>| parse_many(rest, n as nat, one))
}

/// The encodings of the items, one after the other.
pub open spec fn enc_many<T>(items: Seq<T>, one: spec_fn(T) -> Seq<u8>) -> Seq<u8>
    decreases items.len(),
{
    if items.len() == 0 {
        seq![]
    } else {
        enc_many(items.drop_last(), one) + one(items.last())
    }
}

/// A count and the encodings of the items.
#[verifier::opaque]
pub open spec fn enc_list<T>(items: Seq<T>, one: spec_fn(T) -> Seq<u8>) -> Seq<u8> {
    leb128(items.len()) + enc_many(items, one)
}

/// Once the values up to `i` cannot be read, more cannot be read either.
pub proof fn lemma_parse_many_fails<T>(
    s: Seq<u8>,
    i: nat,
    n: nat,
    one: spec_fn(Seq<u8>) -> Parsed<T>,
)
    requires
        i <= n,
        parse_many(s, i, one).value is Err,
    ensures
        parse_many(s, n, one) == parse_many(s, i, one),
    decreases n,
{
    if i < n {
        lemma_parse_many_fails(s, i, (n - 1) as nat, one);
    }
}

/// Whether `after` is what the parse `p` leaves of `before`.
pub open spec fn leaves<T>(p: Parsed<T>, before: Seq<u8>, after: Seq<u8>) -> bool {
    &&& p.used <= before.len()
    &&& after == before.skip(p.used as int)
}

// ── reading back what was written ────────────────────────────────────────────

/// Whether `one` reads `x` back from its encoding, whatever follows.
pub open spec fn reads_back<T>(
    x: T,
    enc: spec_fn(T) -> Seq<u8>,
    one: spec_fn(Seq<u8>) -> Parsed<T>,
) -> bool {
    forall|tail: Seq<u8>| one(#[trigger] (enc(x) + tail)) == done(x, enc(x).len())
}

pub proof fn lemma_raw_round_trip(data: Seq<u8>, tail: Seq<u8>)
    ensures
        parse_raw(data + tail, data.len()) == done(data, data.len()),
        (data + tail).skip(data.len() as int) == tail,
{
    assert((data + tail).take(data.len() as int) =~= data);
    assert((data + tail).skip(data.len() as int) =~= tail);
}

pub proof fn lemma_u32_round_trip(v: u32, tail: Seq<u8>)
    ensures
        parse_u32(enc_u32(v) + tail) == done(v, 4),
        enc_u32(v).len() == 4,
{
    lemma_pow256();
    lemma_le_round_trip(v as nat, 4);
    lemma_raw_round_trip(enc_u32(v), tail);
}

pub proof fn lemma_u64_round_trip(v: u64, tail: Seq<u8>)
    ensures
        parse_u64(enc_u64(v) + tail) == done(v, 8),
        enc_u64(v).len() == 8,
{
    lemma_pow256();
    lemma_le_round_trip(v as nat, 8);
    lemma_raw_round_trip(enc_u64(v), tail);
}

pub proof fn lemma_i64_round_trip(v: i64, tail: Seq<u8>)
    ensures
        parse_i64(enc_i64(v) + tail) == done(v, 8),
        enc_i64(v).len() == 8,
{
    lemma_pow256();
    lemma_le_round_trip(unsigned64(v), 8);
    lemma_raw_round_trip(enc_i64(v), tail);
}

pub proof fn lemma_i32_round_trip(v: i32, tail: Seq<u8>)
    ensures
        parse_i32(enc_i32(v) + tail) == done(v, 4),
        enc_i32(v).len() == 4,
{
    lemma_pow256();
    lemma_le_round_trip(unsigned32(v), 4);
    lemma_raw_round_trip(enc_i32(v), tail);
}

/// A byte string reads back, whatever follows.
pub proof fn lemma_bytes_round_trip(data: Seq<u8>, tail: Seq<u8>)
    requires
        data.len() <= usize::MAX,
    ensures
        parse_bytes(enc_bytes(data) + tail) == done(data, enc_bytes(data).len()),
{
    reveal(parse_bytes);
    reveal(enc_bytes);
    let n = data.len() as u64;
    let s = enc_bytes(data) + tail;
    assert(s =~= leb128(n as nat) + (data + tail));
    lemma_varint_round_trip(n, data + tail);
    assert(s.skip(leb128(n as nat).len() as int) =~= data + tail);
    lemma_raw_round_trip(data, tail);
}

/// A text reads back, whatever follows.
pub proof fn lemma_text_round_trip(s: Seq<char>, tail: Seq<u8>)
    requires
        encode_utf8(s).len() <= usize::MAX,
    ensures
        parse_text(enc_text(s) + tail) == done(s, enc_text(s).len()),
{
    reveal(parse_text);
    reveal(enc_text);
    lemma_bytes_round_trip(encode_utf8(s), tail);
    encode_utf8_valid_utf8(s);
    encode_utf8_decode_utf8(s);
}

/// A count reads back, whatever follows.
pub proof fn lemma_count_round_trip(n: nat, tail: Seq<u8>)
    requires
        n <= usize::MAX,
    ensures
        parse_count(leb128(n) + tail) == done(n as usize, leb128(n).len()),
        (leb128(n) + tail).skip(leb128(n).len() as int) == tail,
{
    reveal(parse_count);
    lemma_varint_round_trip(n as u64, tail);
    assert((leb128(n) + tail).skip(leb128(n).len() as int) =~= tail);
}

pub proof fn lemma_many_round_trip<T>(
    items: Seq<T>,
    enc: spec_fn(T) -> Seq<u8>,
    one: spec_fn(Seq<u8>) -> Parsed<T>,
    tail: Seq<u8>,
)
    requires
        forall|i: int| 0 <= i < items.len() ==> reads_back(#[trigger] items[i], enc, one),
    ensures
        parse_many(enc_many(items, enc) + tail, items.len(), one) == done(
            items,
            enc_many(items, enc).len(),
        ),
    decreases items.len(),
{
    if items.len() > 0 {
        let front = items.drop_last();
        let last = items.last();
        assert forall|i: int| 0 <= i < front.len() implies reads_back(
            #[trigger] front[i],
            enc,
            one,
        ) by {
            assert(reads_back(items[i], enc, one));
        }
        let s = enc_many(items, enc) + tail;
        assert(s =~= enc_many(front, enc) + (enc(last) + tail));
        lemma_many_round_trip(front, enc, one, enc(last) + tail);
        assert(s.skip(enc_many(front, enc).len() as int) =~= enc(last) + tail);
        assert(reads_back(items[items.len() - 1], enc, one));
        assert(one(enc(last) + tail) == done(last, enc(last).len()));
        assert(front.push(last) =~= items);
    } else {
        assert(items =~= seq![]);
    }
}

/// A list reads back if each of its items does, whatever follows.
pub proof fn lemma_list_round_trip<T>(
    items: Seq<T>,
    enc: spec_fn(T) -> Seq<u8>,
    one: spec_fn(Seq<u8>) -> Parsed<T>,
    tail: Seq<u8>,
)
    requires
        items.len() <= usize::MAX,
        forall|i: int| 0 <= i < items.len() ==> reads_back(#[trigger] items[i], enc, one),
    ensures
        parse_list(enc_list(items, enc) + tail, one) == done(items, enc_list(items, enc).len()),
{
    reveal(parse_list);
    reveal(enc_list);
    let s = enc_list(items, enc) + tail;
    assert(s =~= leb128(items.len()) + (enc_many(items, enc) + tail));
    lemma_count_round_trip(items.len(), enc_many(items, enc) + tail);
    lemma_many_round_trip(items, enc, one, tail);
}

} // verus!
