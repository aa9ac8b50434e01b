//! Text as sequences of characters: the small vocabulary of string operations
//! that the rest of the crate is written in.
//!
//! A `str` is modelled by its characters (`Seq<char>`), and by its UTF-8 bytes
//! where an order or an encoding depends on them.
use vstd::prelude::*;
use vstd::string::*;
use vstd::utf8::*;

verus! {

/// `String::push` appends one character.
pub assume_specification[ String::push ](s: &mut String, c: char)
    ensures
        final(s)@ == old(s)@.push(c),
;

/// The text that the `Debug` format of a `str` gives: quoted, with the
/// characters that need it escaped.
pub uninterp spec fn debug_text(s: Seq<char>) -> Seq<char>;

/// `format!("{:?}", s)` of std for a `str`: which characters are escaped, and
/// how, is left to std; the text is a function of the characters of `s`.
#[verifier::external_body]
pub(crate) fn debug_quote(s: &str) -> (r: String)
    ensures
        r@ == debug_text(s@),
{
    format!("{s:?}")
}

/// The characters of each string, in order.
pub open spec fn texts(v: Seq<String>) -> Seq<Seq<char>> {
    v.map_values(|s: String| s@)
}

/// Two strings have the same UTF-8 bytes exactly when they have the same
/// characters.
pub proof fn lemma_utf8_injective(a: Seq<char>, b: Seq<char>)
    requires
        encode_utf8(a) == encode_utf8(b),
    ensures
        a == b,
{
    encode_utf8_decode_utf8(a);
    encode_utf8_decode_utf8(b);
}

/// Whether `a` and `b` hold the same characters.
pub fn same_text(a: &str, b: &str) -> (r: bool)
    ensures
        r == (a@ == b@),
{
    let x = a.as_bytes();
    let y = b.as_bytes();
    if x.len() != y.len() {
        return false;
    }
    let mut i: usize = 0;
    while i < x.len()
        invariant
            i <= x.len(),
            x.len() == y.len(),
            x@ == encode_utf8(a@),
            y@ == encode_utf8(b@),
            forall|k: int| 0 <= k < i ==> x@[k] == y@[k],
        decreases x.len() - i,
    {
        if x[i] != y[i] {
            return false;
        }
        i += 1;
    }
    proof {
        assert(x@ =~= y@);
        lemma_utf8_injective(a@, b@);
    }
    true
}

/// The characters of `s` as a vector.
pub fn chars_of(s: &str) -> (r: Vec<char>)
    ensures
        r@ == s@,
{
    let mut out: Vec<char> = Vec::new();
    for c in it: s.chars()
        invariant
            it.seq() == s@,
            out@ == it.seq().take(it.index() as int),
    {
        out.push(c);
    }
    out
}

/// The string made of `chars[from..to]`.
pub fn string_of(chars: &[char], from: usize, to: usize) -> (r: String)
    requires
        from <= to <= chars@.len(),
    ensures
        r@ == chars@.subrange(from as int, to as int),
{
    let mut out = String::new();
    let mut i: usize = from;
    while i < to
        invariant
            from <= i <= to <= chars@.len(),
            out@ == chars@.subrange(from as int, i as int),
        decreases to - i,
    {
        out.push(chars[i]);
        i += 1;
        assert(chars@.subrange(from as int, i as int) =~= chars@.subrange(
            from as int,
            i - 1,
        ).push(chars@[i - 1]));
    }
    out
}

/// Appends the characters of `tail` to `s`.
pub fn append_text(s: &mut String, tail: &str)
    ensures
        final(s)@ == old(s)@ + tail@,
{
    s.append(tail);
}

/// A copy of every string of `v`.
pub fn copy_texts(v: &[String]) -> (r: Vec<String>)
    ensures
        r@ == v@,
{
    let mut out: Vec<String> = Vec::new();
    let mut i: usize = 0;
    while i < v.len()
        invariant
            i <= v.len(),
            out@ == v@.take(i as int),
        decreases v.len() - i,
    {
        out.push(v[i].clone());
        i += 1;
        assert(v@.take(i as int) =~= v@.take(i - 1).push(v@[i - 1]));
    }
    assert(v@.take(i as int) =~= v@);
    out
}

// ── white space ──────────────────────────────────────────────────────────────

/// The characters with the Unicode `White_Space` property.
pub open spec fn white(c: char) -> bool {
    ||| '\u{9}' <= c <= '\u{d}'
    ||| c == ' '
    ||| c == '\u{85}'
    ||| c == '\u{a0}'
    ||| c == '\u{1680}'
    ||| '\u{2000}' <= c <= '\u{200a}'
    ||| c == '\u{2028}'
    ||| c == '\u{2029}'
    ||| c == '\u{202f}'
    ||| c == '\u{205f}'
    ||| c == '\u{3000}'
}

/// Whether `c` is white space.
pub fn is_white(c: char) -> (r: bool)
    ensures
        r == white(c),
{
    ('\u{9}' <= c && c <= '\u{d}') || c == ' ' || c == '\u{85}' || c == '\u{a0}' || c == '\u{1680}'
        || ('\u{2000}' <= c && c <= '\u{200a}') || c == '\u{2028}' || c == '\u{2029}' || c
        == '\u{202f}' || c == '\u{205f}' || c == '\u{3000}'
}

/// `s` without its leading white space.
pub open spec fn trimmed_start(s: Seq<char>) -> Seq<char>
    decreases s.len(),
{
    if s.len() > 0 && white(s[0]) {
        trimmed_start(s.skip(1))
    } else {
        s
    }
}

/// `s` without its trailing white space.
pub open spec fn trimmed_end(s: Seq<char>) -> Seq<char>
    decreases s.len(),
{
    if s.len() > 0 && white(s.last()) {
        trimmed_end(s.drop_last())
    } else {
        s
    }
}

/// `s` without its leading and trailing white space.
pub open spec fn trimmed(s: Seq<char>) -> Seq<char> {
    trimmed_end(trimmed_start(s))
}

/// The index of the first character of `chars[from..to]` that is not white
/// space, or `to`.
pub fn skip_white(chars: &[char], from: usize, to: usize) -> (r: usize)
    requires
        from <= to <= chars@.len(),
    ensures
        from <= r <= to,
        chars@.subrange(r as int, to as int) == trimmed_start(
            chars@.subrange(from as int, to as int),
        ),
{
    let mut i: usize = from;
    while i < to && is_white(chars[i])
        invariant
            from <= i <= to <= chars@.len(),
            trimmed_start(chars@.subrange(i as int, to as int)) == trimmed_start(
                chars@.subrange(from as int, to as int),
            ),
        decreases to - i,
    {
        assert(chars@.subrange(i as int, to as int).skip(1) =~= chars@.subrange(
            i + 1,
            to as int,
        ));
        i += 1;
    }
    i
}

/// One past the last character of `chars[from..to]` that is not white space,
/// or `from`.
pub fn skip_white_back(chars: &[char], from: usize, to: usize) -> (r: usize)
    requires
        from <= to <= chars@.len(),
    ensures
        from <= r <= to,
        chars@.subrange(from as int, r as int) == trimmed_end(
            chars@.subrange(from as int, to as int),
        ),
{
    let mut i: usize = to;
    while i > from && is_white(chars[i - 1])
        invariant
            from <= i <= to <= chars@.len(),
            trimmed_end(chars@.subrange(from as int, i as int)) == trimmed_end(
                chars@.subrange(from as int, to as int),
            ),
        decreases i,
    {
        assert(chars@.subrange(from as int, i as int).drop_last() =~= chars@.subrange(
            from as int,
            i - 1,
        ));
        i -= 1;
    }
    i
}

/// A copy of `s` without its leading and trailing white space.
pub fn trim(s: &str) -> (r: String)
    ensures
        r@ == trimmed(s@),
{
    let chars = chars_of(s);
    let n: usize = chars.len();
    let from = skip_white(&chars, 0, n);
    let to = skip_white_back(&chars, from, n);
    assert(chars@.subrange(0, n as int) =~= s@);
    string_of(&chars, from, to)
}

// ── numbers ──────────────────────────────────────────────────────────────────

/// The decimal digit of `d`.
pub open spec fn digit(d: nat) -> char {
    (('0' as nat) + d) as char
}

/// The decimal digits of `n`, without leading zeros.
pub open spec fn decimal_text(n: nat) -> Seq<char>
    decreases n,
{
    if n < 10 {
        seq![digit(n)]
    } else {
        decimal_text(n / 10).push(digit(n % 10))
    }
}

/// The decimal digits of `n`, with a minus sign if it is negative.
pub open spec fn signed_text(n: int) -> Seq<char> {
    if n < 0 {
        seq!['-'] + decimal_text((-n) as nat)
    } else {
        decimal_text(n as nat)
    }
}

/// The character of the decimal digit `d`.
fn digit_char(d: u64) -> (r: char)
    requires
        d < 10,
    ensures
        r == digit(d as nat),
{
    match d {
        0 => '0',
        1 => '1',
        2 => '2',
        3 => '3',
        4 => '4',
        5 => '5',
        6 => '6',
        7 => '7',
        8 => '8',
        _ => '9',
    }
}

/// Appends the decimal digits of `n` to `out`.
pub fn append_decimal(out: &mut String, n: u64)
    ensures
        final(out)@ == old(out)@ + decimal_text(n as nat),
    decreases n,
{
    if n < 10 {
        out.push(digit_char(n));
        assert(out@ =~= old(out)@ + decimal_text(n as nat));
    } else {
        append_decimal(out, n / 10);
        out.push(digit_char(n % 10));
        assert(out@ =~= old(out)@ + decimal_text(n as nat));
    }
}

/// The decimal digits of `n`.
pub fn decimal(n: u64) -> (r: String)
    ensures
        r@ == decimal_text(n as nat),
{
    let mut out = String::new();
    append_decimal(&mut out, n);
    assert(out@ =~= decimal_text(n as nat));
    out
}

/// The decimal digits of `n`, with a minus sign if it is negative.
pub fn decimal_signed(n: i64) -> (r: String)
    ensures
        r@ == signed_text(n as int),
{
    let mut out = String::new();
    if n < 0 {
        out.push('-');
        let magnitude: u64 = (-(n + 1)) as u64 + 1;
        append_decimal(&mut out, magnitude);
        assert(out@ =~= signed_text(n as int));
    } else {
        append_decimal(&mut out, n as u64);
        assert(out@ =~= signed_text(n as int));
    }
    out
}

/// `s` followed by the spaces that bring it to `width` characters.
pub open spec fn padded(s: Seq<char>, width: nat) -> Seq<char>
    decreases width - s.len(),
{
    if s.len() < width {
        padded(s.push(' '), width)
    } else {
        s
    }
}

/// A copy of `s`, padded on the right with spaces to `width` characters.
pub fn pad(s: &str, width: usize) -> (r: String)
    ensures
        r@ == padded(s@, width as nat),
{
    let mut n: usize = s.unicode_len();
    let mut out = s.to_owned();
    while n < width
        invariant
            n == out@.len(),
            padded(out@, width as nat) == padded(s@, width as nat),
        decreases width - n,
    {
        out.push(' ');
        n += 1;
    }
    out
}

// ── searching ────────────────────────────────────────────────────────────────

/// Whether `needle` stands in `hay` at index `at`.
pub open spec fn occurs_at(hay: Seq<char>, needle: Seq<char>, at: int) -> bool {
    &&& 0 <= at
    &&& at + needle.len() <= hay.len()
    &&& hay.subrange(at, at + needle.len()) == needle
}

/// Whether `needle` is the beginning of `s`.
pub open spec fn begins_with(s: Seq<char>, needle: Seq<char>) -> bool {
    occurs_at(s, needle, 0)
}

/// Whether `needle` stands somewhere in `hay`.
pub open spec fn occurs_in(hay: Seq<char>, needle: Seq<char>) -> bool {
    exists|at: int| occurs_at(hay, needle, at)
}

/// Whether `needle` stands in `hay` at index `at`.
pub fn is_at(hay: &[char], needle: &[char], at: usize) -> (r: bool)
    requires
        at <= hay@.len(),
    ensures
        r == occurs_at(hay@, needle@, at as int),
{
    if needle.len() > hay.len() - at {
        return false;
    }
    let mut i: usize = 0;
    while i < needle.len()
        invariant
            i <= needle@.len(),
            at + needle@.len() <= hay.len(),
            forall|k: int| 0 <= k < i ==> hay@[at + k] == needle@[k],
        decreases needle.len() - i,
    {
        if hay[at + i] != needle[i] {
            assert(hay@.subrange(at as int, at + needle@.len())[i as int] != needle@[i as int]);
            return false;
        }
        i += 1;
    }
    assert(hay@.subrange(at as int, at + needle@.len()) =~= needle@);
    true
}

/// The first index at which `needle` stands in `hay`, if there is one.
pub fn find(hay: &[char], needle: &[char]) -> (r: Option<usize>)
    ensures
        match r {
            Some(at) => occurs_at(hay@, needle@, at as int) && forall|k: int|
                0 <= k < at ==> !occurs_at(hay@, needle@, k),
            None => !occurs_in(hay@, needle@),
        },
{
    let mut at: usize = 0;
    while at < hay.len()
        invariant
            at <= hay@.len(),
            forall|k: int| 0 <= k < at ==> !occurs_at(hay@, needle@, k),
        decreases hay.len() - at,
    {
        if is_at(hay, needle, at) {
            return Some(at);
        }
        at += 1;
    }
    if is_at(hay, needle, at) {
        return Some(at);
    }
    assert forall|k: int| !occurs_at(hay@, needle@, k) by {
        if 0 <= k <= hay@.len() {
        }
    }
    None
}

/// Whether `needle` is the beginning of `s`.
pub fn text_begins_with(s: &str, needle: &str) -> (r: bool)
    ensures
        r == begins_with(s@, needle@),
{
    is_at(&chars_of(s), &chars_of(needle), 0)
}

/// Whether `c` is one of the characters of `s`.
pub fn has_char(s: &str, c: char) -> (r: bool)
    ensures
        r == s@.contains(c),
{
    let chars = chars_of(s);
    let mut i: usize = 0;
    while i < chars.len()
        invariant
            i <= chars@.len(),
            chars@ == s@,
            forall|k: int| 0 <= k < i ==> chars@[k] != c,
        decreases chars.len() - i,
    {
        if chars[i] == c {
            assert(s@[i as int] == c);
            return true;
        }
        i += 1;
    }
    false
}

// ── splitting ────────────────────────────────────────────────────────────────

/// The pieces of `s` between the separators, empty ones included.
pub open spec fn pieces(s: Seq<char>, separator: char) -> Seq<Seq<char>>
    decreases s.len(),
{
    if s.len() == 0 {
        seq![seq![]]
    } else {
        let before = pieces(s.drop_last(), separator);
        if s.last() == separator {
            before.push(seq![])
        } else {
            before.drop_last().push(before.last().push(s.last()))
        }
    }
}

/// The pieces of `s` between the separators, empty ones included.
pub fn split(s: &str, separator: char) -> (r: Vec<String>)
    ensures
        texts(r@) == pieces(s@, separator),
        r@.len() > 0,
{
    let mut out: Vec<String> = Vec::new();
    let mut current = String::new();
    proof {
        assert(texts(out@).push(current@) =~= pieces(s@.take(0), separator));
    }
    for c in it: s.chars()
        invariant
            it.seq() == s@,
            texts(out@).push(current@) == pieces(s@.take(it.index() as int), separator),
    {
        let ghost i: int = it.index() as int;
        let ghost before = texts(out@).push(current@);
        proof {
            assert(s@.take(i + 1).drop_last() =~= s@.take(i));
            assert(s@.take(i + 1).last() == s@[i]);
        }
        if c == separator {
            let mut piece = String::new();
            std::mem::swap(&mut piece, &mut current);
            out.push(piece);
            proof {
                assert(texts(out@) =~= before);
                assert(texts(out@).push(current@) =~= pieces(s@.take(i + 1), separator));
            }
        } else {
            current.push(c);
            proof {
                assert(before.drop_last() =~= texts(out@));
                assert(texts(out@).push(current@) =~= pieces(s@.take(i + 1), separator));
            }
        }
    }
    let ghost before = texts(out@).push(current@);
    out.push(current);
    proof {
        assert(texts(out@) =~= before);
        assert(s@.take(s@.len() as int) =~= s@);
    }
    out
}

// ── what these come to ───────────────────────────────────────────────────────

/// Of the ASCII characters, the space and those from tab to carriage return are
/// white space.
pub proof fn law_ascii_white(c: char)
    requires
        (c as int) < 128,
    ensures
        white(c) <==> c == ' ' || c == '\t' || c == '\n' || c == '\u{b}' || c == '\u{c}' || c
            == '\r',
{
}

/// Whether a text is white space only.
pub open spec fn all_white(s: Seq<char>) -> bool {
    forall|k: int| 0 <= k < s.len() ==> white(#[trigger] s[k])
}

proof fn lemma_trimmed_start_splits(s: Seq<char>) -> (n: int)
    ensures
        0 <= n <= s.len(),
        all_white(s.take(n)),
        trimmed_start(s) == s.skip(n),
        n < s.len() ==> !white(s[n]),
    decreases s.len(),
{
    if s.len() > 0 && white(s[0]) {
        let m = lemma_trimmed_start_splits(s.skip(1));
        assert forall|k: int| 0 <= k < m + 1 implies white(#[trigger] s.take(m + 1)[k]) by {
            if k > 0 {
                assert(s.skip(1).take(m)[k - 1] == s[k]);
            }
        }
        assert(s.skip(1).skip(m) =~= s.skip(m + 1));
        m + 1
    } else {
        assert(s.skip(0) =~= s);
        0
    }
}

proof fn lemma_trimmed_end_splits(s: Seq<char>) -> (n: int)
    ensures
        0 <= n <= s.len(),
        all_white(s.skip(n)),
        trimmed_end(s) == s.take(n),
        n > 0 ==> !white(s[n - 1]),
    decreases s.len(),
{
    if s.len() > 0 && white(s.last()) {
        let n = lemma_trimmed_end_splits(s.drop_last());
        assert forall|k: int| 0 <= k < s.skip(n).len() implies white(#[trigger] s.skip(n)[k]) by {
            if n + k < s.len() - 1 {
                assert(s.drop_last().skip(n)[k] == s[n + k]);
            }
        }
        assert(s.drop_last().take(n) =~= s.take(n));
        n
    } else {
        assert(s.take(s.len() as int) =~= s);
        s.len() as int
    }
}

/// Whether `core` is what is left of `s` without the white space at its ends.
pub open spec fn is_core(s: Seq<char>, core: Seq<char>) -> bool {
    &&& core.len() > 0 ==> !white(core[0]) && !white(core.last())
    &&& exists|before: Seq<char>, after: Seq<char>|
        all_white(before) && all_white(after) && s == #[trigger] ((before + core) + after)
}

/// Trimming takes the white space off both ends, and nothing else.
pub proof fn law_trimmed(s: Seq<char>)
    ensures
        is_core(s, trimmed(s)),
        s.len() > 0 && !white(s[0]) && !white(s.last()) ==> trimmed(s) == s,
{
    let n = lemma_trimmed_start_splits(s);
    let mid = s.skip(n);
    let m = lemma_trimmed_end_splits(mid);
    let core = mid.take(m);
    let before = s.take(n);
    let after = mid.skip(m);
    assert(s =~= (before + core) + after);
    if m > 0 {
        assert(core[0] == s[n]);
        assert(core.last() == mid[m - 1]);
    }
}

/// A text without white space at its ends is what is left of it with white space round it.
pub proof fn lemma_trimmed_is(before: Seq<char>, message: Seq<char>, after: Seq<char>)
    requires
        all_white(before),
        all_white(after),
        message.len() > 0 ==> !white(message[0]) && !white(message.last()),
    ensures
        trimmed(before + message + after) == message,
{
    let line = before + message + after;
    law_trimmed(line);
    let core = trimmed(line);
    let (b, a) = choose|b: Seq<char>, a: Seq<char>|
        all_white(b) && all_white(a) && line == #[trigger] ((b + core) + a);
    if message.len() == 0 {
        if core.len() > 0 {
            let k = b.len() as int;
            assert(line[k] == core[0]);
            if k < before.len() {
                assert(line[k] == before[k]);
            } else {
                assert(line[k] == after[k - before.len()]);
            }
        }
        assert(core =~= message);
    } else {
        let n = before.len() as int;
        let m = n + message.len() - 1;
        assert(line[n] == message[0]);
        assert(line[m] == message.last());
        assert(b.len() <= n) by {
            if b.len() > n {
                assert(b[n] == line[n]);
            }
        }
        assert(m < b.len() + core.len()) by {
            if m >= b.len() + core.len() {
                assert(a[m - b.len() - core.len()] == line[m]);
            }
        }
        assert(b.len() == n) by {
            if b.len() < n {
                let k = b.len() as int;
                assert(line[k] == core[0]);
                assert(line[k] == before[k]);
            }
        }
        assert(b.len() + core.len() == m + 1) by {
            if b.len() + core.len() > m + 1 {
                let k = b.len() + core.len() - 1;
                assert(line[k] == core.last());
                assert(line[k] == after[k - m - 1]);
            }
        }
        assert(core =~= line.subrange(n, m + 1));
        assert(message =~= line.subrange(n, m + 1));
    }
}

/// The pieces of a text, with the separator between any two, are the text; no piece
/// holds the separator.
pub proof fn law_pieces(s: Seq<char>, separator: char)
    ensures
        rejoined(pieces(s, separator), separator) == s,
        pieces(s, separator).len() > 0,
        forall|i: int|
            0 <= i < pieces(s, separator).len() ==> !(#[trigger] pieces(s, separator)[i]).contains(
                separator,
            ),
    decreases s.len(),
{
    let now = pieces(s, separator);
    if s.len() > 0 {
        let rest = s.drop_last();
        law_pieces(rest, separator);
        let before = pieces(rest, separator);
        if s.last() == separator {
            assert(now.drop_last() =~= before);
            assert(rejoined(now, separator) =~= s);
            let none: Seq<char> = seq![];
            assert(!none.contains(separator));
            assert forall|i: int| 0 <= i < now.len() implies !(#[trigger] now[i]).contains(
                separator,
            ) by {
                if i < before.len() {
                    assert(now[i] == before[i]);
                }
            }
        } else {
            let last = before.last().push(s.last());
            assert(now.drop_last() =~= before.drop_last());
            assert(now.last() == last);
            assert(s =~= rest.push(s.last()));
            if before.len() == 1 {
                assert(now[0] == last && before[0] == before.last());
            } else {
                let start = rejoined(before.drop_last(), separator).push(separator);
                assert(start + last =~= (start + before.last()).push(s.last()));
            }
            assert forall|i: int| 0 <= i < now.len() implies !(#[trigger] now[i]).contains(
                separator,
            ) by {
                if i < before.len() - 1 {
                    assert(now[i] == before[i]);
                } else if last.contains(separator) {
                    let k = choose|k: int| 0 <= k < last.len() && last[k] == separator;
                    assert(before[before.len() - 1][k] == separator);
                    assert(before[before.len() - 1].contains(separator));
                }
            }
        }
    } else {
        let none: Seq<char> = seq![];
        assert(now =~= seq![none]);
        assert(!none.contains(separator));
    }
}

/// The pieces with the separator between any two.
pub open spec fn rejoined(pieces: Seq<Seq<char>>, separator: char) -> Seq<char>
    decreases pieces.len(),
{
    if pieces.len() == 0 {
        seq![]
    } else if pieces.len() == 1 {
        pieces[0]
    } else {
        rejoined(pieces.drop_last(), separator).push(separator) + pieces.last()
    }
}

/// A text begins with another exactly where it is that text and a rest.
pub proof fn law_begins_with(s: Seq<char>, start: Seq<char>)
    ensures
        begins_with(s, start) <==> exists|rest: Seq<char>| s == #[trigger] (start + rest),
{
    if begins_with(s, start) {
        let rest = s.skip(start.len() as int);
        assert(s =~= start + rest) by {
            assert(s.subrange(0, start.len() as int) =~= start);
            assert(s =~= s.subrange(0, start.len() as int) + rest);
        }
    }
    if exists|rest: Seq<char>| s == #[trigger] (start + rest) {
        let rest = choose|rest: Seq<char>| s == #[trigger] (start + rest);
        assert((start + rest).subrange(0, start.len() as int) =~= start);
    }
}

/// The number that decimal digits stand for.
pub open spec fn number_of(digits: Seq<char>) -> nat
    decreases digits.len(),
{
    if digits.len() == 0 {
        0
    } else {
        (10 * number_of(digits.drop_last()) + (digits.last() as int - '0' as int)) as nat
    }
}

/// The text of a number is its decimal digits, without a leading zero.
pub proof fn law_decimal(n: nat)
    ensures
        number_of(decimal_text(n)) == n,
        decimal_text(n).len() > 0,
        forall|k: int| 0 <= k < decimal_text(n).len() ==> '0' <= #[trigger] decimal_text(n)[k] <= '9',
        n > 0 ==> decimal_text(n)[0] != '0',
    decreases n,
{
    let t = decimal_text(n);
    if n < 10 {
        assert(t.drop_last() =~= seq![]);
        assert(number_of(t.drop_last()) == 0);
    } else {
        law_decimal(n / 10);
        assert(t.drop_last() =~= decimal_text(n / 10));
        assert(t[0] == decimal_text(n / 10)[0]);
    }
}

/// The text of a negative number is a minus sign and the digits of its amount.
pub proof fn law_signed(n: int)
    ensures
        n >= 0 ==> number_of(signed_text(n)) == n && signed_text(n)[0] != '-',
        n < 0 ==> signed_text(n)[0] == '-' && number_of(signed_text(n).skip(1)) == -n,
{
    if n < 0 {
        law_decimal((-n) as nat);
        assert(signed_text(n).skip(1) =~= decimal_text((-n) as nat));
    } else {
        law_decimal(n as nat);
    }
}

/// Padding appends spaces up to the width, and nothing to a longer text.
pub proof fn law_padded(s: Seq<char>, width: nat)
    ensures
        padded(s, width).len() == (if s.len() < width {
            width
        } else {
            s.len()
        }),
        padded(s, width).take(s.len() as int) == s,
        forall|k: int| s.len() <= k < padded(s, width).len() ==> #[trigger] padded(s, width)[k] == ' ',
    decreases width - s.len(),
{
    if s.len() < width {
        law_padded(s.push(' '), width);
        let all = padded(s.push(' '), width);
        assert(all.take(s.len() as int + 1) =~= s.push(' '));
        assert(all.take(s.len() as int) =~= s) by {
            assert(all.take(s.len() as int + 1).take(s.len() as int) =~= all.take(s.len() as int));
        }
        assert(all[s.len() as int] == all.take(s.len() as int + 1)[s.len() as int]);
    } else {
        assert(s.take(s.len() as int) =~= s);
    }
}

} // verus!
