//! `tack install`: the per-repo configuration of AI coding agents.
//!
//! Three layers are managed under the repo root:
//!
//! 1. an instruction block in the file each agent reads its instructions from
//!    (soft guidance);
//! 2. a `PreToolUse` hook entry in the settings of each agent;
//! 3. optionally, a `tack.cmd` PATH shim on Windows.
//!
//! All changes are idempotent, and `--uninstall` reverses only what is managed.
//! Here files are their contents: what a file is to hold, and what is said about
//! it. Reading and writing is left to the caller.
use vstd::prelude::*;
use vstd::string::*;

use crate::output;
use crate::json;
use crate::text;
use crate::json::{
    add_member, add_text, parse_json, render_pretty, set_member, take_member, Json, JsonV, Members,
};
use crate::output::{push_line, push_prefixed, text2, text3, text4, OutputFormat};
use crate::text::{append_text, chars_of, find, is_at, same_text, string_of};

verus! {

// ── instruction block ────────────────────────────────────────────────────────

/// The line that begins the managed block.
pub const BLOCK_BEGIN: &'static str = "<!-- tack:begin (managed by `tack install`) -->";

/// The line that ends the managed block.
pub const BLOCK_END: &'static str = "<!-- tack:end -->";

/// What stands between the two lines.
pub const BLOCK_BODY: &'static str = "\n\n## This project uses tack, NOT git\n\ntack is a content-addressed, agent-native version-control system.\nDo NOT run `git` commands — a `PreToolUse` hook will block them.\n\n### Core tack commands\n\n| Goal | Command |\n|---|---|\n| Working-copy status | `tack status` |\n| Where am I? | `tack current` |\n| Active claims | `tack claims` |\n| Save a named checkpoint | `tack snap -m \"your message\"` |\n| Save specific files only | `tack snap -m \"msg\" --only path/to/file` |\n| Diff live tree vs last cut | `tack diff` |\n| Diff with content | `tack diff --patch` |\n| Named-cut history | `tack log` |\n| All cuts across lineages | `tack cuts` |\n| Restore to a cut/op | `tack restore --to <id>` |\n| Undo last operation | `tack undo` |\n| Claim a file (advisory) | `tack claim <path>` |\n| Release a claim | `tack release <path>` |\n\nA `PreToolUse` hook is installed: any `git` invocation will be blocked\nwith a reminder of the equivalent tack command.\n\n";

/// The managed instruction block.
pub open spec fn instruction_block() -> Seq<char> {
    BLOCK_BEGIN@ + BLOCK_BODY@ + BLOCK_END@
}

/// The managed instruction block (the same for all agents).
pub fn instruction_block_content() -> (r: String)
    ensures
        r@ == instruction_block(),
{
    let mut out = BLOCK_BEGIN.to_owned();
    append_text(&mut out, BLOCK_BODY);
    append_text(&mut out, BLOCK_END);
    out
}

/// The number of characters of the line ending at the start of `s`.
pub open spec fn newline_len(s: Seq<char>) -> int {
    if s.len() >= 2 && s[0] == '\r' && s[1] == '\n' {
        2
    } else if s.len() >= 1 && s[0] == '\n' {
        1
    } else {
        0
    }
}

/// Whether the begin line stands in a text at `k`.
pub open spec fn begins_at(text: Seq<char>, k: int) -> bool {
    text::occurs_at(text, BLOCK_BEGIN@, k)
}

/// Whether the end line stands in a text at `k`.
pub open spec fn ends_at(text: Seq<char>, k: int) -> bool {
    text::occurs_at(text, BLOCK_END@, k)
}

/// The place of the last begin line before `to`.
pub open spec fn last_begin(text: Seq<char>, to: int) -> Option<int>
    decreases to,
{
    if to <= 0 {
        None
    } else if begins_at(text, to - 1) {
        Some(to - 1)
    } else {
        last_begin(text, to - 1)
    }
}

/// Where the managed block stands, if its end line stands at `k` or later.
pub open spec fn span_from(text: Seq<char>, k: int) -> Option<(int, int)>
    decreases text.len() - k,
{
    if k >= text.len() {
        None
    } else if ends_at(text, k) && last_begin(text, k) is Some {
        Some((last_begin(text, k)->Some_0, k + BLOCK_END@.len()))
    } else {
        span_from(text, k + 1)
    }
}

/// Where the managed block stands in a text: it ends with the first end line
/// that has a begin line before it, and begins with the nearest of those.
pub open spec fn block_span(text: Seq<char>) -> Option<(int, int)> {
    span_from(text, 0)
}

/// What follows `end` in a text, without the line ending there.
pub open spec fn rest_after(text: Seq<char>, end: int) -> Seq<char> {
    text.skip(end + newline_len(text.skip(end)))
}

/// A text that the block can be appended to: with an empty line at its end.
pub open spec fn separated(text: Seq<char>) -> Seq<char> {
    if text.len() == 0 {
        text
    } else if text.last() == '\n' {
        text.push('\n')
    } else {
        text.push('\n').push('\n')
    }
}

/// The text with the block: in the place of the one that is there, or at the
/// end.
pub open spec fn upserted(text: Seq<char>, block: Seq<char>) -> Seq<char> {
    match block_span(text) {
        Some((b, e)) => (text.take(b) + block).push('\n') + rest_after(text, e),
        None => (separated(text) + block).push('\n'),
    }
}

/// The text without the block, and without the empty line before it.
pub open spec fn removed(text: Seq<char>) -> Seq<char> {
    match block_span(text) {
        Some((b, e)) => {
            let before = text.take(b);
            let trim = if b >= 2 && before[b - 1] == '\n' && before[b - 2] == '\n' {
                1int
            } else {
                0int
            };
            before.take(b - trim) + rest_after(text, e)
        },
        None => text,
    }
}

/// Returns the number of characters that make up a line ending at the start of
/// `chars[from..]`.
fn leading_newline_len(chars: &[char], from: usize) -> (r: usize)
    requires
        from <= chars@.len(),
    ensures
        r == newline_len(chars@.skip(from as int)),
        from + r <= chars@.len(),
{
    let ghost s = chars@.skip(from as int);
    assert(s.len() > 0 ==> s[0] == chars@[from as int]);
    assert(s.len() > 1 ==> s[1] == chars@[from + 1]);
    if chars.len() - from >= 2 && chars[from] == '\r' && chars[from + 1] == '\n' {
        2
    } else if chars.len() - from >= 1 && chars[from] == '\n' {
        1
    } else {
        0
    }
}

/// Where the managed block stands.
fn find_block(chars: &[char]) -> (r: Option<(usize, usize)>)
    ensures
        match r {
            Some((b, e)) => block_span(chars@) == Some((b as int, e as int)) && b <= e
                <= chars@.len(),
            None => block_span(chars@) is None,
        },
{
    let begin = chars_of(BLOCK_BEGIN);
    let end = chars_of(BLOCK_END);
    let mut last: Option<usize> = None;
    let mut k: usize = 0;
    while k < chars.len()
        invariant
            begin@ == BLOCK_BEGIN@,
            end@ == BLOCK_END@,
            k <= chars@.len(),
            block_span(chars@) == span_from(chars@, k as int),
            match last {
                Some(b) => b < k && last_begin(chars@, k as int) == Some(b as int),
                None => last_begin(chars@, k as int) is None,
            },
        decreases chars.len() - k,
    {
        if is_at(chars, end.as_slice(), k) {
            if let Some(b) = last {
                return Some((b, k + end.len()));
            }
        }
        if is_at(chars, begin.as_slice(), k) {
            last = Some(k);
        }
        k += 1;
    }
    None
}

/// Inserts or replaces the managed instruction block in `text`.
///
/// Replaces what stands between the markers if they are found (an end line with
/// the nearest begin line before it); otherwise appends the block at the end
/// (behind an empty line).
pub fn upsert_block(text: &str, block: &str) -> (r: String)
    ensures
        r@ == upserted(text@, block@),
{
    let chars = chars_of(text);
    let n: usize = chars.len();
    match find_block(chars.as_slice()) {
        Some((b, e)) => {
            let skip = leading_newline_len(chars.as_slice(), e);
            let mut out = string_of(chars.as_slice(), 0, b);
            append_text(&mut out, block);
            out.push('\n');
            append_text(&mut out, string_of(chars.as_slice(), e + skip, n).as_str());
            proof {
                assert(chars@.subrange(0, b as int) =~= text@.take(b as int));
                assert(chars@.subrange(e + skip, n as int) =~= rest_after(text@, e as int));
            }
            out
        },
        None => {
            let mut out = text.to_owned();
            if n > 0 && chars[n - 1] != '\n' {
                out.push('\n');
            }
            if n > 0 {
                out.push('\n');
            }
            append_text(&mut out, block);
            out.push('\n');
            out
        },
    }
}

/// Removes the managed instruction block from `text`, including its markers.
pub fn remove_block(text: &str) -> (r: String)
    ensures
        r@ == removed(text@),
{
    let chars = chars_of(text);
    let n: usize = chars.len();
    match find_block(chars.as_slice()) {
        Some((b, e)) => {
            let skip = leading_newline_len(chars.as_slice(), e);
            // Trim an empty line before the block if there is one.
            let blank = b >= 2 && chars[b - 1] == '\n' && chars[b - 2] == '\n';
            let to: usize = if blank { b - 1 } else { b };
            let mut out = string_of(chars.as_slice(), 0, to);
            append_text(&mut out, string_of(chars.as_slice(), e + skip, n).as_str());
            proof {
                let before = text@.take(b as int);
                assert(chars@.subrange(0, to as int) =~= before.take(to as int));
                assert(chars@.subrange(e + skip, n as int) =~= rest_after(text@, e as int));
            }
            out
        },
        None => text.to_owned(),
    }
}

/// Whether a text is a block: it begins with the begin line and ends with the end
/// line, and neither stands anywhere else in it.
pub open spec fn is_block(block: Seq<char>) -> bool {
    let last = block.len() - BLOCK_END@.len();
    &&& begins_at(block, 0)
    &&& ends_at(block, last)
    &&& forall|k: int| 0 < k < block.len() ==> !begins_at(block, k)
    &&& forall|k: int| 0 <= k < last ==> !ends_at(block, k)
}

/// The markers hold no line break, and the end line is the shorter.
proof fn lemma_markers()
    ensures
        0 < BLOCK_END@.len() < BLOCK_BEGIN@.len(),
        forall|i: int| 0 <= i < BLOCK_BEGIN@.len() ==> #[trigger] BLOCK_BEGIN@[i] != '\n',
        forall|i: int| 0 <= i < BLOCK_END@.len() ==> #[trigger] BLOCK_END@[i] != '\n',
{
    reveal_strlit("<!-- tack:begin (managed by `tack install`) -->");
    reveal_strlit("<!-- tack:end -->");
}

/// What stands somewhere in a part of a text stands in the text.
proof fn lemma_occurs_in_both(a: Seq<char>, b: Seq<char>, needle: Seq<char>, k: int, offset: int)
    requires
        text::occurs_at(a, needle, k),
        0 <= k + offset,
        k + offset + needle.len() <= b.len(),
        forall|i: int| k <= i < k + needle.len() ==> a[i] == b[#[trigger] (i + offset)],
    ensures
        text::occurs_at(b, needle, k + offset),
{
    let n = needle.len() as int;
    assert(b.subrange(k + offset, k + offset + n) =~= needle) by {
        assert forall|j: int| 0 <= j < n implies b.subrange(k + offset, k + offset + n)[j]
            == needle[j] by {
            assert(a.subrange(k, k + n)[j] == needle[j]);
            assert(a[k + j] == b[(k + j) + offset]);
        }
    }
}

/// Whether no begin line that starts in `before`, the beginning of `text`, is
/// followed there by an end line.
spec fn unpaired(before: Seq<char>, text: Seq<char>) -> bool {
    forall|j: int, k: int|
        0 <= j < k < before.len() && #[trigger] begins_at(text, j) ==> !#[trigger] ends_at(text, k)
}

/// Whether the span is that of the block: between its markers stands no begin
/// line, and no end line before has a begin line before it.
spec fn is_span(text: Seq<char>, span: Option<(int, int)>) -> bool {
    match span {
        Some((b, e)) => {
            let last = e - BLOCK_END@.len();
            &&& 0 <= b < last
            &&& begins_at(text, b)
            &&& ends_at(text, last)
            &&& forall|k: int| b < k < last ==> !begins_at(text, k)
            &&& forall|j: int, k: int|
                0 <= j < k < last && #[trigger] begins_at(text, j) ==> !#[trigger] ends_at(text, k)
        },
        None => forall|j: int, k: int|
            0 <= j < k < text.len() && #[trigger] begins_at(text, j) ==> !#[trigger] ends_at(
                text,
                k,
            ),
    }
}

proof fn lemma_last_begin(text: Seq<char>, to: int)
    ensures
        match last_begin(text, to) {
            Some(b) => 0 <= b < to && begins_at(text, b) && forall|k: int|
                b < k < to ==> !begins_at(text, k),
            None => forall|k: int| 0 <= k < to ==> !begins_at(text, k),
        },
    decreases to,
{
    if to > 0 && !begins_at(text, to - 1) {
        lemma_last_begin(text, to - 1);
    }
}

proof fn lemma_span_from(text: Seq<char>, from: int)
    requires
        0 <= from,
        forall|j: int, k: int|
            0 <= j < k < from && #[trigger] begins_at(text, j) ==> !#[trigger] ends_at(text, k),
    ensures
        is_span(text, span_from(text, from)),
    decreases text.len() - from,
{
    lemma_last_begin(text, from);
    if from < text.len() && !(ends_at(text, from) && last_begin(text, from) is Some) {
        assert forall|j: int, k: int|
            0 <= j < k < from + 1 && #[trigger] begins_at(text, j) implies !#[trigger] ends_at(
            text,
            k,
        ) by {}
        lemma_span_from(text, from + 1);
    }
}

/// The block stands where it is described to stand, and nowhere else.
proof fn lemma_span(text: Seq<char>, span: Option<(int, int)>)
    ensures
        is_span(text, block_span(text)),
        is_span(text, span) ==> block_span(text) == span,
{
    lemma_span_from(text, 0);
    lemma_markers();
    let found = block_span(text);
    if is_span(text, span) {
        match (found, span) {
            (Some((b, e)), Some((c, f))) => {
                let n = BLOCK_END@.len();
                if e < f {
                    assert(begins_at(text, b) && ends_at(text, e - n));
                } else if f < e {
                    assert(begins_at(text, c) && ends_at(text, f - n));
                }
                if b < c {
                    assert(begins_at(text, c));
                } else if c < b {
                    assert(begins_at(text, b));
                }
            },
            (Some((b, e)), None) => {
                assert(begins_at(text, b) && ends_at(text, e - BLOCK_END@.len()));
            },
            (None, Some((c, f))) => {
                assert(begins_at(text, c) && ends_at(text, f - BLOCK_END@.len()));
            },
            (None, None) => {},
        }
    }
}

/// What comes before the block in a text that it is written to.
spec fn before_block(text: Seq<char>) -> Seq<char> {
    match block_span(text) {
        Some((b, e)) => text.take(b),
        None => separated(text),
    }
}

/// A text that is `before`, then the block, then a line break and `rest`, holds
/// the block right there, if no markers stand in `before` as a pair.
proof fn lemma_block_found(before: Seq<char>, block: Seq<char>, rest: Seq<char>)
    requires
        is_block(block),
        unpaired(before, before + block),
    ensures
        ({
            let text = (before + block).push('\n') + rest;
            &&& block_span(text) == Some((before.len() as int, (before.len() + block.len()) as int))
            &&& rest_after(text, (before.len() + block.len()) as int) == rest
            &&& text.take(before.len() as int) == before
        }),
{
    lemma_markers();
    let head = before + block;
    let text = head.push('\n') + rest;
    let nb = before.len() as int;
    let nk = block.len() as int;
    let begin = BLOCK_BEGIN@;
    let end = BLOCK_END@;
    let last = nb + nk - end.len();
    assert(nk >= begin.len());
    assert(text[nb + nk] == '\n');
    assert(begins_at(text, nb)) by {
        lemma_occurs_in_both(block, text, begin, 0, nb);
    }
    assert(ends_at(text, last)) by {
        lemma_occurs_in_both(block, text, end, nk - end.len(), nb);
    }
    assert(nb < last);
    assert forall|k: int| nb < k < last implies !begins_at(text, k) by {
        if begins_at(text, k) {
            if k + begin.len() > nb + nk {
                assert(text.subrange(k, k + begin.len())[nb + nk - k] == begin[nb + nk - k]);
            } else {
                lemma_occurs_in_both(text, block, begin, k, -nb);
                assert(begins_at(block, k - nb));
            }
        }
    }
    assert forall|j: int, k: int|
        0 <= j < k < last && #[trigger] begins_at(text, j) implies !#[trigger] ends_at(text, k) by {
        if ends_at(text, k) {
            if k < nb {
                lemma_occurs_in_both(text, head, begin, j, 0);
                lemma_occurs_in_both(text, head, end, k, 0);
                assert(begins_at(head, j) && ends_at(head, k));
            } else {
                lemma_occurs_in_both(text, block, end, k, -nb);
                assert(ends_at(block, k - nb));
            }
        }
    }
    lemma_span(text, Some((nb, nb + nk)));
    let after = text.skip(nb + nk);
    assert(after[0] == '\n');
    assert(newline_len(after) == 1);
    assert(text.skip(nb + nk + 1) =~= rest);
    assert(text.take(nb) =~= before);
}

/// No markers stand as a pair in the text before the block.
proof fn lemma_none_before(text: Seq<char>, block: Seq<char>)
    requires
        is_block(block),
    ensures
        unpaired(before_block(text), before_block(text) + block),
{
    lemma_markers();
    lemma_span(text, None);
    let begin = BLOCK_BEGIN@;
    let end = BLOCK_END@;
    let before = before_block(text);
    let head = before + block;
    match block_span(text) {
        Some((b, _)) => {
            // Up to the end of the begin line the two texts are the same.
            assert forall|i: int| 0 <= i < b + begin.len() implies #[trigger] head[i] == text[i] by {
                if i >= b {
                    assert(block.subrange(0, begin.len() as int)[i - b] == begin[i - b]);
                    assert(text.subrange(b, b + begin.len())[i - b] == begin[i - b]);
                }
            }
            assert forall|j: int, k: int|
                0 <= j < k < before.len() && #[trigger] begins_at(head, j) implies
                !#[trigger] ends_at(head, k) by {
                if ends_at(head, k) {
                    lemma_occurs_in_both(head, text, begin, j, 0);
                    lemma_occurs_in_both(head, text, end, k, 0);
                    assert(begins_at(text, j) && ends_at(text, k));
                }
            }
        },
        None => {
            assert forall|j: int, k: int|
                0 <= j < k < before.len() && #[trigger] begins_at(head, j) implies
                !#[trigger] ends_at(head, k) by {
                if ends_at(head, k) {
                    lemma_in_text(text, block, begin, j);
                    lemma_in_text(text, block, end, k);
                    assert(begins_at(text, j) && ends_at(text, k));
                }
            }
        },
    }
}

/// What is found before the block, and holds no line break, is in the text.
proof fn lemma_in_text(text: Seq<char>, block: Seq<char>, needle: Seq<char>, k: int)
    requires
        needle.len() > 0,
        forall|i: int| 0 <= i < needle.len() ==> #[trigger] needle[i] != '\n',
        0 <= k < separated(text).len(),
        text::occurs_at(separated(text) + block, needle, k),
    ensures
        text::occurs_at(text, needle, k),
{
    let before = separated(text);
    let head = before + block;
    let n = needle.len() as int;
    let t = text.len() as int;
    assert forall|i: int| k <= i < k + n implies #[trigger] head[i] != '\n' by {
        assert(head.subrange(k, k + n)[i - k] == needle[i - k]);
    }
    // The last character before the block is a line break.
    assert(before[before.len() - 1] == '\n');
    if k + n > t {
        let p = if k >= t { k } else { t };
        assert(head[p] == '\n') by {
            assert(p < before.len());
            assert(head[p] == before[p]);
        }
    }
    lemma_occurs_in_both(head, text, needle, k, 0);
}

/// No exclamation mark stands in the body of the instruction block.
proof fn lemma_body_plain()
    ensures
        forall|i: int| 0 <= i < BLOCK_BODY@.len() ==> #[trigger] BLOCK_BODY@[i] != '!',
{
    reveal_strlit(
        "\n\n## This project uses tack, NOT git\n\ntack is a content-addressed, agent-native version-control system.\nDo NOT run `git` commands — a `PreToolUse` hook will block them.\n\n### Core tack commands\n\n| Goal | Command |\n|---|---|\n| Working-copy status | `tack status` |\n| Where am I? | `tack current` |\n| Active claims | `tack claims` |\n| Save a named checkpoint | `tack snap -m \"your message\"` |\n| Save specific files only | `tack snap -m \"msg\" --only path/to/file` |\n| Diff live tree vs last cut | `tack diff` |\n| Diff with content | `tack diff --patch` |\n| Named-cut history | `tack log` |\n| All cuts across lineages | `tack cuts` |\n| Restore to a cut/op | `tack restore --to <id>` |\n| Undo last operation | `tack undo` |\n| Claim a file (advisory) | `tack claim <path>` |\n| Release a claim | `tack release <path>` |\n\nA `PreToolUse` hook is installed: any `git` invocation will be blocked\nwith a reminder of the equivalent tack command.\n\n",
    );
}

/// The begin line stands in the instruction block once.
#[verifier::rlimit(40)]
#[verifier::spinoff_prover]
proof fn lemma_one_begin_line()
    ensures
        forall|k: int| 0 < k < instruction_block().len() ==> !begins_at(instruction_block(), k),
{
    lemma_body_plain();
    reveal_strlit("<!-- tack:begin (managed by `tack install`) -->");
    reveal_strlit("<!-- tack:end -->");
    let begin = BLOCK_BEGIN@;
    let end = BLOCK_END@;
    let block = instruction_block();
    let at = (begin.len() + BLOCK_BODY@.len()) as int;
    assert forall|k: int| 0 < k < block.len() implies !begins_at(block, k) by {
        if begins_at(block, k) {
            let found = block.subrange(k, k + begin.len());
            assert(found == begin);
            assert(found[1] == begin[1]);
            assert(block[k + 1] == '!');
            if k + 1 < begin.len() {
                assert(begin[k + 1] == '!');
            } else if k + 1 < at {
                assert(BLOCK_BODY@[k + 1 - begin.len()] == '!');
            } else {
                assert(k + begin.len() > block.len());
            }
        }
    }
}

/// The instruction block is a block.
#[verifier::rlimit(40)]
#[verifier::spinoff_prover]
pub proof fn lemma_instruction_block_is_block()
    ensures
        is_block(instruction_block()),
{
    lemma_body_plain();
    reveal_strlit("<!-- tack:begin (managed by `tack install`) -->");
    reveal_strlit("<!-- tack:end -->");
    let begin = BLOCK_BEGIN@;
    let end = BLOCK_END@;
    let block = instruction_block();
    let at = (begin.len() + BLOCK_BODY@.len()) as int;
    assert(block.subrange(0, begin.len() as int) =~= begin);
    assert(block.subrange(at, at + end.len()) =~= end);
    assert forall|k: int| 0 <= k < at implies !text::occurs_at(block, end, k) by {
        if text::occurs_at(block, end, k) {
            let found = block.subrange(k, k + end.len());
            assert(found[1] == '!' && found[10] == 'e');
            assert(block[k + 1] == '!' && block[k + 10] == 'e');
            if k + 1 < begin.len() {
                assert(begin[k + 1] == '!');
                assert(k == 0);
                assert(begin[10] == 'b');
            } else if k + 1 < at {
                assert(BLOCK_BODY@[k + 1 - begin.len()] == '!');
            } else {
                assert(block[at] == end[0]);
            }
        }
    }
    lemma_one_begin_line();
}

/// Writing the block twice is writing it once, whatever the text holds.
pub proof fn lemma_upsert_idempotent(text: Seq<char>, block: Seq<char>)
    requires
        is_block(block),
    ensures
        upserted(upserted(text, block), block) == upserted(text, block),
{
    lemma_none_before(text, block);
    match block_span(text) {
        Some((b, e)) => {
            lemma_block_found(text.take(b), block, rest_after(text, e));
        },
        None => {
            lemma_block_found(separated(text), block, seq![]);
            assert((separated(text) + block).push('\n') + seq![] =~= (separated(text)
                + block).push('\n'));
            assert(upserted(upserted(text, block), block) =~= upserted(text, block));
        },
    }
}

/// Removing the block undoes writing it to a text without one that is empty or
/// ends in a line break.
pub proof fn lemma_remove_undoes_upsert(text: Seq<char>, block: Seq<char>)
    requires
        is_block(block),
        block_span(text) is None,
        text.len() == 0 || text.last() == '\n',
    ensures
        removed(upserted(text, block)) == text,
{
    lemma_none_before(text, block);
    lemma_block_found(separated(text), block, seq![]);
    assert((separated(text) + block).push('\n') + seq![] =~= (separated(text) + block).push('\n'));
    assert(removed(upserted(text, block)) =~= text);
}

// ── hook configuration ───────────────────────────────────────────────────────

/// The command that identifies the managed hook entry.
pub open spec fn hook_command(exe: Seq<char>) -> Seq<char> {
    "\""@ + exe + "\" hook pre-tool-use"@
}

/// The managed hook entry.
pub open spec fn hook_entry_of(exe: Seq<char>, matcher: Seq<char>) -> JsonV {
    JsonV::Object(
        seq![
            ("matcher"@, JsonV::Text(matcher)),
            (
                "hooks"@,
                JsonV::Array(
                    seq![
                        JsonV::Object(
                            seq![
                                ("type"@, JsonV::Text("command"@)),
                                ("command"@, JsonV::Text(hook_command(exe))),
                                ("timeout"@, JsonV::Number("10"@)),
                            ],
                        ),
                    ],
                ),
            ),
        ],
    )
}

/// Whether one of the hooks runs the command.
pub open spec fn some_runs(hooks: Seq<JsonV>, command: Seq<char>) -> bool {
    exists|i: int|
        0 <= i < hooks.len() && json::get_text(#[trigger] hooks[i], "command"@) == Some(command)
}

/// Whether a hook entry runs the command.
pub open spec fn entry_runs(entry: JsonV, command: Seq<char>) -> bool {
    match json::get(entry, "hooks"@) {
        Some(JsonV::Array(hooks)) => some_runs(hooks, command),
        _ => false,
    }
}

/// Whether one of the entries runs the command.
pub open spec fn any_entry_runs(entries: Seq<JsonV>, command: Seq<char>) -> bool {
    exists|i: int| 0 <= i < entries.len() && entry_runs(#[trigger] entries[i], command)
}

/// The members of the value under a key: none if there is no such object.
pub open spec fn members_at(json: JsonV, key: Seq<char>) -> Members {
    match json::get(json, key) {
        Some(JsonV::Object(members)) => members,
        _ => seq![],
    }
}

/// Whether the value under a key is an object, if it is there.
pub open spec fn object_or_absent(json: JsonV, key: Seq<char>) -> bool {
    match json::get(json, key) {
        None => true,
        Some(value) => value is Object,
    }
}

/// The entries for `PreToolUse`: none if there is no such list.
pub open spec fn hook_entries(config: JsonV) -> Seq<JsonV> {
    match json::member(members_at(config, "hooks"@), "PreToolUse"@) {
        Some(JsonV::Array(entries)) => entries,
        _ => seq![],
    }
}

/// Whether a hook entry can be put into a configuration: it is an object, and
/// `hooks` is one and `hooks.PreToolUse` a list, if they are there.
pub open spec fn takes_hooks(config: JsonV) -> bool {
    &&& config is Object
    &&& object_or_absent(config, "hooks"@)
    &&& match json::member(members_at(config, "hooks"@), "PreToolUse"@) {
        None => true,
        Some(value) => value is Array,
    }
}

/// The configuration with the given entries for `PreToolUse`.
pub open spec fn with_hook_entries(config: JsonV, entries: Seq<JsonV>) -> JsonV {
    let hooks = json::with_member(
        members_at(config, "hooks"@),
        "PreToolUse"@,
        JsonV::Array(entries),
    );
    JsonV::Object(json::with_member(config->Object_0, "hooks"@, JsonV::Object(hooks)))
}

/// The configuration with the managed hook entry, once.
pub open spec fn hook_merged(config: JsonV, exe: Seq<char>, matcher: Seq<char>) -> JsonV {
    if any_entry_runs(hook_entries(config), hook_command(exe)) {
        config
    } else {
        with_hook_entries(config, hook_entries(config).push(hook_entry_of(exe, matcher)))
    }
}

/// The entries that do not run the command.
pub open spec fn others(entries: Seq<JsonV>, command: Seq<char>) -> Seq<JsonV>
    decreases entries.len(),
{
    if entries.len() == 0 {
        seq![]
    } else if entry_runs(entries.last(), command) {
        others(entries.drop_last(), command)
    } else {
        others(entries.drop_last(), command).push(entries.last())
    }
}

/// The configuration without the managed hook entry.
pub open spec fn hook_removed(config: JsonV, exe: Seq<char>) -> JsonV {
    if any_entry_runs(hook_entries(config), hook_command(exe)) {
        with_hook_entries(config, others(hook_entries(config), hook_command(exe)))
    } else {
        config
    }
}

/// The entry that is put in is found again.
proof fn lemma_entry_runs_its_command(exe: Seq<char>, matcher: Seq<char>)
    ensures
        entry_runs(hook_entry_of(exe, matcher), hook_command(exe)),
{
    reveal_strlit("matcher");
    reveal_strlit("hooks");
    reveal_strlit("type");
    reveal_strlit("command");
    let entry = hook_entry_of(exe, matcher);
    let members = entry->Object_0;
    assert("matcher"@ != "hooks"@) by {
        assert("matcher"@.len() != "hooks"@.len());
    }
    assert(members.skip(1)[0] == members[1]);
    assert(json::member(members, "hooks"@) == json::member(members.skip(1), "hooks"@));
    let hooks = members[1].1->Array_0;
    let hook = hooks[0]->Object_0;
    assert("type"@ != "command"@) by {
        assert("type"@.len() != "command"@.len());
    }
    assert(hook.skip(1)[0] == hook[1]);
    assert(json::member(hook, "command"@) == json::member(hook.skip(1), "command"@));
    assert(json::get_text(hooks[0], "command"@) == Some(hook_command(exe)));
}

/// The entries that are set are the entries.
proof fn lemma_set_entries(config: JsonV, entries: Seq<JsonV>)
    requires
        config is Object,
    ensures
        hook_entries(with_hook_entries(config, entries)) == entries,
        takes_hooks(with_hook_entries(config, entries)),
        forall|key: Seq<char>|
            key != "hooks"@ ==> #[trigger] json::get(with_hook_entries(config, entries), key) == json::get(
                config,
                key,
            ),
{
    let hooks = json::with_member(
        members_at(config, "hooks"@),
        "PreToolUse"@,
        JsonV::Array(entries),
    );
    json::lemma_with_member(
        members_at(config, "hooks"@),
        "PreToolUse"@,
        JsonV::Array(entries),
        "PreToolUse"@,
    );
    json::lemma_with_member(config->Object_0, "hooks"@, JsonV::Object(hooks), "hooks"@);
    assert forall|key: Seq<char>| key != "hooks"@ implies #[trigger] json::get(
        with_hook_entries(config, entries),
        key,
    ) == json::get(config, key) by {
        json::lemma_with_member(config->Object_0, "hooks"@, JsonV::Object(hooks), key);
    }
}

/// After a merge the managed entry is there, every entry that was there still
/// is, and every other key is as it was.
pub proof fn lemma_merge_adds_only_the_entry(config: JsonV, exe: Seq<char>, matcher: Seq<char>)
    requires
        takes_hooks(config),
    ensures
        ({
            let merged = hook_merged(config, exe, matcher);
            &&& takes_hooks(merged)
            &&& any_entry_runs(hook_entries(merged), hook_command(exe))
            &&& hook_entries(merged) == hook_entries(config) || hook_entries(merged)
                == hook_entries(config).push(hook_entry_of(exe, matcher))
            &&& forall|key: Seq<char>|
                key != "hooks"@ ==> #[trigger] json::get(merged, key) == json::get(config, key)
        }),
{
    if !any_entry_runs(hook_entries(config), hook_command(exe)) {
        let entries = hook_entries(config).push(hook_entry_of(exe, matcher));
        lemma_set_entries(config, entries);
        lemma_entry_runs_its_command(exe, matcher);
        assert(entry_runs(entries[entries.len() - 1], hook_command(exe)));
    }
}

/// Merging twice is merging once.
pub proof fn lemma_merge_idempotent(config: JsonV, exe: Seq<char>, matcher: Seq<char>)
    requires
        takes_hooks(config),
    ensures
        hook_merged(hook_merged(config, exe, matcher), exe, matcher) == hook_merged(
            config,
            exe,
            matcher,
        ),
{
    lemma_merge_adds_only_the_entry(config, exe, matcher);
}

/// What is left runs another command, and was there.
proof fn lemma_others(entries: Seq<JsonV>, command: Seq<char>)
    ensures
        !any_entry_runs(others(entries, command), command),
        !any_entry_runs(entries, command) ==> others(entries, command) == entries,
        others(entries, command).len() <= entries.len(),
        any_entry_runs(entries, command) ==> others(entries, command).len() < entries.len(),
    decreases entries.len(),
{
    if entries.len() > 0 {
        let before = entries.drop_last();
        lemma_others(before, command);
        let rest = others(before, command);
        if !entry_runs(entries.last(), command) {
            let now = rest.push(entries.last());
            assert forall|i: int| 0 <= i < now.len() implies !entry_runs(
                #[trigger] now[i],
                command,
            ) by {
                if i < rest.len() {
                    assert(!entry_runs(rest[i], command));
                }
            }
            if any_entry_runs(entries, command) {
                let k = choose|k: int|
                    0 <= k < entries.len() && entry_runs(#[trigger] entries[k], command);
                assert(entry_runs(before[k], command));
            } else {
                assert forall|i: int| 0 <= i < before.len() implies !entry_runs(
                    #[trigger] before[i],
                    command,
                ) by {
                    assert(!entry_runs(entries[i], command));
                }
                assert(now =~= entries);
            }
        } else {
            assert(entry_runs(entries[entries.len() - 1], command));
        }
    }
}

/// Without the managed entry none runs its command, and no other key changes.
pub proof fn lemma_remove_leaves_no_entry(config: JsonV, exe: Seq<char>)
    requires
        config is Object,
    ensures
        !any_entry_runs(hook_entries(hook_removed(config, exe)), hook_command(exe)),
        hook_entries(hook_removed(config, exe)) == others(
            hook_entries(config),
            hook_command(exe),
        ),
        forall|key: Seq<char>|
            key != "hooks"@ ==> #[trigger] json::get(hook_removed(config, exe), key) == json::get(config, key),
{
    lemma_others(hook_entries(config), hook_command(exe));
    if any_entry_runs(hook_entries(config), hook_command(exe)) {
        lemma_set_entries(config, others(hook_entries(config), hook_command(exe)));
    }
}

/// Removing the entry undoes a merge into a configuration that has a list of
/// hooks without it.
pub proof fn lemma_remove_undoes_merge(config: JsonV, exe: Seq<char>, matcher: Seq<char>)
    requires
        takes_hooks(config),
        json::get(config, "hooks"@) is Some,
        json::member(members_at(config, "hooks"@), "PreToolUse"@) is Some,
        !any_entry_runs(hook_entries(config), hook_command(exe)),
    ensures
        hook_removed(hook_merged(config, exe, matcher), exe) == config,
{
    let command = hook_command(exe);
    let entries = hook_entries(config);
    let entry = hook_entry_of(exe, matcher);
    let merged = hook_merged(config, exe, matcher);
    lemma_merge_adds_only_the_entry(config, exe, matcher);
    lemma_set_entries(config, entries.push(entry));
    lemma_others(entries, command);
    lemma_entry_runs_its_command(exe, matcher);
    assert(entries.push(entry).drop_last() =~= entries);
    assert(others(entries.push(entry), command) == entries);
    // Setting the entries again, to what they were.
    let members = config->Object_0;
    let hooks = members_at(config, "hooks"@);
    let pushed = json::with_member(hooks, "PreToolUse"@, JsonV::Array(entries.push(entry)));
    json::lemma_with_member(members, "hooks"@, JsonV::Object(pushed), "hooks"@);
    json::lemma_with_member_twice(
        hooks,
        "PreToolUse"@,
        JsonV::Array(entries.push(entry)),
        JsonV::Array(entries),
    );
    json::lemma_with_same_member(hooks, "PreToolUse"@);
    json::lemma_with_member_twice(
        members,
        "hooks"@,
        JsonV::Object(pushed),
        JsonV::Object(hooks),
    );
    json::lemma_with_same_member(members, "hooks"@);
}

/// The command that identifies the managed hook entry.
pub fn our_hook_command(exe_path: &str) -> (r: String)
    ensures
        r@ == hook_command(exe_path@),
{
    let mut out = "\"".to_owned();
    append_text(&mut out, exe_path);
    append_text(&mut out, "\" hook pre-tool-use");
    out
}

/// The managed hook entry for the given `matcher` and executable.
fn hook_entry(exe_path: &str, matcher: &str) -> (r: Json)
    ensures
        r@ == hook_entry_of(exe_path@, matcher@),
{
    let mut hook: Vec<(String, Json)> = Vec::new();
    add_text(&mut hook, "type", "command");
    add_text(&mut hook, "command", our_hook_command(exe_path).as_str());
    add_member(&mut hook, "timeout", Json::Number("10".to_owned()));
    let ghost hook_members = json::members_of(hook@);
    let mut hooks: Vec<Json> = Vec::new();
    let hook = Json::Object(hook);
    proof {
        json::lemma_values_push(hooks@, hook);
    }
    hooks.push(hook);
    let ghost hook_values = json::values_of(hooks@);
    let mut entry: Vec<(String, Json)> = Vec::new();
    add_text(&mut entry, "matcher", matcher);
    add_member(&mut entry, "hooks", Json::Array(hooks));
    proof {
        assert(hook_members =~= seq![
            ("type"@, JsonV::Text("command"@)),
            ("command"@, JsonV::Text(hook_command(exe_path@))),
            ("timeout"@, JsonV::Number("10"@)),
        ]);
        assert(hook_values =~= seq![JsonV::Object(hook_members)]);
        assert(json::members_of(entry@) =~= seq![
            ("matcher"@, JsonV::Text(matcher@)),
            ("hooks"@, JsonV::Array(hook_values)),
        ]);
    }
    Json::Object(entry)
}

/// Whether a hook entry runs the command.
fn runs_command(entry: &Json, command: &str) -> (r: bool)
    ensures
        r == entry_runs(entry@, command@),
{
    let hooks = match entry.get("hooks") {
        Some(value) => match value.as_array() {
            Some(hooks) => hooks,
            None => {
                return false;
            },
        },
        None => {
            return false;
        },
    };
    let ghost all = json::values_of(hooks@);
    proof {
        json::lemma_values_at(hooks@);
    }
    let mut i: usize = 0;
    while i < hooks.len()
        invariant
            i <= hooks@.len(),
            json::get(entry@, "hooks"@) == Some(JsonV::Array(all)),
            all == json::values_of(hooks@),
            all.len() == hooks@.len(),
            forall|k: int| 0 <= k < hooks@.len() ==> #[trigger] all[k] == hooks@[k]@,
            forall|k: int|
                0 <= k < i ==> json::get_text(#[trigger] all[k], "command"@) != Some(command@),
        decreases hooks.len() - i,
    {
        assert(all[i as int] == hooks@[i as int]@);
        match hooks[i].get_str("command") {
            Some(s) => {
                if same_text(s, command) {
                    return true;
                }
            },
            None => {},
        }
        i += 1;
    }
    false
}

/// Whether one of the entries runs the command.
fn any_runs_command(entries: &[Json], command: &str) -> (r: bool)
    ensures
        r == any_entry_runs(json::values_of(entries@), command@),
{
    let ghost all = json::values_of(entries@);
    proof {
        json::lemma_values_at(entries@);
    }
    let mut i: usize = 0;
    while i < entries.len()
        invariant
            i <= entries@.len(),
            all == json::values_of(entries@),
            all.len() == entries@.len(),
            forall|k: int| 0 <= k < entries@.len() ==> #[trigger] all[k] == entries@[k]@,
            forall|k: int| 0 <= k < i ==> !entry_runs(#[trigger] all[k], command@),
        decreases entries.len() - i,
    {
        assert(all[i as int] == entries@[i as int]@);
        if runs_command(&entries[i], command) {
            return true;
        }
        i += 1;
    }
    false
}

/// A copy of the members of the value under a key: none if there is no such
/// object.
fn copy_members_at(json: &Json, key: &str) -> (r: Vec<(String, Json)>)
    ensures
        json::members_of(r@) == members_at(json@, key@),
{
    match json.get(key) {
        Some(value) => match value.copy() {
            Json::Object(members) => members,
            _ => {
                let none: Vec<(String, Json)> = Vec::new();
                assert(json::members_of(none@) =~= seq![]);
                none
            },
        },
        None => {
            let none: Vec<(String, Json)> = Vec::new();
            assert(json::members_of(none@) =~= seq![]);
            none
        },
    }
}

/// A copy of the entries for `PreToolUse`.
fn copy_hook_entries(config: &Json) -> (r: Vec<Json>)
    ensures
        json::values_of(r@) == hook_entries(config@),
{
    let mut hooks = copy_members_at(config, "hooks");
    match take_member(&mut hooks, "PreToolUse") {
        Some(Json::Array(entries)) => entries,
        _ => {
            let none: Vec<Json> = Vec::new();
            assert(json::values_of(none@) =~= seq![]);
            none
        },
    }
}

/// Sets the entries for `PreToolUse`.
fn set_hook_entries(config: &mut Json, entries: Vec<Json>)
    requires
        old(config)@ is Object,
    ensures
        final(config)@ == with_hook_entries(old(config)@, json::values_of(entries@)),
{
    let mut hooks = copy_members_at(config, "hooks");
    set_member(&mut hooks, "PreToolUse", Json::Array(entries));
    let mut taken = Json::Null;
    std::mem::swap(config, &mut taken);
    match taken {
        Json::Object(mut members) => {
            set_member(&mut members, "hooks", Json::Object(hooks));
            *config = Json::Object(members);
        },
        _ => {},
    }
}

/// Whether a hook entry can be put into a configuration.
pub fn accepts_hooks(config: &Json) -> (r: bool)
    ensures
        r == takes_hooks(config@),
{
    match config {
        Json::Object(_) => {},
        _ => {
            return false;
        },
    }
    match config.get("hooks") {
        None => true,
        Some(hooks) => match hooks {
            Json::Object(_) => match hooks.get("PreToolUse") {
                None => true,
                Some(entries) => match entries {
                    Json::Array(_) => true,
                    _ => false,
                },
            },
            _ => false,
        },
    }
}

/// Merges the managed `PreToolUse` hook entry into a configuration; `true` if
/// that changed it.
///
/// All existing keys stay; an entry with the same command is not added again.
pub fn merge_hook_entry(value: &mut Json, exe_path: &str, matcher: &str) -> (r: bool)
    requires
        takes_hooks(old(value)@),
    ensures
        final(value)@ == hook_merged(old(value)@, exe_path@, matcher@),
        r == !any_entry_runs(hook_entries(old(value)@), hook_command(exe_path@)),
{
    let mut entries = copy_hook_entries(value);
    let command = our_hook_command(exe_path);
    if any_runs_command(entries.as_slice(), command.as_str()) {
        return false;
    }
    let entry = hook_entry(exe_path, matcher);
    proof {
        json::lemma_values_push(entries@, entry);
    }
    entries.push(entry);
    set_hook_entries(value, entries);
    true
}

/// Removes the managed hook entry from a configuration; `true` if it was there.
pub fn remove_hook_entry(value: &mut Json, exe_path: &str) -> (r: bool)
    ensures
        final(value)@ == hook_removed(old(value)@, exe_path@),
        r == any_entry_runs(hook_entries(old(value)@), hook_command(exe_path@)),
{
    let entries = copy_hook_entries(value);
    let command = our_hook_command(exe_path);
    if !any_runs_command(entries.as_slice(), command.as_str()) {
        return false;
    }
    let ghost all = json::values_of(entries@);
    let mut kept: Vec<Json> = Vec::new();
    let mut i: usize = 0;
    proof {
        json::lemma_values_at(entries@);
        assert(all.take(0) =~= seq![]);
        assert(json::values_of(kept@) =~= seq![]);
    }
    while i < entries.len()
        invariant
            i <= entries@.len(),
            all == json::values_of(entries@),
            all.len() == entries@.len(),
            command@ == hook_command(exe_path@),
            forall|k: int| 0 <= k < entries@.len() ==> #[trigger] all[k] == entries@[k]@,
            json::values_of(kept@) == others(all.take(i as int), command@),
        decreases entries.len() - i,
    {
        proof {
            assert(all.take(i + 1).drop_last() =~= all.take(i as int));
            assert(all.take(i + 1).last() == all[i as int]);
        }
        if !runs_command(&entries[i], command.as_str()) {
            let entry = entries[i].copy();
            proof {
                json::lemma_values_push(kept@, entry);
            }
            kept.push(entry);
        }
        i += 1;
    }
    proof {
        assert(all.take(i as int) =~= all);
        // Only an object has entries.
        assert(value@ is Object);
    }
    set_hook_entries(value, kept);
    true
}

// ── MCP registration ─────────────────────────────────────────────────────────

/// The entry that registers the executable as an MCP server.
pub open spec fn mcp_entry_of(exe: Seq<char>) -> JsonV {
    JsonV::Object(
        seq![
            ("command"@, JsonV::Text(exe)),
            ("args"@, JsonV::Array(seq![JsonV::Text("mcp"@)])),
        ],
    )
}

/// Whether a server can be registered in a configuration: it is an object, and
/// `mcpServers` is one, if it is there.
pub open spec fn takes_servers(config: JsonV) -> bool {
    config is Object && object_or_absent(config, "mcpServers"@)
}

/// Whether a server runs the executable with the arguments of the entry.
pub open spec fn is_mcp_entry(server: JsonV, exe: Seq<char>) -> bool {
    &&& json::get_text(server, "command"@) == Some(exe)
    &&& json::get(server, "args"@) == Some(JsonV::Array(seq![JsonV::Text("mcp"@)]))
}

/// Whether the executable is registered.
pub open spec fn registered(config: JsonV, exe: Seq<char>) -> bool {
    match json::member(members_at(config, "mcpServers"@), "tack"@) {
        Some(server) => is_mcp_entry(server, exe),
        None => false,
    }
}

/// The configuration with the executable registered.
pub open spec fn mcp_registered(config: JsonV, exe: Seq<char>) -> JsonV {
    if registered(config, exe) {
        config
    } else {
        let servers = json::with_member(members_at(config, "mcpServers"@), "tack"@, mcp_entry_of(exe));
        JsonV::Object(json::with_member(config->Object_0, "mcpServers"@, JsonV::Object(servers)))
    }
}

/// The configuration without the registration.
pub open spec fn mcp_unregistered(config: JsonV) -> JsonV {
    if json::member(members_at(config, "mcpServers"@), "tack"@) is Some {
        let servers = json::without_member(members_at(config, "mcpServers"@), "tack"@);
        JsonV::Object(json::with_member(config->Object_0, "mcpServers"@, JsonV::Object(servers)))
    } else {
        config
    }
}

proof fn lemma_entry_is_entry(exe: Seq<char>)
    ensures
        is_mcp_entry(mcp_entry_of(exe), exe),
{
    reveal_strlit("command");
    reveal_strlit("args");
    assert("command"@.len() != "args"@.len());
    let members = mcp_entry_of(exe)->Object_0;
    assert(members.skip(1)[0].0 == "args"@);
    reveal_with_fuel(json::member, 3);
}

/// A configuration that was registered in is registered in, and no other key
/// changes.
pub proof fn lemma_registering_registers(config: JsonV, exe: Seq<char>)
    requires
        takes_servers(config),
    ensures
        registered(mcp_registered(config, exe), exe),
        mcp_registered(mcp_registered(config, exe), exe) == mcp_registered(config, exe),
        forall|key: Seq<char>|
            key != "mcpServers"@ ==> #[trigger] json::get(mcp_registered(config, exe), key) == json::get(
                config,
                key,
            ),
{
    if !registered(config, exe) {
        lemma_entry_is_entry(exe);
        let members = config->Object_0;
        let old_servers = members_at(config, "mcpServers"@);
        let servers = json::with_member(old_servers, "tack"@, mcp_entry_of(exe));
        json::lemma_with_member(old_servers, "tack"@, mcp_entry_of(exe), "tack"@);
        json::lemma_with_member(members, "mcpServers"@, JsonV::Object(servers), "mcpServers"@);
        assert forall|key: Seq<char>| key != "mcpServers"@ implies #[trigger] json::get(
            mcp_registered(config, exe),
            key,
        ) == json::get(config, key) by {
            json::lemma_with_member(members, "mcpServers"@, JsonV::Object(servers), key);
        }
    }
}

/// Taking the registration out undoes a registration in a configuration that has
/// an object of servers without it.
pub proof fn lemma_unregister_undoes_register(config: JsonV, exe: Seq<char>)
    requires
        takes_servers(config),
        json::get(config, "mcpServers"@) is Some,
        json::member(members_at(config, "mcpServers"@), "tack"@) is None,
    ensures
        mcp_unregistered(mcp_registered(config, exe)) == config,
{
    let members = config->Object_0;
    let servers = members_at(config, "mcpServers"@);
    let more = json::with_member(servers, "tack"@, mcp_entry_of(exe));
    json::lemma_with_member(servers, "tack"@, mcp_entry_of(exe), "tack"@);
    json::lemma_with_member(members, "mcpServers"@, JsonV::Object(more), "mcpServers"@);
    json::lemma_without_new_member(servers, "tack"@, mcp_entry_of(exe));
    json::lemma_with_member_twice(
        members,
        "mcpServers"@,
        JsonV::Object(more),
        JsonV::Object(servers),
    );
    json::lemma_with_same_member(members, "mcpServers"@);
}

/// The entry that registers the executable as an MCP server.
fn mcp_entry(exe_path: &str) -> (r: Json)
    ensures
        r@ == mcp_entry_of(exe_path@),
{
    let mut args: Vec<Json> = Vec::new();
    let arg = Json::text("mcp");
    proof {
        json::lemma_values_push(args@, arg);
    }
    args.push(arg);
    let ghost arg_values = json::values_of(args@);
    let mut entry: Vec<(String, Json)> = Vec::new();
    add_text(&mut entry, "command", exe_path);
    add_member(&mut entry, "args", Json::Array(args));
    proof {
        assert(arg_values =~= seq![JsonV::Text("mcp"@)]);
        assert(json::members_of(entry@) =~= seq![
            ("command"@, JsonV::Text(exe_path@)),
            ("args"@, JsonV::Array(arg_values)),
        ]);
    }
    Json::Object(entry)
}

/// Whether a server can be registered in a configuration.
pub fn accepts_servers(config: &Json) -> (r: bool)
    ensures
        r == takes_servers(config@),
{
    match config {
        Json::Object(_) => {},
        _ => {
            return false;
        },
    }
    match config.get("mcpServers") {
        None => true,
        Some(servers) => match servers {
            Json::Object(_) => true,
            _ => false,
        },
    }
}

/// Sets the servers of a configuration.
fn set_servers(config: &mut Json, servers: Vec<(String, Json)>)
    requires
        old(config)@ is Object,
    ensures
        final(config)@ == JsonV::Object(
            json::with_member(
                old(config)@->Object_0,
                "mcpServers"@,
                JsonV::Object(json::members_of(servers@)),
            ),
        ),
{
    let mut taken = Json::Null;
    std::mem::swap(config, &mut taken);
    match taken {
        Json::Object(mut members) => {
            set_member(&mut members, "mcpServers", Json::Object(servers));
            *config = Json::Object(members);
        },
        _ => {},
    }
}

/// Whether a server runs the executable with the arguments of the entry.
fn runs_mcp(server: &Json, exe_path: &str) -> (r: bool)
    ensures
        r == is_mcp_entry(server@, exe_path@),
{
    let same_command = match server.get_str("command") {
        Some(command) => same_text(command, exe_path),
        None => false,
    };
    if !same_command {
        return false;
    }
    let args = match server.get("args") {
        Some(args) => args,
        None => {
            return false;
        },
    };
    match args.as_array() {
        Some(items) => {
            proof {
                json::lemma_values_at(items@);
            }
            if items.len() != 1 {
                return false;
            }
            let ghost values = json::values_of(items@);
            assert(values[0] == items@[0]@);
            match items[0].as_str() {
                Some(arg) => {
                    assert(values =~= seq![JsonV::Text(arg@)]);
                    if same_text(arg, "mcp") {
                        true
                    } else {
                        assert(seq![JsonV::Text(arg@)][0] != seq![JsonV::Text("mcp"@)][0]);
                        false
                    }
                },
                None => {
                    assert(values[0] != seq![JsonV::Text("mcp"@)][0]);
                    false
                },
            }
        },
        None => false,
    }
}

/// Registers the executable; `true` if that changed the configuration.
pub fn register_mcp(config: &mut Json, exe_path: &str) -> (r: bool)
    requires
        takes_servers(old(config)@),
    ensures
        final(config)@ == mcp_registered(old(config)@, exe_path@),
        r == !registered(old(config)@, exe_path@),
{
    let mut servers = copy_members_at(config, "mcpServers");
    let mut probe = copy_members_at(config, "mcpServers");
    match take_member(&mut probe, "tack") {
        Some(server) => {
            if runs_mcp(&server, exe_path) {
                return false;
            }
        },
        None => {},
    }
    set_member(&mut servers, "tack", mcp_entry(exe_path));
    set_servers(config, servers);
    true
}

/// Takes the registration out; `true` if there was one.
pub fn unregister_mcp(config: &mut Json) -> (r: bool)
    ensures
        final(config)@ == mcp_unregistered(old(config)@),
        r == (json::member(members_at(old(config)@, "mcpServers"@), "tack"@) is Some),
{
    let mut servers = copy_members_at(config, "mcpServers");
    match take_member(&mut servers, "tack") {
        Some(_) => {
            // Only an object has servers.
            assert(config@ is Object);
            set_servers(config, servers);
            true
        },
        None => false,
    }
}

/// The `codex mcp add` command line for the user to run.
pub fn codex_mcp_add_hint(exe_path: &str) -> (r: String)
    ensures
        r@ == "codex mcp add tack -- \""@ + exe_path@
            + "\" mcp\nnote: Codex MCP servers are configured globally via `codex mcp`."@,
{
    text3(
        "codex mcp add tack -- \"",
        exe_path,
        "\" mcp\nnote: Codex MCP servers are configured globally via `codex mcp`.",
    )
}

/// The `codex mcp remove` hint for uninstall.
pub fn codex_mcp_remove_hint() -> (r: &'static str)
    ensures
        r@
            == "codex mcp remove tack\nnote: Codex MCP servers are configured globally via `codex mcp`."@,
{
    "codex mcp remove tack\nnote: Codex MCP servers are configured globally via `codex mcp`."
}

// ── edits ────────────────────────────────────────────────────────────────────

/// What is to be done with a file, and what is said about it.
#[derive(Debug, PartialEq, Eq)]
pub enum Edit {
    /// The file stays.
    Keep(String),
    /// The file would change, but nothing is to be written.
    Preview(String),
    /// The file is to be written.
    Write(String),
}

/// What is to be done with a file.
pub enum EditV {
    Keep(Seq<char>),
    Preview(Seq<char>),
    Write(Seq<char>),
}

impl View for Edit {
    type V = EditV;

    open spec fn view(&self) -> EditV {
        match *self {
            Edit::Keep(s) => EditV::Keep(s@),
            Edit::Preview(s) => EditV::Preview(s@),
            Edit::Write(s) => EditV::Write(s@),
        }
    }
}

/// The edit of a file that changes or not, in a dry run or not.
pub open spec fn edit_of(
    changed: bool,
    dry_run: bool,
    keep: Seq<char>,
    preview: Seq<char>,
    write: Seq<char>,
) -> EditV {
    if !changed {
        EditV::Keep(keep)
    } else if dry_run {
        EditV::Preview(preview)
    } else {
        EditV::Write(write)
    }
}

/// The edit of a file that changes or not, in a dry run or not.
fn edit(changed: bool, dry_run: bool, keep: String, preview: String, write: String) -> (r: Edit)
    ensures
        r@ == edit_of(changed, dry_run, keep@, preview@, write@),
{
    if !changed {
        Edit::Keep(keep)
    } else if dry_run {
        Edit::Preview(preview)
    } else {
        Edit::Write(write)
    }
}

/// The edit of a file that gets the instruction block.
pub open spec fn block_added(
    existing: Seq<char>,
    path: Seq<char>,
    label: Seq<char>,
    dry_run: bool,
) -> EditV {
    edit_of(
        upserted(existing, instruction_block()) != existing,
        dry_run,
        label + ": "@ + path + ": no change needed"@,
        label + ": would write instruction block to "@ + path,
        label + ": wrote instruction block to "@ + path,
    )
}

/// Puts the instruction block into a file with the content `existing` (empty if
/// there is no file): the edit, and the new content.
pub fn write_instruction_block(
    existing: &str,
    file_path: &str,
    agent_label: &str,
    dry_run: bool,
) -> (r: (Edit, String))
    ensures
        r.1@ == upserted(existing@, instruction_block()),
        r.0@ == block_added(existing@, file_path@, agent_label@, dry_run),
{
    let block = instruction_block_content();
    let updated = upsert_block(existing, block.as_str());
    let changed = !same_text(updated.as_str(), existing);
    let e = edit(
        changed,
        dry_run,
        text4(agent_label, ": ", file_path, ": no change needed"),
        text3(agent_label, ": would write instruction block to ", file_path),
        text3(agent_label, ": wrote instruction block to ", file_path),
    );
    (e, updated)
}

/// An empty text.
fn no_text() -> (r: String)
    ensures
        r@ == Seq::<char>::empty(),
{
    let none = String::new();
    assert(none@ =~= seq![]);
    none
}

/// The edit of a file that loses the instruction block, and what it holds then.
pub open spec fn block_dropped(
    existing: Option<&str>,
    path: Seq<char>,
    label: Seq<char>,
    dry_run: bool,
) -> (EditV, Seq<char>) {
    match existing {
        None => (EditV::Keep(label + ": "@ + path + " not found, skipped"@), seq![]),
        Some(text) => (
            edit_of(
                removed(text@) != text@,
                dry_run,
                label + ": no managed block found in "@ + path,
                label + ": would remove instruction block from "@ + path,
                label + ": removed instruction block from "@ + path,
            ),
            removed(text@),
        ),
    }
}

/// Takes the instruction block out of a file, if there is one: the edit, and the
/// new content.
pub fn remove_instruction_block(
    existing: Option<&str>,
    file_path: &str,
    agent_label: &str,
    dry_run: bool,
) -> (r: (Edit, String))
    ensures
        (r.0@, r.1@) == block_dropped(existing, file_path@, agent_label@, dry_run),
{
    match existing {
        None => (
            Edit::Keep(text4(agent_label, ": ", file_path, " not found, skipped")),
            no_text(),
        ),
        Some(text) => {
            let updated = remove_block(text);
            let changed = !same_text(updated.as_str(), text);
            let e = edit(
                changed,
                dry_run,
                text3(agent_label, ": no managed block found in ", file_path),
                text3(agent_label, ": would remove instruction block from ", file_path),
                text3(agent_label, ": removed instruction block from ", file_path),
            );
            (e, updated)
        },
    }
}

/// The edit of a configuration that gets the hook entry.
pub open spec fn hook_added(
    config: JsonV,
    path: Seq<char>,
    exe: Seq<char>,
    matcher: Seq<char>,
    label: Seq<char>,
    dry_run: bool,
) -> EditV {
    edit_of(
        !any_entry_runs(hook_entries(config), hook_command(exe)),
        dry_run,
        label + ": hook config "@ + path + ": no change needed"@,
        label + ": would write hook config to "@ + path + ":\n"@ + json::rendered_pretty(
            hook_merged(config, exe, matcher),
        ),
        label + ": wrote hook entry to "@ + path,
    )
}

/// Puts the hook entry into a configuration.
pub fn add_hooks(
    config: &mut Json,
    config_path: &str,
    exe_path: &str,
    matcher: &str,
    agent_label: &str,
    dry_run: bool,
) -> (r: Edit)
    requires
        takes_hooks(old(config)@),
    ensures
        final(config)@ == hook_merged(old(config)@, exe_path@, matcher@),
        r@ == hook_added(
            old(config)@,
            config_path@,
            exe_path@,
            matcher@,
            agent_label@,
            dry_run,
        ),
{
    let changed = merge_hook_entry(config, exe_path, matcher);
    let mut preview = text4(agent_label, ": would write hook config to ", config_path, ":\n");
    append_text(&mut preview, render_pretty(config).as_str());
    edit(
        changed,
        dry_run,
        text4(agent_label, ": hook config ", config_path, ": no change needed"),
        preview,
        text3(agent_label, ": wrote hook entry to ", config_path),
    )
}

/// The edit of a configuration that loses the hook entry.
pub open spec fn hook_dropped(
    config: JsonV,
    path: Seq<char>,
    exe: Seq<char>,
    label: Seq<char>,
    dry_run: bool,
) -> EditV {
    edit_of(
        any_entry_runs(hook_entries(config), hook_command(exe)),
        dry_run,
        label + ": no managed hook found in "@ + path,
        label + ": would remove hook entry from "@ + path,
        label + ": removed hook entry from "@ + path,
    )
}

/// Takes the hook entry out of a configuration.
pub fn drop_hooks(
    config: &mut Json,
    config_path: &str,
    exe_path: &str,
    agent_label: &str,
    dry_run: bool,
) -> (r: Edit)
    ensures
        final(config)@ == hook_removed(old(config)@, exe_path@),
        r@ == hook_dropped(old(config)@, config_path@, exe_path@, agent_label@, dry_run),
{
    let changed = remove_hook_entry(config, exe_path);
    edit(
        changed,
        dry_run,
        text3(agent_label, ": no managed hook found in ", config_path),
        text3(agent_label, ": would remove hook entry from ", config_path),
        text3(agent_label, ": removed hook entry from ", config_path),
    )
}

/// The edit of a configuration in which the MCP server is registered.
pub open spec fn server_added(
    config: JsonV,
    label: Seq<char>,
    path: Seq<char>,
    exe: Seq<char>,
    dry_run: bool,
) -> EditV {
    edit_of(
        !registered(config, exe),
        dry_run,
        label + " (MCP): "@ + path + ": no change needed"@,
        label + " (MCP): would write "@ + path + " with:\n"@ + json::rendered_pretty(
            mcp_registered(config, exe),
        ),
        label + " (MCP): wrote tack MCP entry to "@ + path,
    )
}

/// Registers the MCP server in a configuration.
pub fn add_server(
    config: &mut Json,
    agent_label: &str,
    mcp_json_path: &str,
    exe_path: &str,
    dry_run: bool,
) -> (r: Edit)
    requires
        takes_servers(old(config)@),
    ensures
        final(config)@ == mcp_registered(old(config)@, exe_path@),
        r@ == server_added(old(config)@, agent_label@, mcp_json_path@, exe_path@, dry_run),
{
    let changed = register_mcp(config, exe_path);
    let mut preview = text4(agent_label, " (MCP): would write ", mcp_json_path, " with:\n");
    append_text(&mut preview, render_pretty(config).as_str());
    edit(
        changed,
        dry_run,
        text4(agent_label, " (MCP): ", mcp_json_path, ": no change needed"),
        preview,
        text3(agent_label, " (MCP): wrote tack MCP entry to ", mcp_json_path),
    )
}

/// The edit of a configuration that loses the MCP server.
pub open spec fn server_dropped(
    config: JsonV,
    label: Seq<char>,
    path: Seq<char>,
    dry_run: bool,
) -> EditV {
    edit_of(
        json::member(members_at(config, "mcpServers"@), "tack"@) is Some,
        dry_run,
        label + " (MCP): no tack entry in "@ + path,
        label + " (MCP): would remove tack entry from "@ + path,
        label + " (MCP): removed tack entry from "@ + path,
    )
}

/// Takes the MCP server out of a configuration.
pub fn drop_server(config: &mut Json, agent_label: &str, mcp_json_path: &str, dry_run: bool) -> (r:
    Edit)
    ensures
        final(config)@ == mcp_unregistered(old(config)@),
        r@ == server_dropped(old(config)@, agent_label@, mcp_json_path@, dry_run),
{
    let changed = unregister_mcp(config);
    edit(
        changed,
        dry_run,
        text3(agent_label, " (MCP): no tack entry in ", mcp_json_path),
        text3(agent_label, " (MCP): would remove tack entry from ", mcp_json_path),
        text3(agent_label, " (MCP): removed tack entry from ", mcp_json_path),
    )
}

// ── configuration files ──────────────────────────────────────────────────────

/// What is to be done with a configuration file.
#[derive(Debug, PartialEq, Eq)]
pub enum ConfigEdit {
    /// The file holds no JSON, for the given reason.
    Invalid(String),
    /// The configuration has no place for the entry.
    Refused,
    /// The edit, and what the file is to hold where it is written.
    Edited(Edit, String),
}

/// What is to be done with a configuration file.
pub enum ConfigEditV {
    Invalid(Seq<char>),
    Refused,
    Edited(EditV, Seq<char>),
}

impl View for ConfigEdit {
    type V = ConfigEditV;

    open spec fn view(&self) -> ConfigEditV {
        match *self {
            ConfigEdit::Invalid(reason) => ConfigEditV::Invalid(reason@),
            ConfigEdit::Refused => ConfigEditV::Refused,
            ConfigEdit::Edited(edit, content) => ConfigEditV::Edited(edit@, content@),
        }
    }
}

/// The configuration in a file: `{}` if there is no file.
pub open spec fn config_in(text: Option<&str>) -> Result<JsonV, Seq<char>> {
    match text {
        Some(text) => json::parsed_json(text@),
        None => Ok(JsonV::Object(seq![])),
    }
}

/// Reads the configuration in a file.
fn read_config(text: Option<&str>) -> (r: Result<Json, String>)
    ensures
        match r {
            Ok(config) => config_in(text) == Ok::<JsonV, Seq<char>>(config@),
            Err(reason) => config_in(text) == Err::<JsonV, Seq<char>>(reason@),
        },
{
    match text {
        Some(text) => parse_json(text),
        None => Ok(Json::empty_object()),
    }
}

/// What becomes of a configuration file that gets the hook entry.
pub open spec fn hook_file_written(
    existing: Option<&str>,
    path: Seq<char>,
    exe: Seq<char>,
    matcher: Seq<char>,
    label: Seq<char>,
    dry_run: bool,
) -> ConfigEditV {
    match config_in(existing) {
        Err(reason) => ConfigEditV::Invalid(reason),
        Ok(config) => if takes_hooks(config) {
            ConfigEditV::Edited(
                hook_added(
                    config,
                    path,
                    exe,
                    matcher,
                    label,
                    dry_run,
                ),
                json::rendered_pretty(hook_merged(config, exe, matcher)),
            )
        } else {
            ConfigEditV::Refused
        },
    }
}

/// Puts the hook entry into a configuration file, which holds `existing`.
pub fn write_hook_config(
    existing: Option<&str>,
    config_path: &str,
    exe_path: &str,
    matcher: &str,
    agent_label: &str,
    dry_run: bool,
) -> (r: ConfigEdit)
    ensures
        r@ == hook_file_written(existing, config_path@, exe_path@, matcher@, agent_label@, dry_run),
{
    match read_config(existing) {
        Err(reason) => ConfigEdit::Invalid(reason),
        Ok(config) => {
            let mut config = config;
            if !accepts_hooks(&config) {
                return ConfigEdit::Refused;
            }
            let edit = add_hooks(
                &mut config,
                config_path,
                exe_path,
                matcher,
                agent_label,
                dry_run,
            );
            ConfigEdit::Edited(edit, render_pretty(&config))
        },
    }
}

/// What becomes of a configuration file that loses the hook entry.
pub open spec fn hook_file_cleared(
    existing: Option<&str>,
    path: Seq<char>,
    exe: Seq<char>,
    label: Seq<char>,
    dry_run: bool,
) -> ConfigEditV {
    match existing {
        None => ConfigEditV::Edited(
            EditV::Keep(label + ": "@ + path + " not found, skipped"@),
            seq![],
        ),
        Some(text) => match json::parsed_json(text@) {
            Err(reason) => ConfigEditV::Invalid(reason),
            Ok(config) => ConfigEditV::Edited(
                hook_dropped(config, path, exe, label, dry_run),
                json::rendered_pretty(hook_removed(config, exe)),
            ),
        },
    }
}

/// Takes the hook entry out of a configuration file, which holds `existing`, if
/// there is a file.
pub fn remove_hook_config(
    existing: Option<&str>,
    config_path: &str,
    exe_path: &str,
    agent_label: &str,
    dry_run: bool,
) -> (r: ConfigEdit)
    ensures
        r@ == hook_file_cleared(existing, config_path@, exe_path@, agent_label@, dry_run),
{
    let text = match existing {
        Some(text) => text,
        None => {
            let message = text4(agent_label, ": ", config_path, " not found, skipped");
            let none = String::new();
            assert(none@ =~= seq![]);
            return ConfigEdit::Edited(Edit::Keep(message), none);
        },
    };
    match parse_json(text) {
        Err(reason) => ConfigEdit::Invalid(reason),
        Ok(config) => {
            let mut config = config;
            let edit = drop_hooks(&mut config, config_path, exe_path, agent_label, dry_run);
            ConfigEdit::Edited(edit, render_pretty(&config))
        },
    }
}

/// What becomes of a configuration file in which the MCP server is registered.
pub open spec fn server_file_written(
    existing: Option<&str>,
    label: Seq<char>,
    path: Seq<char>,
    exe: Seq<char>,
    dry_run: bool,
) -> ConfigEditV {
    match config_in(existing) {
        Err(reason) => ConfigEditV::Invalid(reason),
        Ok(config) => if takes_servers(config) {
            ConfigEditV::Edited(
                server_added(config, label, path, exe, dry_run),
                json::rendered_pretty(mcp_registered(config, exe)),
            )
        } else {
            ConfigEditV::Refused
        },
    }
}

/// Registers the MCP server in a configuration file, which holds `existing`.
pub fn write_mcp_json(
    existing: Option<&str>,
    agent_label: &str,
    mcp_json_path: &str,
    exe_path: &str,
    dry_run: bool,
) -> (r: ConfigEdit)
    ensures
        r@ == server_file_written(existing, agent_label@, mcp_json_path@, exe_path@, dry_run),
{
    match read_config(existing) {
        Err(reason) => ConfigEdit::Invalid(reason),
        Ok(config) => {
            let mut config = config;
            if !accepts_servers(&config) {
                return ConfigEdit::Refused;
            }
            let edit = add_server(&mut config, agent_label, mcp_json_path, exe_path, dry_run);
            ConfigEdit::Edited(edit, render_pretty(&config))
        },
    }
}

/// What becomes of a configuration file that loses the MCP server.
pub open spec fn server_file_cleared(
    existing: Option<&str>,
    label: Seq<char>,
    path: Seq<char>,
    dry_run: bool,
) -> ConfigEditV {
    match existing {
        None => ConfigEditV::Edited(
            EditV::Keep(label + " (MCP): "@ + path + " not found, skipped"@),
            seq![],
        ),
        Some(text) => match json::parsed_json(text@) {
            Err(reason) => ConfigEditV::Invalid(reason),
            Ok(config) => ConfigEditV::Edited(
                server_dropped(config, label, path, dry_run),
                json::rendered_pretty(mcp_unregistered(config)),
            ),
        },
    }
}

/// Takes the MCP server out of a configuration file, which holds `existing`, if
/// there is a file.
pub fn remove_mcp_json(
    existing: Option<&str>,
    agent_label: &str,
    mcp_json_path: &str,
    dry_run: bool,
) -> (r: ConfigEdit)
    ensures
        r@ == server_file_cleared(existing, agent_label@, mcp_json_path@, dry_run),
{
    let text = match existing {
        Some(text) => text,
        None => {
            let message = text4(agent_label, " (MCP): ", mcp_json_path, " not found, skipped");
            let none = String::new();
            assert(none@ =~= seq![]);
            return ConfigEdit::Edited(Edit::Keep(message), none);
        },
    };
    match parse_json(text) {
        Err(reason) => ConfigEdit::Invalid(reason),
        Ok(config) => {
            let mut config = config;
            let edit = drop_server(&mut config, agent_label, mcp_json_path, dry_run);
            ConfigEdit::Edited(edit, render_pretty(&config))
        },
    }
}

// ── the repository ───────────────────────────────────────────────────────────

/// What is to be done where there is no repository.
#[derive(Debug, Clone, Copy, PartialEq, Eq)]
pub enum MissingRepository {
    /// The command fails.
    Fail,
    /// A repository is created.
    Create,
    /// Nothing is written: the changes to the directory are only shown.
    Show,
}

/// What is done where there is no repository.
pub open spec fn without_repository(uninstall: bool, dry_run: bool) -> MissingRepository {
    if uninstall {
        MissingRepository::Fail
    } else if dry_run {
        MissingRepository::Show
    } else {
        MissingRepository::Create
    }
}

/// What an install or uninstall does where there is no repository: there is
/// nothing to uninstall, and a dry run writes no files.
pub fn missing_repository(uninstall: bool, dry_run: bool) -> (r: MissingRepository)
    ensures
        r == without_repository(uninstall, dry_run),
{
    if uninstall {
        MissingRepository::Fail
    } else if dry_run {
        MissingRepository::Show
    } else {
        MissingRepository::Create
    }
}

// ── PATH shim ────────────────────────────────────────────────────────────────

/// What is known of the machine where a PATH shim may be written.
#[derive(Debug, Clone)]
pub struct ShimFacts {
    /// Whether a bare `tack` can be found on `PATH`.
    pub on_path: bool,
    /// Whether this is Windows.
    pub windows: bool,
    /// Whether the home directory is known.
    pub has_profile: bool,
    /// The directory the shim goes to.
    pub cargo_bin: String,
    /// Whether that directory is there.
    pub cargo_bin_is_dir: bool,
    /// The file the shim goes to.
    pub shim_path: String,
    /// What that file holds, if it is there.
    pub shim_content: Option<String>,
    /// The executable.
    pub exe_path: String,
    /// The directory of the executable, if it has one.
    pub exe_dir: Option<String>,
}

/// What is to be done about the PATH shim.
#[derive(Debug, PartialEq, Eq)]
pub enum Shim {
    /// Nothing, and nothing is said.
    Nothing,
    /// Nothing but a note.
    Note(String),
    /// The shim is to be written.
    Write {
        /// What it is to hold.
        content: String,
        /// What is said once it is written.
        message: String,
    },
    /// The shim is to be removed.
    Remove {
        /// What is said once it is removed.
        message: String,
    },
}

/// What is to be done about the PATH shim.
pub enum ShimV {
    Nothing,
    Note(Seq<char>),
    Write { content: Seq<char>, message: Seq<char> },
    Remove { message: Seq<char> },
}

impl View for Shim {
    type V = ShimV;

    open spec fn view(&self) -> ShimV {
        match *self {
            Shim::Nothing => ShimV::Nothing,
            Shim::Note(s) => ShimV::Note(s@),
            Shim::Write { content, message } => ShimV::Write {
                content: content@,
                message: message@,
            },
            Shim::Remove { message } => ShimV::Remove { message: message@ },
        }
    }
}

/// The directory to add to `PATH`.
pub open spec fn exe_place(facts: ShimFacts) -> Seq<char> {
    match facts.exe_dir {
        Some(dir) => dir@,
        None => facts.exe_path@,
    }
}

/// What the shim holds.
pub open spec fn shim_text(exe: Seq<char>) -> Seq<char> {
    "@echo off\r\n\""@ + exe + "\" %*\r\n"@
}

/// What is done to have `tack` on `PATH`: on Windows a shim is written to the
/// cargo directory, if there is one; elsewhere the user is told.
pub open spec fn shim_wanted(facts: ShimFacts, dry_run: bool) -> ShimV {
    if facts.on_path {
        ShimV::Nothing
    } else if !facts.windows {
        ShimV::Note("note: tack not found on PATH — add "@ + exe_place(facts) + " to PATH"@)
    } else if !facts.has_profile {
        ShimV::Note("note: USERPROFILE not set; add the tack exe directory to PATH manually"@)
    } else if !facts.cargo_bin_is_dir {
        ShimV::Note(
            "note: "@ + facts.cargo_bin@ + " does not exist; add "@ + exe_place(facts)
                + " to PATH manually"@,
        )
    } else if dry_run {
        ShimV::Note(
            "would write PATH shim: "@ + facts.shim_path@ + "\n  contents: @echo off / \""@
                + facts.exe_path@ + "\" %*"@,
        )
    } else {
        ShimV::Write {
            content: shim_text(facts.exe_path@),
            message: "wrote PATH shim: "@ + facts.shim_path@,
        }
    }
}

/// What is done about a shim on uninstall: it is removed if it names the
/// executable.
pub open spec fn shim_unwanted(facts: ShimFacts, dry_run: bool) -> ShimV {
    match facts.shim_content {
        Some(content) => if facts.windows && facts.has_profile && text::occurs_in(
            content@,
            facts.exe_path@,
        ) {
            if dry_run {
                ShimV::Note("would remove PATH shim: "@ + facts.shim_path@)
            } else {
                ShimV::Remove { message: "removed PATH shim: "@ + facts.shim_path@ }
            }
        } else {
            ShimV::Nothing
        },
        None => ShimV::Nothing,
    }
}

/// The directory to add to `PATH`.
fn place_of_exe(facts: &ShimFacts) -> (r: &str)
    ensures
        r@ == exe_place(*facts),
{
    match &facts.exe_dir {
        Some(dir) => dir.as_str(),
        None => facts.exe_path.as_str(),
    }
}

/// Decides on a `tack.cmd` shim in the cargo directory (ASCII, CRLF, no BOM), or
/// on what to tell the user.
pub fn ensure_path_shim(facts: &ShimFacts, dry_run: bool) -> (r: Shim)
    ensures
        r@ == shim_wanted(*facts, dry_run),
{
    if facts.on_path {
        return Shim::Nothing;
    }
    let place = place_of_exe(facts);
    if !facts.windows {
        return Shim::Note(text3("note: tack not found on PATH — add ", place, " to PATH"));
    }
    if !facts.has_profile {
        return Shim::Note(
            "note: USERPROFILE not set; add the tack exe directory to PATH manually".to_owned(),
        );
    }
    if !facts.cargo_bin_is_dir {
        let mut note = text4("note: ", facts.cargo_bin.as_str(), " does not exist; add ", place);
        append_text(&mut note, " to PATH manually");
        return Shim::Note(note);
    }
    if dry_run {
        let mut note = text4(
            "would write PATH shim: ",
            facts.shim_path.as_str(),
            "\n  contents: @echo off / \"",
            facts.exe_path.as_str(),
        );
        append_text(&mut note, "\" %*");
        return Shim::Note(note);
    }
    Shim::Write {
        content: text3("@echo off\r\n\"", facts.exe_path.as_str(), "\" %*\r\n"),
        message: text2("wrote PATH shim: ", facts.shim_path.as_str()),
    }
}

/// Decides whether the shim is to be removed: only one that names the executable
/// is ours.
pub fn remove_path_shim(facts: &ShimFacts, dry_run: bool) -> (r: Shim)
    ensures
        r@ == shim_unwanted(*facts, dry_run),
{
    if !facts.windows || !facts.has_profile {
        return Shim::Nothing;
    }
    let content = match &facts.shim_content {
        Some(content) => content,
        None => {
            return Shim::Nothing;
        },
    };
    let hay = chars_of(content.as_str());
    let needle = chars_of(facts.exe_path.as_str());
    match find(hay.as_slice(), needle.as_slice()) {
        Some(at) => {
            assert(text::occurs_at(hay@, needle@, at as int));
            if dry_run {
                Shim::Note(text2("would remove PATH shim: ", facts.shim_path.as_str()))
            } else {
                Shim::Remove {
                    message: text2("removed PATH shim: ", facts.shim_path.as_str()),
                }
            }
        },
        None => Shim::Nothing,
    }
}

// ── targets and steps ────────────────────────────────────────────────────────

/// Which AI agents to configure.
#[derive(Debug, Clone, Copy, PartialEq, Eq)]
pub struct Targets {
    /// The agent that reads its own instruction file.
    pub claude: bool,
    /// The agent that reads `AGENTS.md`.
    pub codex: bool,
}

/// Options of `tack install`.
#[derive(Debug, Clone, Copy, PartialEq, Eq)]
pub struct InstallOptions {
    /// Configure the agent that reads its own instruction file (default: both
    /// when neither flag is set).
    pub claude: bool,
    /// Configure the agent that reads `AGENTS.md` (default: both when neither
    /// flag is set).
    pub codex: bool,
    /// Print planned changes without writing any files.
    pub dry_run: bool,
    /// Remove the managed instruction block and hook entries.
    pub uninstall: bool,
    /// Also register tack as an MCP server.
    pub with_mcp: bool,
}

/// The agents that the flags stand for.
pub open spec fn targets_of(claude: bool, codex: bool) -> Targets {
    if claude || codex {
        Targets { claude, codex }
    } else {
        Targets { claude: true, codex: true }
    }
}

impl Targets {
    /// Builds a `Targets` from the flags; both when neither is given.
    pub fn from_flags(claude: bool, codex: bool) -> (r: Self)
        ensures
            r == targets_of(claude, codex),
    {
        if claude || codex {
            Targets { claude, codex }
        } else {
            Targets { claude: true, codex: true }
        }
    }
}

/// One step of an install or uninstall.
#[derive(Debug, Clone, Copy, PartialEq, Eq)]
pub enum InstallStep {
    /// The PATH shim (an error becomes a note).
    Shim,
    /// The instruction block of an agent.
    Block(Agent),
    /// The hook configuration of an agent.
    Hooks(Agent),
    /// The MCP registration for an agent.
    Mcp(Agent),
}

/// An AI agent.
#[derive(Debug, Clone, Copy, PartialEq, Eq)]
pub enum Agent {
    /// The agent that reads its own instruction file.
    Claude,
    /// The agent that reads `AGENTS.md`.
    Codex,
}

/// An ASCII letter in upper case; any other character as it is.
pub open spec fn upper(c: char) -> char {
    if 'a' <= c <= 'z' {
        (c as int - 32) as char
    } else {
        c
    }
}

/// An ASCII letter in lower case; any other character as it is.
pub open spec fn lower(c: char) -> char {
    if 'A' <= c <= 'Z' {
        (c as int + 32) as char
    } else {
        c
    }
}

/// The file that an agent reads its instructions from: one that all agents may
/// share, or one with the agent's name in upper case.
pub open spec fn instructions_of(agent: Agent, label: Seq<char>) -> Seq<char> {
    match agent {
        Agent::Claude => label.map_values(|c: char| upper(c)) + ".md"@,
        Agent::Codex => "AGENTS.md"@,
    }
}

/// The file that holds the hooks of an agent, below a directory with the agent's
/// name in lower case.
pub open spec fn hooks_of(agent: Agent, label: Seq<char>) -> Seq<char> {
    let directory = "."@ + label.map_values(|c: char| lower(c));
    match agent {
        Agent::Claude => directory + "/settings.json"@,
        Agent::Codex => directory + "/hooks.json"@,
    }
}

/// What the hook entry of an agent matches.
pub open spec fn matcher_of(agent: Agent) -> Seq<char> {
    match agent {
        Agent::Claude => "Bash"@,
        Agent::Codex => "^Bash$"@,
    }
}

/// The text in upper case, as far as it is ASCII.
fn to_upper(s: &str) -> (r: String)
    ensures
        r@ == s@.map_values(|c: char| upper(c)),
{
    let chars = chars_of(s);
    let ghost all = s@.map_values(|c: char| upper(c));
    let mut out = String::new();
    let mut i: usize = 0;
    assert(out@ =~= all.take(0));
    while i < chars.len()
        invariant
            i <= chars@.len(),
            chars@ == s@,
            all == s@.map_values(|c: char| upper(c)),
            out@ == all.take(i as int),
        decreases chars.len() - i,
    {
        let c = chars[i];
        let d: char = if 'a' <= c && c <= 'z' {
            (c as u8 - 32) as char
        } else {
            c
        };
        out.push(d);
        assert(all.take(i + 1) =~= all.take(i as int).push(all[i as int]));
        i += 1;
    }
    assert(all.take(i as int) =~= all);
    out
}

/// The text in lower case, as far as it is ASCII.
fn to_lower(s: &str) -> (r: String)
    ensures
        r@ == s@.map_values(|c: char| lower(c)),
{
    let chars = chars_of(s);
    let ghost all = s@.map_values(|c: char| lower(c));
    let mut out = String::new();
    let mut i: usize = 0;
    assert(out@ =~= all.take(0));
    while i < chars.len()
        invariant
            i <= chars@.len(),
            chars@ == s@,
            all == s@.map_values(|c: char| lower(c)),
            out@ == all.take(i as int),
        decreases chars.len() - i,
    {
        let c = chars[i];
        let d: char = if 'A' <= c && c <= 'Z' {
            (c as u8 + 32) as char
        } else {
            c
        };
        out.push(d);
        assert(all.take(i + 1) =~= all.take(i as int).push(all[i as int]));
        i += 1;
    }
    assert(all.take(i as int) =~= all);
    out
}

impl Agent {
    /// The file that the agent with the given name reads its instructions from.
    pub fn instructions(self, label: &str) -> (r: String)
        ensures
            r@ == instructions_of(self, label@),
    {
        match self {
            Agent::Claude => text2(to_upper(label).as_str(), ".md"),
            Agent::Codex => "AGENTS.md".to_owned(),
        }
    }

    /// The file that holds the hooks of the agent with the given name.
    pub fn hooks(self, label: &str) -> (r: String)
        ensures
            r@ == hooks_of(self, label@),
    {
        let directory = text2(".", to_lower(label).as_str());
        match self {
            Agent::Claude => text2(directory.as_str(), "/settings.json"),
            Agent::Codex => text2(directory.as_str(), "/hooks.json"),
        }
    }

    /// What the hook entry matches.
    pub fn matcher(self) -> (r: &'static str)
        ensures
            r@ == matcher_of(self),
    {
        match self {
            Agent::Claude => "Bash",
            Agent::Codex => "^Bash$",
        }
    }
}

/// The steps for one agent.
pub open spec fn agent_steps(wanted: bool, agent: Agent, with_mcp: bool) -> Seq<InstallStep> {
    if !wanted {
        seq![]
    } else if with_mcp {
        seq![InstallStep::Block(agent), InstallStep::Hooks(agent), InstallStep::Mcp(agent)]
    } else {
        seq![InstallStep::Block(agent), InstallStep::Hooks(agent)]
    }
}

/// The steps of an install or uninstall: the shim, then each agent in turn.
pub open spec fn all_steps(targets: Targets, with_mcp: bool) -> Seq<InstallStep> {
    seq![InstallStep::Shim] + agent_steps(targets.claude, Agent::Claude, with_mcp) + agent_steps(
        targets.codex,
        Agent::Codex,
        with_mcp,
    )
}

/// Appends the steps for one agent.
fn push_steps(steps: &mut Vec<InstallStep>, agent: Agent, with_mcp: bool)
    ensures
        final(steps)@ == old(steps)@ + agent_steps(true, agent, with_mcp),
{
    steps.push(InstallStep::Block(agent));
    steps.push(InstallStep::Hooks(agent));
    if with_mcp {
        steps.push(InstallStep::Mcp(agent));
    }
    assert(steps@ =~= old(steps)@ + agent_steps(true, agent, with_mcp));
}

/// The steps of an install or uninstall, in order. Each that succeeds gives a
/// message; the first that fails (other than the shim) ends the run.
pub fn install_steps(targets: Targets, with_mcp: bool) -> (r: Vec<InstallStep>)
    ensures
        r@ == all_steps(targets, with_mcp),
{
    let mut steps: Vec<InstallStep> = Vec::new();
    steps.push(InstallStep::Shim);
    if targets.claude {
        push_steps(&mut steps, Agent::Claude, with_mcp);
    }
    if targets.codex {
        push_steps(&mut steps, Agent::Codex, with_mcp);
    }
    assert(steps@ =~= all_steps(targets, with_mcp));
    steps
}

// ── reports ──────────────────────────────────────────────────────────────────

/// What is said at the end of an install.
pub const CAVEAT: &'static str =
    "Codex requires trusting new hooks — run `/hooks` in Codex (or pass `--dangerously-bypass-hook-trust`) the first time.";

/// What an install or uninstall prints.
#[derive(Debug)]
pub enum Report {
    /// One JSON object.
    Json(Json),
    /// Text.
    Text(String),
}

/// What an install or uninstall prints.
pub enum ReportV {
    Json(JsonV),
    Text(Seq<char>),
}

impl View for Report {
    type V = ReportV;

    open spec fn view(&self) -> ReportV {
        match *self {
            Report::Json(json) => ReportV::Json(json@),
            Report::Text(s) => ReportV::Text(s@),
        }
    }
}

/// Texts as JSON strings.
pub open spec fn text_values(items: Seq<Seq<char>>) -> Seq<JsonV> {
    items.map_values(|s: Seq<char>| JsonV::Text(s))
}

/// The summary of a run.
pub open spec fn summary_of(messages: Seq<Seq<char>>, dry_run: bool) -> Members {
    seq![
        ("ok"@, JsonV::Bool(true)),
        ("dry_run"@, JsonV::Bool(dry_run)),
        ("changes"@, JsonV::Array(text_values(messages))),
    ]
}

/// What an install prints.
pub open spec fn install_report_of(
    format: OutputFormat,
    messages: Seq<Seq<char>>,
    dry_run: bool,
) -> ReportV {
    match format {
        OutputFormat::Json => ReportV::Json(
            JsonV::Object(summary_of(messages, dry_run).push(("note"@, JsonV::Text(CAVEAT@)))),
        ),
        OutputFormat::Human => ReportV::Text(
            output::prefixed_lines(""@, messages) + output::line("\n"@ + CAVEAT@),
        ),
    }
}

/// What an uninstall prints.
pub open spec fn uninstall_report_of(
    format: OutputFormat,
    messages: Seq<Seq<char>>,
    dry_run: bool,
) -> ReportV {
    match format {
        OutputFormat::Json => ReportV::Json(JsonV::Object(summary_of(messages, dry_run))),
        OutputFormat::Human => ReportV::Text(output::prefixed_lines(""@, messages)),
    }
}

/// Texts as JSON strings.
fn text_array(items: &[String]) -> (r: Json)
    ensures
        r@ == JsonV::Array(text_values(text::texts(items@))),
{
    let ghost all = text_values(text::texts(items@));
    let mut out: Vec<Json> = Vec::new();
    let mut i: usize = 0;
    assert(json::values_of(out@) =~= all.take(0));
    while i < items.len()
        invariant
            i <= items@.len(),
            all == text_values(text::texts(items@)),
            json::values_of(out@) == all.take(i as int),
        decreases items.len() - i,
    {
        let item = Json::text(items[i].as_str());
        proof {
            json::lemma_values_push(out@, item);
            assert(all.take(i + 1) =~= all.take(i as int).push(all[i as int]));
        }
        out.push(item);
        i += 1;
    }
    assert(all.take(i as int) =~= all);
    Json::Array(out)
}

/// The summary of a run.
fn summary(messages: &[String], dry_run: bool) -> (r: Vec<(String, Json)>)
    ensures
        json::members_of(r@) == summary_of(text::texts(messages@), dry_run),
{
    let mut members: Vec<(String, Json)> = Vec::new();
    add_member(&mut members, "ok", Json::Bool(true));
    add_member(&mut members, "dry_run", Json::Bool(dry_run));
    add_member(&mut members, "changes", text_array(messages));
    assert(json::members_of(members@) =~= summary_of(text::texts(messages@), dry_run));
    members
}

/// What `tack install` prints once its steps gave their messages.
pub fn install(format: OutputFormat, messages: &[String], dry_run: bool) -> (r: Report)
    ensures
        r@ == install_report_of(format, text::texts(messages@), dry_run),
{
    match format {
        OutputFormat::Json => {
            let mut members = summary(messages, dry_run);
            add_text(&mut members, "note", CAVEAT);
            Report::Json(Json::Object(members))
        },
        OutputFormat::Human => {
            let mut out = String::new();
            push_prefixed(&mut out, "", messages);
            push_line(&mut out, text2("\n", CAVEAT).as_str());
            assert(out@ =~= output::prefixed_lines(""@, text::texts(messages@)) + output::line(
                "\n"@ + CAVEAT@,
            ));
            Report::Text(out)
        },
    }
}

/// What `tack install --uninstall` prints once its steps gave their messages.
pub fn uninstall(format: OutputFormat, messages: &[String], dry_run: bool) -> (r: Report)
    ensures
        r@ == uninstall_report_of(format, text::texts(messages@), dry_run),
{
    match format {
        OutputFormat::Json => Report::Json(Json::Object(summary(messages, dry_run))),
        OutputFormat::Human => {
            let mut out = String::new();
            push_prefixed(&mut out, "", messages);
            assert(out@ =~= output::prefixed_lines(""@, text::texts(messages@)));
            Report::Text(out)
        },
    }
}

// ── laws ─────────────────────────────────────────────────────────────────────

/// Where a text holds no begin line with an end line behind it, the block is written at
/// its end, behind an empty line, and nothing is removed.
pub proof fn law_no_block(text: Seq<char>, block: Seq<char>)
    requires
        forall|j: int, k: int|
            0 <= j < k && #[trigger] begins_at(text, j) ==> !#[trigger] ends_at(text, k),
    ensures
        text.len() == 0 ==> upserted(text, block) == block + seq!['\n'],
        text.len() > 0 && text.last() == '\n' ==> upserted(text, block) == text + seq!['\n'] + block
            + seq!['\n'],
        text.len() > 0 && text.last() != '\n' ==> upserted(text, block) == text + seq!['\n', '\n']
            + block + seq!['\n'],
        removed(text) == text,
{
    lemma_span(text, None);
    if text.len() == 0 {
        assert(upserted(text, block) =~= block + seq!['\n']);
    } else if text.last() == '\n' {
        assert(upserted(text, block) =~= text + seq!['\n'] + block + seq!['\n']);
    } else {
        assert(upserted(text, block) =~= text + seq!['\n', '\n'] + block + seq!['\n']);
    }
}

/// Whether the block of a text is the one from `b` to `e`: it begins with a begin line and
/// ends with the first end line that has a begin line before it, and no begin line is
/// nearer.
pub open spec fn block_from_to(text: Seq<char>, b: int, e: int) -> bool {
    let last = e - BLOCK_END@.len();
    &&& b < last
    &&& begins_at(text, b)
    &&& ends_at(text, last)
    &&& forall|j: int| b < j < last ==> !#[trigger] begins_at(text, j)
    &&& forall|j: int, k: int|
        0 <= j < k < last && #[trigger] begins_at(text, j) ==> !#[trigger] ends_at(text, k)
}

/// Where a text holds a block, the new one takes its place and the line break behind it,
/// and what stands before and behind it stays. Without the block, what stood before it and
/// what stood behind its line break stay, less one of two line breaks before it.
pub proof fn law_block_replaced(text: Seq<char>, b: int, e: int, block: Seq<char>)
    requires
        block_from_to(text, b, e),
    ensures
        ({
            let rest = text.skip(e);
            let behind = if rest.len() >= 2 && rest[0] == '\r' && rest[1] == '\n' {
                rest.skip(2)
            } else if rest.len() >= 1 && rest[0] == '\n' {
                rest.skip(1)
            } else {
                rest
            };
            let before = text.take(b);
            &&& upserted(text, block) == before + block + seq!['\n'] + behind
            &&& b >= 2 && text[b - 1] == '\n' && text[b - 2] == '\n' ==> removed(text) == text.take(
                b - 1,
            ) + behind
            &&& !(b >= 2 && text[b - 1] == '\n' && text[b - 2] == '\n') ==> removed(text) == before
                + behind
        }),
{
    lemma_span(text, Some((b, e)));
    lemma_markers();
    let rest = text.skip(e);
    assert(text.skip(e + newline_len(rest)) =~= rest.skip(newline_len(rest)));
    assert((text.take(b) + block).push('\n') =~= text.take(b) + block + seq!['\n']);
    if b >= 2 {
        assert(text.take(b).take(b - 1) =~= text.take(b - 1));
    }
    assert(text.take(b).take(b) =~= text.take(b));
}

/// The managed hook entry: what it matches, and one hook, a command that runs the
/// executable, for ten seconds at most.
pub proof fn law_hook_entry(exe: Seq<char>, matcher: Seq<char>)
    ensures
        ({
            let entry = hook_entry_of(exe, matcher);
            &&& json::get_text(entry, "matcher"@) == Some(matcher)
            &&& json::get(entry, "hooks"@) matches Some(JsonV::Array(hooks)) && hooks.len() == 1
                && json::get_text(hooks[0], "type"@) == Some("command"@) && json::get_text(
                hooks[0],
                "command"@,
            ) == Some("\""@ + exe + "\" hook pre-tool-use"@) && json::get(hooks[0], "timeout"@)
                == Some(JsonV::Number("10"@))
        }),
{
    reveal_strlit("matcher");
    reveal_strlit("hooks");
    reveal_strlit("type");
    reveal_strlit("command");
    reveal_strlit("timeout");
    assert("matcher"@.len() == 7 && "hooks"@.len() == 5 && "type"@.len() == 4 && "command"@.len()
        == 7 && "timeout"@.len() == 7);
    assert("command"@[0] == 'c' && "timeout"@[0] == 't');
    let members = hook_entry_of(exe, matcher)->Object_0;
    json::law_member(members, "matcher"@);
    json::law_member(members, "hooks"@);
    assert(json::first_at(members, "matcher"@, 0));
    assert(json::first_at(members, "hooks"@, 1));
    let hook = members[1].1->Array_0[0]->Object_0;
    json::law_member(hook, "type"@);
    json::law_member(hook, "command"@);
    json::law_member(hook, "timeout"@);
    assert(json::first_at(hook, "type"@, 0));
    assert(json::first_at(hook, "command"@, 1));
    assert(json::first_at(hook, "timeout"@, 2));
}

/// The value under two keys, one inside the other.
pub open spec fn deep_in(json: JsonV, outer: Seq<char>, inner: Seq<char>) -> Option<JsonV> {
    match json::get(json, outer) {
        Some(value) => json::get(value, inner),
        None => None,
    }
}

/// Whether entry `i` of a list holds as hook `h` one that runs the managed command.
pub open spec fn holds_managed(entries: Seq<JsonV>, exe: Seq<char>, i: int, h: int) -> bool {
    0 <= i < entries.len() && (json::get(entries[i], "hooks"@) matches Some(JsonV::Array(hooks)) && 0
        <= h < hooks.len() && json::get(hooks[h], "command"@) == Some(
        JsonV::Text("\""@ + exe + "\" hook pre-tool-use"@),
    ))
}

proof fn lemma_managed(entries: Seq<JsonV>, exe: Seq<char>)
    ensures
        any_entry_runs(entries, hook_command(exe)) <==> exists|i: int, h: int|
            holds_managed(entries, exe, i, h),
{
    let command = hook_command(exe);
    if any_entry_runs(entries, command) {
        let i = choose|i: int| 0 <= i < entries.len() && entry_runs(#[trigger] entries[i], command);
        let hooks = json::get(entries[i], "hooks"@)->Some_0->Array_0;
        let h = choose|h: int|
            0 <= h < hooks.len() && json::get_text(#[trigger] hooks[h], "command"@) == Some(command);
        assert(holds_managed(entries, exe, i, h));
    }
    if exists|i: int, h: int| holds_managed(entries, exe, i, h) {
        let (i, h) = choose|i: int, h: int| holds_managed(entries, exe, i, h);
        let hooks = json::get(entries[i], "hooks"@)->Some_0->Array_0;
        assert(json::get_text(hooks[h], "command"@) == Some(command));
        assert(some_runs(hooks, command));
        assert(entry_runs(entries[i], command));
    }
}

/// Merging adds the managed entry behind the others, under `hooks.PreToolUse`, unless one
/// of them runs its command already; other events and other keys stay.
pub proof fn law_hook_merged(
    config: JsonV,
    entries: Seq<JsonV>,
    exe: Seq<char>,
    matcher: Seq<char>,
    event: Seq<char>,
)
    requires
        config is Object,
        deep_in(config, "hooks"@, "PreToolUse"@) == Some(JsonV::Array(entries)),
    ensures
        ({
            let merged = hook_merged(config, exe, matcher);
            &&& (exists|i: int, h: int| holds_managed(entries, exe, i, h)) ==> merged == config
            &&& !(exists|i: int, h: int| holds_managed(entries, exe, i, h)) ==> deep_in(
                merged,
                "hooks"@,
                "PreToolUse"@,
            ) == Some(JsonV::Array(entries.push(hook_entry_of(exe, matcher))))
            &&& event != "PreToolUse"@ ==> deep_in(merged, "hooks"@, event) == deep_in(
                config,
                "hooks"@,
                event,
            )
            &&& event != "hooks"@ ==> json::get(merged, event) == json::get(config, event)
        }),
{
    lemma_managed(entries, exe);
    assert(hook_entries(config) == entries);
    if !any_entry_runs(entries, hook_command(exe)) {
        lemma_entries_set(config, entries.push(hook_entry_of(exe, matcher)), event);
    }
}

proof fn lemma_entries_set(config: JsonV, entries: Seq<JsonV>, event: Seq<char>)
    requires
        config is Object,
    ensures
        ({
            let set = with_hook_entries(config, entries);
            &&& deep_in(set, "hooks"@, "PreToolUse"@) == Some(JsonV::Array(entries))
            &&& event != "PreToolUse"@ && object_or_absent(config, "hooks"@) ==> deep_in(
                set,
                "hooks"@,
                event,
            ) == deep_in(config, "hooks"@, event)
            &&& event != "hooks"@ ==> json::get(set, event) == json::get(config, event)
        }),
{
    let old_hooks = members_at(config, "hooks"@);
    let hooks = json::with_member(old_hooks, "PreToolUse"@, JsonV::Array(entries));
    let members = config->Object_0;
    json::lemma_with_member(old_hooks, "PreToolUse"@, JsonV::Array(entries), "PreToolUse"@);
    json::lemma_with_member(old_hooks, "PreToolUse"@, JsonV::Array(entries), event);
    json::lemma_with_member(members, "hooks"@, JsonV::Object(hooks), "hooks"@);
    json::lemma_with_member(members, "hooks"@, JsonV::Object(hooks), event);
}

/// Removing takes out every entry that runs the managed command, and keeps the others in
/// their order; other events and other keys stay.
pub proof fn law_hook_removed(config: JsonV, entries: Seq<JsonV>, exe: Seq<char>, event: Seq<char>)
    requires
        config is Object,
        deep_in(config, "hooks"@, "PreToolUse"@) == Some(JsonV::Array(entries)),
    ensures
        ({
            let less = hook_removed(config, exe);
            let keeps = |e: JsonV|
                !(exists|h: int| holds_managed(seq![e], exe, 0, h));
            &&& deep_in(less, "hooks"@, "PreToolUse"@) == Some(JsonV::Array(entries.filter(keeps)))
            &&& event != "PreToolUse"@ ==> deep_in(less, "hooks"@, event) == deep_in(
                config,
                "hooks"@,
                event,
            )
            &&& event != "hooks"@ ==> json::get(less, event) == json::get(config, event)
        }),
{
    let command = hook_command(exe);
    let keeps = |e: JsonV| !(exists|h: int| holds_managed(seq![e], exe, 0, h));
    assert(hook_entries(config) == entries);
    assert forall|e: JsonV| #[trigger] keeps(e) == !entry_runs(e, command) by {
        lemma_managed(seq![e], exe);
        if any_entry_runs(seq![e], command) {
            assert(entry_runs(e, command)) by {
                let i = choose|i: int|
                    0 <= i < seq![e].len() && entry_runs(#[trigger] seq![e][i], command);
                assert(i == 0);
            }
            let (i, h) = choose|i: int, h: int| holds_managed(seq![e], exe, i, h);
            assert(i == 0);
            assert(holds_managed(seq![e], exe, 0, h));
        }
        if entry_runs(e, command) {
            assert(entry_runs(seq![e][0], command));
        }
        if exists|h: int| holds_managed(seq![e], exe, 0, h) {
            let h = choose|h: int| holds_managed(seq![e], exe, 0, h);
            assert(holds_managed(seq![e], exe, 0, h));
        }
    }
    lemma_others_filter(entries, command, keeps);
    lemma_others(entries, command);
    if any_entry_runs(entries, command) {
        lemma_entries_set(config, others(entries, command), event);
    }
}

proof fn lemma_others_filter(entries: Seq<JsonV>, command: Seq<char>, keeps: spec_fn(JsonV) -> bool)
    requires
        forall|e: JsonV| #[trigger] keeps(e) == !entry_runs(e, command),
    ensures
        others(entries, command) == entries.filter(keeps),
    decreases entries.len(),
{
    reveal(Seq::filter);
    if entries.len() > 0 {
        lemma_others_filter(entries.drop_last(), command, keeps);
        assert(keeps(entries.last()) == !entry_runs(entries.last(), command));
    }
}

/// What is said of a file, and whether it is written: an edit that changes nothing keeps
/// the file, one in a dry run only shows, and any other writes.
pub proof fn law_hook_edit(
    config: JsonV,
    path: Seq<char>,
    exe: Seq<char>,
    matcher: Seq<char>,
    label: Seq<char>,
)
    ensures
        any_entry_runs(hook_entries(config), hook_command(exe)) ==> forall|dry_run: bool| #[trigger]
            hook_added(config, path, exe, matcher, label, dry_run) == EditV::Keep(
                label + ": hook config "@ + path + ": no change needed"@,
            ),
        !any_entry_runs(hook_entries(config), hook_command(exe)) ==> hook_added(
            config,
            path,
            exe,
            matcher,
            label,
            false,
        ) == EditV::Write(label + ": wrote hook entry to "@ + path) && hook_added(
            config,
            path,
            exe,
            matcher,
            label,
            true,
        ) == EditV::Preview(
            label + ": would write hook config to "@ + path + ":\n"@ + json::rendered_pretty(
                hook_merged(config, exe, matcher),
            ),
        ),
        any_entry_runs(hook_entries(config), hook_command(exe)) ==> hook_dropped(
            config,
            path,
            exe,
            label,
            false,
        ) == EditV::Write(label + ": removed hook entry from "@ + path) && hook_dropped(
            config,
            path,
            exe,
            label,
            true,
        ) == EditV::Preview(label + ": would remove hook entry from "@ + path),
        !any_entry_runs(hook_entries(config), hook_command(exe)) ==> forall|dry_run: bool|
            #[trigger]
            hook_dropped(config, path, exe, label, dry_run) == EditV::Keep(
                label + ": no managed hook found in "@ + path,
            ),
{
}

/// The registered server runs the executable with the one argument `mcp`. Registering sets
/// `mcpServers.tack`, and unregistering takes it out; the other servers and the other keys
/// stay.
pub proof fn law_server(config: JsonV, servers: Members, exe: Seq<char>, key: Seq<char>)
    requires
        config is Object,
        json::get(config, "mcpServers"@) == Some(JsonV::Object(servers)),
    ensures
        ({
            let more = mcp_registered(config, exe);
            let less = mcp_unregistered(config);
            let server = deep_in(more, "mcpServers"@, "tack"@);
            &&& server is Some
            &&& json::get_text(server->Some_0, "command"@) == Some(exe)
            &&& json::get(server->Some_0, "args"@) == Some(
                JsonV::Array(seq![JsonV::Text("mcp"@)]),
            )
            &&& key != "tack"@ ==> deep_in(more, "mcpServers"@, key) == json::member(servers, key)
            &&& key != "mcpServers"@ ==> json::get(more, key) == json::get(config, key)
            &&& forall|i: int| #[trigger]
                json::first_at(servers, "tack"@, i) ==> json::get(less, "mcpServers"@) == Some(
                    JsonV::Object(servers.remove(i)),
                )
            &&& json::member(servers, "tack"@) is None ==> less == config
            &&& key != "mcpServers"@ ==> json::get(less, key) == json::get(config, key)
        }),
{
    let members = config->Object_0;
    let entry = mcp_entry_of(exe);
    let more = json::with_member(servers, "tack"@, entry);
    lemma_entry_is_entry(exe);
    json::lemma_with_member(servers, "tack"@, entry, "tack"@);
    json::lemma_with_member(servers, "tack"@, entry, key);
    json::lemma_with_member(members, "mcpServers"@, JsonV::Object(more), "mcpServers"@);
    json::lemma_with_member(members, "mcpServers"@, JsonV::Object(more), key);
    let fewer = json::without_member(servers, "tack"@);
    json::law_take_member(servers, "tack"@);
    json::law_member(servers, "tack"@);
    json::lemma_with_member(members, "mcpServers"@, JsonV::Object(fewer), "mcpServers"@);
    json::lemma_with_member(members, "mcpServers"@, JsonV::Object(fewer), key);
}

/// What is said of an MCP configuration, and whether it is written.
pub proof fn law_server_edit(config: JsonV, label: Seq<char>, path: Seq<char>, exe: Seq<char>)
    ensures
        registered(config, exe) ==> forall|dry_run: bool| #[trigger]
            server_added(config, label, path, exe, dry_run) == EditV::Keep(
                label + " (MCP): "@ + path + ": no change needed"@,
            ),
        !registered(config, exe) ==> server_added(config, label, path, exe, false) == EditV::Write(
            label + " (MCP): wrote tack MCP entry to "@ + path,
        ) && server_added(config, label, path, exe, true) == EditV::Preview(
            label + " (MCP): would write "@ + path + " with:\n"@ + json::rendered_pretty(
                mcp_registered(config, exe),
            ),
        ),
        (deep_in(config, "mcpServers"@, "tack"@) is Some) ==> server_dropped(
            config,
            label,
            path,
            false,
        ) == EditV::Write(label + " (MCP): removed tack entry from "@ + path) && server_dropped(
            config,
            label,
            path,
            true,
        ) == EditV::Preview(label + " (MCP): would remove tack entry from "@ + path),
        (deep_in(config, "mcpServers"@, "tack"@) is None) ==> forall|dry_run: bool| #[trigger]
            server_dropped(config, label, path, dry_run) == EditV::Keep(
                label + " (MCP): no tack entry in "@ + path,
            ),
{
}

/// Where `tack` can be found, nothing is done. Otherwise a shim that hands everything to the
/// executable is written, on Windows, where the home and the cargo directory are there, and
/// not in a dry run; in all other cases a note is given.
pub proof fn law_shim(facts: ShimFacts, dry_run: bool)
    ensures
        ({
            let r = shim_wanted(facts, dry_run);
            &&& facts.on_path <==> r is Nothing
            &&& !facts.on_path && facts.windows && facts.has_profile && facts.cargo_bin_is_dir
                && !dry_run ==> r == (ShimV::Write {
                content: "@echo off\r\n\""@ + facts.exe_path@ + "\" %*\r\n"@,
                message: "wrote PATH shim: "@ + facts.shim_path@,
            })
            &&& !facts.on_path && !(facts.windows && facts.has_profile && facts.cargo_bin_is_dir
                && !dry_run) ==> r is Note
            &&& !facts.on_path && facts.windows && !facts.has_profile ==> r == ShimV::Note(
                "note: USERPROFILE not set; add the tack exe directory to PATH manually"@,
            )
            &&& !facts.on_path && facts.windows && facts.has_profile && !facts.cargo_bin_is_dir
                && facts.exe_dir is Some ==> r == ShimV::Note(
                "note: "@ + facts.cargo_bin@ + " does not exist; add "@ + facts.exe_dir->Some_0@
                    + " to PATH manually"@,
            )
            &&& !facts.on_path && facts.windows && facts.has_profile && facts.cargo_bin_is_dir
                && dry_run ==> r == ShimV::Note(
                "would write PATH shim: "@ + facts.shim_path@ + "\n  contents: @echo off / \""@
                    + facts.exe_path@ + "\" %*"@,
            )
            &&& !facts.on_path && !facts.windows && facts.exe_dir is None ==> r == ShimV::Note(
                "note: tack not found on PATH — add "@ + facts.exe_path@ + " to PATH"@,
            )
            &&& !facts.on_path && !facts.windows && facts.exe_dir is Some ==> r
                == ShimV::Note(
                "note: tack not found on PATH — add "@ + facts.exe_dir->Some_0@ + " to PATH"@,
            )
        }),
{
}

/// A shim is removed only if it is there and names the executable, on Windows and with a
/// home directory; in a dry run that is only said.
pub proof fn law_shim_removed(facts: ShimFacts, before: Seq<char>, after: Seq<char>)
    ensures
        facts.shim_content is None ==> shim_unwanted(facts, false) is Nothing && shim_unwanted(
            facts,
            true,
        ) is Nothing,
        !facts.windows || !facts.has_profile ==> shim_unwanted(facts, false) is Nothing
            && shim_unwanted(facts, true) is Nothing,
        facts.windows && facts.has_profile && facts.shim_content is Some
            && facts.shim_content->Some_0@ == before + facts.exe_path@ + after ==> shim_unwanted(
            facts,
            false,
        ) == (ShimV::Remove { message: "removed PATH shim: "@ + facts.shim_path@ })
            && shim_unwanted(facts, true) == ShimV::Note(
            "would remove PATH shim: "@ + facts.shim_path@,
        ),
        facts.shim_content is Some && facts.shim_content->Some_0@.len() < facts.exe_path@.len()
            ==> shim_unwanted(facts, false) is Nothing && shim_unwanted(facts, true) is Nothing,
{
    if facts.shim_content is Some {
        let hay = facts.shim_content->Some_0@;
        if hay == before + facts.exe_path@ + after {
            let at = before.len() as int;
            assert(hay.subrange(at, at + facts.exe_path@.len()) =~= facts.exe_path@);
            assert(text::occurs_at(hay, facts.exe_path@, at));
        }
    }
}

/// An install begins with the shim. Then each agent that is wanted gets its block, its
/// hooks, and its MCP server where that is wanted, one agent after the other; what is not
/// wanted is not touched.
pub proof fn law_steps(targets: Targets, with_mcp: bool)
    ensures
        ({
            let steps = all_steps(targets, with_mcp);
            let each = if with_mcp {
                3int
            } else {
                2int
            };
            let agents = (if targets.claude {
                1int
            } else {
                0int
            }) + (if targets.codex {
                1int
            } else {
                0int
            });
            let second = if targets.claude {
                1 + each
            } else {
                1int
            };
            &&& steps.len() == 1 + each * agents
            &&& steps[0] == InstallStep::Shim
            &&& targets.claude ==> steps[1] == InstallStep::Block(Agent::Claude) && steps[2]
                == InstallStep::Hooks(Agent::Claude) && (with_mcp ==> steps[3] == InstallStep::Mcp(
                Agent::Claude,
            ))
            &&& targets.codex ==> steps[second] == InstallStep::Block(Agent::Codex) && steps[second
                + 1] == InstallStep::Hooks(Agent::Codex) && (with_mcp ==> steps[second + 2]
                == InstallStep::Mcp(Agent::Codex))
        }),
{
}

/// The files of an agent: instructions in a file of its own name in upper case or in
/// `AGENTS.md`, and hooks below a directory of its name in lower case.
pub proof fn law_agent_files(label: Seq<char>)
    ensures
        instructions_of(Agent::Codex, label) == "AGENTS.md"@,
        ({
            let file = instructions_of(Agent::Claude, label);
            &&& file.len() == label.len() + 3
            &&& file.skip(label.len() as int) == ".md"@
            &&& forall|k: int|
                0 <= k < label.len() ==> (if 'a' <= label[k] <= 'z' {
                    (#[trigger] file[k]) as int - 'A' as int == label[k] as int - 'a' as int
                } else {
                    file[k] == label[k]
                })
        }),
        ({
            let own = hooks_of(Agent::Claude, label);
            let shared = hooks_of(Agent::Codex, label);
            let n = label.len() as int + 1;
            &&& own.skip(n) == "/settings.json"@
            &&& shared.skip(n) == "/hooks.json"@
            &&& own.take(n) == shared.take(n)
            &&& own[0] == '.'
            &&& forall|k: int|
                0 <= k < label.len() ==> (if 'A' <= label[k] <= 'Z' {
                    own[#[trigger] (k + 1)] as int - 'a' as int == label[k] as int - 'A' as int
                } else {
                    own[k + 1] == label[k]
                })
        }),
{
    reveal_strlit(".md");
    reveal_strlit(".");
    let file = instructions_of(Agent::Claude, label);
    let own = hooks_of(Agent::Claude, label);
    let shared = hooks_of(Agent::Codex, label);
    let n = label.len() as int + 1;
    assert(file.skip(label.len() as int) =~= ".md"@);
    assert(own.skip(n) =~= "/settings.json"@);
    assert(shared.skip(n) =~= "/hooks.json"@);
    assert(own.take(n) =~= shared.take(n));
    assert forall|k: int| 0 <= k < label.len() implies (if 'A' <= label[k] <= 'Z' {
        own[#[trigger] (k + 1)] as int - 'a' as int == label[k] as int - 'A' as int
    } else {
        own[k + 1] == label[k]
    }) by {
        assert(own[k + 1] == lower(label[k]));
    }
    assert forall|k: int| 0 <= k < label.len() implies (if 'a' <= label[k] <= 'z' {
        (#[trigger] file[k]) as int - 'A' as int == label[k] as int - 'a' as int
    } else {
        file[k] == label[k]
    }) by {
        assert(file[k] == upper(label[k]));
    }
}

/// A report names every message, in order: as the changes of one JSON object that says
/// whether it was a dry run, or as lines. That of an install ends with a note.
pub proof fn law_reports(messages: Seq<Seq<char>>, m: Seq<char>, dry_run: bool)
    ensures
        ({
            let none: Seq<Seq<char>> = seq![];
            let json = uninstall_report_of(OutputFormat::Json, messages, dry_run);
            let noted = install_report_of(OutputFormat::Json, messages, dry_run);
            let text = uninstall_report_of(OutputFormat::Human, messages, dry_run);
            let more = uninstall_report_of(OutputFormat::Human, messages.push(m), dry_run);
            let told = install_report_of(OutputFormat::Human, messages, dry_run);
            &&& json matches ReportV::Json(r) && json::get(r, "ok"@) == Some(JsonV::Bool(true))
                && json::get(r, "dry_run"@) == Some(JsonV::Bool(dry_run)) && (json::get(
                r,
                "changes"@,
            ) matches Some(JsonV::Array(changes)) && changes.len() == messages.len() && forall|
                i: int,
            |
                0 <= i < messages.len() ==> #[trigger] changes[i] == JsonV::Text(messages[i]))
                && json::get(r, "note"@) is None
            &&& noted matches ReportV::Json(r) && json::get_text(r, "note"@) == Some(CAVEAT@)
                && json::get(r, "ok"@) == Some(JsonV::Bool(true)) && json::get(r, "changes"@)
                == json::get(json->Json_0, "changes"@) && json::get(r, "dry_run"@) == Some(
                JsonV::Bool(dry_run),
            )
            &&& text matches ReportV::Text(before) && (more matches ReportV::Text(after) && after
                == before + m + seq!['\n']) && (told matches ReportV::Text(all) && all == before
                + seq!['\n'] + CAVEAT@ + seq!['\n'])
            &&& uninstall_report_of(OutputFormat::Human, none, dry_run) matches ReportV::Text(empty)
                && empty.len() == 0
        }),
{
    reveal_strlit("");
    reveal_strlit("\n");
    reveal_strlit("ok");
    reveal_strlit("dry_run");
    reveal_strlit("changes");
    reveal_strlit("note");
    assert("ok"@.len() == 2 && "dry_run"@.len() == 7 && "changes"@.len() == 7 && "note"@.len()
        == 4);
    assert("dry_run"@[0] == 'd' && "changes"@[0] == 'c');
    let s = summary_of(messages, dry_run);
    let n = s.push(("note"@, JsonV::Text(CAVEAT@)));
    json::law_member(s, "ok"@);
    json::law_member(s, "dry_run"@);
    json::law_member(s, "changes"@);
    json::law_member(s, "note"@);
    json::law_member(n, "ok"@);
    json::law_member(n, "dry_run"@);
    json::law_member(n, "changes"@);
    json::law_member(n, "note"@);
    assert(json::first_at(s, "ok"@, 0));
    assert(json::first_at(s, "dry_run"@, 1));
    assert(json::first_at(s, "changes"@, 2));
    assert(json::first_at(n, "ok"@, 0));
    assert(json::first_at(n, "dry_run"@, 1));
    assert(json::first_at(n, "changes"@, 2));
    assert(json::first_at(n, "note"@, 3));
    let before = output::prefixed_lines(""@, messages);
    assert(messages.push(m).drop_last() =~= messages);
    assert(output::prefixed_lines(""@, messages.push(m)) =~= before + m + seq!['\n']);
    assert(before + output::line("\n"@ + CAVEAT@) =~= before + seq!['\n'] + CAVEAT@ + seq!['\n']);
}

/// What is said of an instruction file, and whether it is written: nothing where the block
/// changes nothing, and nothing is written in a dry run. A file that is not there is left
/// alone.
pub proof fn law_block_edit(text: &str, path: Seq<char>, label: Seq<char>)
    ensures
        ({
            let more = upserted(text@, instruction_block());
            let less = removed(text@);
            &&& more == text@ ==> forall|dry_run: bool| #[trigger]
                block_added(text@, path, label, dry_run) == EditV::Keep(
                    label + ": "@ + path + ": no change needed"@,
                )
            &&& more != text@ ==> block_added(text@, path, label, true) == EditV::Preview(
                label + ": would write instruction block to "@ + path,
            ) && block_added(text@, path, label, false) == EditV::Write(
                label + ": wrote instruction block to "@ + path,
            )
            &&& less == text@ ==> forall|dry_run: bool| #[trigger]
                block_dropped(Some(text), path, label, dry_run) == (
                    EditV::Keep(label + ": no managed block found in "@ + path),
                    text@,
                )
            &&& less != text@ ==> block_dropped(Some(text), path, label, true) == (
                EditV::Preview(label + ": would remove instruction block from "@ + path),
                less,
            ) && block_dropped(Some(text), path, label, false) == (
                EditV::Write(label + ": removed instruction block from "@ + path),
                less,
            )
            &&& forall|dry_run: bool| #[trigger]
                block_dropped(None, path, label, dry_run) == (
                    EditV::Keep(label + ": "@ + path + " not found, skipped"@),
                    Seq::<char>::empty(),
                )
        }),
{
}

/// A configuration file that holds no JSON is left alone, and so is one that has no place
/// for the entry. Where there is no file, an entry is put into `{}`, and there is nothing to
/// take out. Otherwise the file gets what its configuration becomes.
pub proof fn law_config_files(
    text: &str,
    path: Seq<char>,
    exe: Seq<char>,
    matcher: Seq<char>,
    label: Seq<char>,
    dry_run: bool,
)
    ensures
        json::parsed_json(text@) matches Err(reason) ==> hook_file_written(
            Some(text),
            path,
            exe,
            matcher,
            label,
            dry_run,
        ) == ConfigEditV::Invalid(reason) && hook_file_cleared(Some(text), path, exe, label, dry_run)
            == ConfigEditV::Invalid(reason) && server_file_written(
            Some(text),
            label,
            path,
            exe,
            dry_run,
        ) == ConfigEditV::Invalid(reason) && server_file_cleared(Some(text), label, path, dry_run)
            == ConfigEditV::Invalid(reason),
        json::parsed_json(text@) matches Ok(config) ==> {
            &&& !takes_hooks(config) ==> hook_file_written(
                Some(text),
                path,
                exe,
                matcher,
                label,
                dry_run,
            ) is Refused
            &&& takes_hooks(config) ==> (hook_file_written(
                Some(text),
                path,
                exe,
                matcher,
                label,
                dry_run,
            ) matches ConfigEditV::Edited(edit, content) && edit == hook_added(
                config,
                path,
                exe,
                matcher,
                label,
                dry_run,
            ) && content == json::rendered_pretty(hook_merged(config, exe, matcher)))
            &&& !takes_servers(config) ==> server_file_written(Some(text), label, path, exe, dry_run)
                is Refused
            &&& takes_servers(config) ==> (server_file_written(Some(text), label, path, exe, dry_run)
                matches ConfigEditV::Edited(edit, content) && edit == server_added(
                config,
                label,
                path,
                exe,
                dry_run,
            ) && content == json::rendered_pretty(mcp_registered(config, exe)))
            &&& hook_file_cleared(Some(text), path, exe, label, dry_run)
                matches ConfigEditV::Edited(edit, content) && edit == hook_dropped(
                config,
                path,
                exe,
                label,
                dry_run,
            ) && content == json::rendered_pretty(hook_removed(config, exe))
            &&& server_file_cleared(Some(text), label, path, dry_run) matches ConfigEditV::Edited(
                edit,
                content,
            ) && edit == server_dropped(config, label, path, dry_run) && content
                == json::rendered_pretty(mcp_unregistered(config))
        },
        hook_file_written(None, path, exe, matcher, label, dry_run) matches ConfigEditV::Edited(
            _,
            content,
        ) && content == json::rendered_pretty(
            hook_merged(JsonV::Object(Seq::empty()), exe, matcher),
        ),
        server_file_written(None, label, path, exe, dry_run) matches ConfigEditV::Edited(_, content)
            && content == json::rendered_pretty(mcp_registered(JsonV::Object(Seq::empty()), exe)),
        hook_file_cleared(None, path, exe, label, dry_run) == ConfigEditV::Edited(
            EditV::Keep(label + ": "@ + path + " not found, skipped"@),
            Seq::empty(),
        ),
        server_file_cleared(None, label, path, dry_run) == ConfigEditV::Edited(
            EditV::Keep(label + " (MCP): "@ + path + " not found, skipped"@),
            Seq::empty(),
        ),
{
}

/// Where a hook entry and a server have their place: in an object, where what stands under
/// their keys is an object or a list, or is not there.
pub proof fn law_places(members: Members, other: JsonV)
    ensures
        ({
            let config = JsonV::Object(members);
            let hooks = json::get(config, "hooks"@);
            let servers = json::get(config, "mcpServers"@);
            &&& !(other is Object) ==> !takes_hooks(other) && !takes_servers(other)
            &&& hooks is None ==> takes_hooks(config)
            &&& hooks matches Some(h) ==> !(h is Object) ==> !takes_hooks(config)
            &&& hooks matches Some(h) ==> h is Object ==> (takes_hooks(config) <==> match json::get(
                h,
                "PreToolUse"@,
            ) {
                None => true,
                Some(list) => list is Array,
            })
            &&& servers is None ==> takes_servers(config)
            &&& servers matches Some(s) ==> (takes_servers(config) <==> s is Object)
        }),
{
}

/// An uninstall fails where there is no repository; an install creates one, unless it is a
/// dry run. Both agents are wanted where none is named.
pub proof fn law_install_choices(claude: bool, codex: bool, flag: bool)
    ensures
        without_repository(true, flag) is Fail,
        without_repository(false, true) is Show,
        without_repository(false, false) is Create,
        claude || codex ==> targets_of(claude, codex).claude == claude && targets_of(
            claude,
            codex,
        ).codex == codex,
        targets_of(false, false).claude && targets_of(false, false).codex,
        matcher_of(Agent::Claude) == "Bash"@,
        matcher_of(Agent::Codex) == "^Bash$"@,
{
}

} // verus!
