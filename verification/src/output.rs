//! What a command prints: JSON for agents, or lines of text for people.
use vstd::prelude::*;
use vstd::string::*;

use crate::text;
use crate::text::append_text;

verus! {

/// The output format of a command.
///
/// `Human` is concise, readable text; `Json` is one JSON object.
#[derive(Debug, Clone, Copy, PartialEq, Eq)]
pub enum OutputFormat {
    /// Concise, human-readable text (the default).
    Human,
    /// Machine-readable JSON for agents.
    Json,
}

impl OutputFormat {
    /// Picks the format from the global `--json` flag.
    pub fn from_json_flag(json: bool) -> (r: Self)
        ensures
            r == (if json {
                OutputFormat::Json
            } else {
                OutputFormat::Human
            }),
    {
        if json {
            OutputFormat::Json
        } else {
            OutputFormat::Human
        }
    }
}

/// A text as one line.
pub open spec fn line(s: Seq<char>) -> Seq<char> {
    s.push('\n')
}

/// Lines that consist of a prefix and one of the items each.
pub open spec fn prefixed_lines(prefix: Seq<char>, items: Seq<Seq<char>>) -> Seq<char>
    decreases items.len(),
{
    if items.len() == 0 {
        seq![]
    } else {
        prefixed_lines(prefix, items.drop_last()) + line(prefix + items.last())
    }
}

/// `a` and `b` in one text.
pub fn text2(a: &str, b: &str) -> (r: String)
    ensures
        r@ == a@ + b@,
{
    let mut out = a.to_owned();
    append_text(&mut out, b);
    out
}

/// `a`, `b` and `c` in one text.
pub fn text3(a: &str, b: &str, c: &str) -> (r: String)
    ensures
        r@ == a@ + b@ + c@,
{
    let mut out = a.to_owned();
    append_text(&mut out, b);
    append_text(&mut out, c);
    out
}

/// `a`, `b`, `c` and `d` in one text.
pub fn text4(a: &str, b: &str, c: &str, d: &str) -> (r: String)
    ensures
        r@ == a@ + b@ + c@ + d@,
{
    let mut out = text3(a, b, c);
    append_text(&mut out, d);
    out
}

/// Appends `s` and a line break.
pub fn push_line(out: &mut String, s: &str)
    ensures
        final(out)@ == old(out)@ + line(s@),
{
    append_text(out, s);
    out.push('\n');
    assert(out@ =~= old(out)@ + line(s@));
}

/// Appends lines that consist of a prefix and one of the items each.
pub fn push_prefixed(out: &mut String, prefix: &str, items: &[String])
    ensures
        final(out)@ == old(out)@ + prefixed_lines(prefix@, text::texts(items@)),
{
    let ghost all = text::texts(items@);
    let mut i: usize = 0;
    proof {
        assert(all.take(0) =~= seq![]);
        assert(out@ =~= old(out)@ + prefixed_lines(prefix@, all.take(0)));
    }
    while i < items.len()
        invariant
            i <= items@.len(),
            all == text::texts(items@),
            out@ == old(out)@ + prefixed_lines(prefix@, all.take(i as int)),
        decreases items.len() - i,
    {
        let ghost was = out@;
        append_text(out, prefix);
        append_text(out, items[i].as_str());
        out.push('\n');
        proof {
            assert(all.take(i + 1).drop_last() =~= all.take(i as int));
            assert(all.take(i + 1).last() == items@[i as int]@);
            assert(out@ =~= old(out)@ + prefixed_lines(prefix@, all.take(i + 1)));
        }
        i += 1;
    }
    assert(all.take(i as int) =~= all);
}

} // verus!
