//! Errors, with lowercase, unpunctuated messages.
use vstd::prelude::*;
use vstd::string::*;

use crate::text;
use crate::hash;
use crate::hash::ObjectId;
use crate::text::{append_decimal, append_text, debug_quote};

verus! {

/// `std::io::Error`, carried through unread.
#[verifier::external_type_specification]
#[verifier::external_body]
pub struct ExIoError(std::io::Error);

/// All errors of the engine.
#[derive(Debug)]
#[non_exhaustive]
pub enum Error {
    /// An I/O error from the operating system.
    Io(std::io::Error),
    /// Object data is structurally corrupt or otherwise undecodable.
    Corruption(String),
    /// Decoding failed because the input was truncated.
    Truncated,
    /// Decoding failed because a varint exceeded 10 bytes (overlong).
    OverlongVarint,
    /// Decoding finished but bytes remain in the buffer.
    TrailingBytes,
    /// The requested object was not found in the store.
    ObjectNotFound(ObjectId),
    /// The repo's on-disk format version is incompatible with this binary.
    FormatVersionMismatch {
        /// The version recorded in the repo.
        repo: u32,
        /// The maximum version this binary understands.
        binary: u32,
    },
    /// A string could not be parsed as a valid `ObjectId`.
    InvalidObjectId(String),
    /// A hex id prefix matched no object in the store; carries the prefix.
    PrefixNotFound(String),
    /// A tree entry name is invalid (empty, `"."`, `".."`, or contains `'/'`
    /// or `'\\'`).
    InvalidTreeEntryName(String),
    /// A caller passed an argument the engine cannot act on.
    InvalidArgument(String),
    /// The filesystem watcher could not be created or failed while watching.
    Watch(String),
    /// The `ProjFS` projection is not available.
    ProjfsUnavailable(String),
}

/// What an error says, with texts as characters. The I/O error of the
/// operating system is left out.
pub enum ErrorV {
    Io,
    Corruption(Seq<char>),
    Truncated,
    OverlongVarint,
    TrailingBytes,
    ObjectNotFound(Seq<u8>),
    FormatVersionMismatch { repo: u32, binary: u32 },
    InvalidObjectId(Seq<char>),
    PrefixNotFound(Seq<char>),
    InvalidTreeEntryName(Seq<char>),
    InvalidArgument(Seq<char>),
    Watch(Seq<char>),
    ProjfsUnavailable(Seq<char>),
}

impl View for Error {
    type V = ErrorV;

    open spec fn view(&self) -> ErrorV {
        match *self {
            Error::Io(_) => ErrorV::Io,
            Error::Corruption(s) => ErrorV::Corruption(s@),
            Error::Truncated => ErrorV::Truncated,
            Error::OverlongVarint => ErrorV::OverlongVarint,
            Error::TrailingBytes => ErrorV::TrailingBytes,
            Error::ObjectNotFound(id) => ErrorV::ObjectNotFound(id@),
            Error::FormatVersionMismatch { repo, binary } => ErrorV::FormatVersionMismatch {
                repo,
                binary,
            },
            Error::InvalidObjectId(s) => ErrorV::InvalidObjectId(s@),
            Error::PrefixNotFound(s) => ErrorV::PrefixNotFound(s@),
            Error::InvalidTreeEntryName(s) => ErrorV::InvalidTreeEntryName(s@),
            Error::InvalidArgument(s) => ErrorV::InvalidArgument(s@),
            Error::Watch(s) => ErrorV::Watch(s@),
            Error::ProjfsUnavailable(s) => ErrorV::ProjfsUnavailable(s@),
        }
    }
}

/// A result with its value and its error replaced by their views.
pub open spec fn outcome<T: View>(r: Result<T, Error>) -> Result<T::V, ErrorV> {
    match r {
        Ok(v) => Ok(v@),
        Err(e) => Err(e@),
    }
}

/// The message of an error; for an I/O error only its beginning.
pub open spec fn error_text(e: ErrorV) -> Seq<char> {
    match e {
        ErrorV::Io => "io error: "@,
        ErrorV::Corruption(s) => "corrupt object: "@ + s,
        ErrorV::Truncated => "decode error: input truncated"@,
        ErrorV::OverlongVarint => "decode error: varint is overlong"@,
        ErrorV::TrailingBytes => "decode error: trailing bytes after object"@,
        ErrorV::ObjectNotFound(id) => "object not found: "@ + hash::hex_text(id),
        ErrorV::FormatVersionMismatch { repo, binary } => {
            "format version mismatch: repo requires version "@ + text::decimal_text(repo as nat)
                + ", binary supports version "@ + text::decimal_text(binary as nat)
        },
        ErrorV::InvalidObjectId(s) => "invalid object id: "@ + s,
        ErrorV::PrefixNotFound(s) => "no object matches id prefix: "@ + s,
        ErrorV::InvalidTreeEntryName(s) => "invalid tree entry name: "@ + text::debug_text(s),
        ErrorV::InvalidArgument(s) => "invalid argument: "@ + s,
        ErrorV::Watch(s) => "watch error: "@ + s,
        ErrorV::ProjfsUnavailable(s) => "projfs unavailable: "@ + s,
    }
}

impl From<std::io::Error> for Error {
    fn from(error: std::io::Error) -> (r: Error) {
        Error::Io(error)
    }
}

impl vstd::std_specs::convert::FromSpecImpl<std::io::Error> for Error {
    open spec fn obeys_from_spec() -> bool {
        true
    }

    open spec fn from_spec(error: std::io::Error) -> Error {
        Error::Io(error)
    }
}

/// `std::io::Error`'s `Display`: the text depends on the operating system, so
/// nothing is claimed of it.
#[verifier::external_body]
fn io_error_text(error: &std::io::Error) -> (r: String) {
    error.to_string()
}

/// `prefix` followed by `text`.
fn joined(prefix: &str, text: &str) -> (r: String)
    ensures
        r@ == prefix@ + text@,
{
    let mut out = prefix.to_owned();
    append_text(&mut out, text);
    out
}

impl Error {
    /// The human-readable message of the error.
    ///
    /// Of the message of an I/O error only the beginning is fixed: the rest is
    /// the operating system's.
    pub fn message(&self) -> (r: String)
        ensures
            match self@ {
                ErrorV::Io => text::begins_with(r@, error_text(self@)),
                _ => r@ == error_text(self@),
            },
    {
        match self {
            Error::Io(error) => {
                let text = io_error_text(error);
                let out = joined("io error: ", text.as_str());
                assert(out@.subrange(0, "io error: "@.len() as int) =~= "io error: "@);
                out
            },
            Error::Corruption(s) => joined("corrupt object: ", s.as_str()),
            Error::Truncated => "decode error: input truncated".to_owned(),
            Error::OverlongVarint => "decode error: varint is overlong".to_owned(),
            Error::TrailingBytes => "decode error: trailing bytes after object".to_owned(),
            Error::ObjectNotFound(id) => joined("object not found: ", id.to_hex().as_str()),
            Error::FormatVersionMismatch { repo, binary } => {
                let mut out = "format version mismatch: repo requires version ".to_owned();
                append_decimal(&mut out, *repo as u64);
                append_text(&mut out, ", binary supports version ");
                append_decimal(&mut out, *binary as u64);
                out
            },
            Error::InvalidObjectId(s) => joined("invalid object id: ", s.as_str()),
            Error::PrefixNotFound(s) => joined("no object matches id prefix: ", s.as_str()),
            Error::InvalidTreeEntryName(s) => {
                joined("invalid tree entry name: ", debug_quote(s.as_str()).as_str())
            },
            Error::InvalidArgument(s) => joined("invalid argument: ", s.as_str()),
            Error::Watch(s) => joined("watch error: ", s.as_str()),
            Error::ProjfsUnavailable(s) => joined("projfs unavailable: ", s.as_str()),
        }
    }
}

// ── laws ─────────────────────────────────────────────────────────────────────

/// What is said of an error that has a text of its own: what kind it is, and that text.
pub proof fn law_error_text(s: Seq<char>)
    ensures
        error_text(ErrorV::Corruption(s)) == "corrupt object: "@ + s,
        error_text(ErrorV::InvalidObjectId(s)) == "invalid object id: "@ + s,
        error_text(ErrorV::PrefixNotFound(s)) == "no object matches id prefix: "@ + s,
        error_text(ErrorV::InvalidArgument(s)) == "invalid argument: "@ + s,
        error_text(ErrorV::Watch(s)) == "watch error: "@ + s,
        error_text(ErrorV::ProjfsUnavailable(s)) == "projfs unavailable: "@ + s,
{
}

/// What is said of the other errors.
pub proof fn law_error_facts(id: Seq<u8>, repo: u32, binary: u32)
    ensures
        error_text(ErrorV::ObjectNotFound(id)) == "object not found: "@ + hash::hex_text(id),
        error_text(ErrorV::FormatVersionMismatch { repo, binary })
            == "format version mismatch: repo requires version "@ + text::decimal_text(repo as nat)
            + ", binary supports version "@ + text::decimal_text(binary as nat),
        error_text(ErrorV::Truncated) == "decode error: input truncated"@,
        error_text(ErrorV::OverlongVarint) == "decode error: varint is overlong"@,
        error_text(ErrorV::TrailingBytes) == "decode error: trailing bytes after object"@,
{
}

} // verus!
