//! Content-level (line) diffing between two trees.
//!
//! The file-level [`diff`](crate::diff) module answers *which paths changed*;
//! this module answers *how each file's lines changed*. For each changed file
//! both blobs are read and compared line by line with the `similar` crate.
//!
//! * [`tree_patch`] gives full per-file hunks (the `--patch` view).
//! * [`FileStat::from_patch`] gives the line counts per file (the `--stat` view).
//!
//! Binary files (those with a NUL byte) and files larger than
//! [`MAX_DIFF_BYTES`] are reported with `binary = true` and no hunks, so that
//! the change of the path is never lost.
use std::ops::Range;

use vstd::prelude::*;
use vstd::string::*;
use vstd::utf8::*;

use crate::diff;
use crate::tree;
use crate::store;
use crate::error;
use crate::blob;
use crate::order;
use crate::encoding;
use crate::blob::read_blob;
use crate::diff::{diff_trees, RepoPath, TreeDiffV};
use crate::error::{Error, ErrorV};
use crate::hash::{ObjectId, TypeTag};
use crate::object::Blob;
use crate::order::{sort_stable, text_before, Ranked};
use crate::store::{ObjectStore, Objects};
use crate::text::{chars_of, string_of};
use crate::tree::read_tree_path;

verus! {

/// Upper bound on the byte size of a single side of a file diff. Beyond this
/// the file is reported as `binary` to bound the cost of a diff.
pub const MAX_DIFF_BYTES: usize = 2_097_152;

/// The number of unchanged context lines kept around each change in a hunk.
pub const CONTEXT_RADIUS: usize = 3;

// ── the lines of a diff ──────────────────────────────────────────────────────

/// How a line changed.
#[derive(Debug, Clone, Copy, PartialEq, Eq)]
pub enum ChangeKind {
    /// The line is in both texts.
    Equal,
    /// The line is only in the old text.
    Delete,
    /// The line is only in the new text.
    Insert,
}

/// One line of a diff, with the line break it ends in.
#[derive(Debug, Clone, PartialEq, Eq)]
pub struct LineChange {
    /// How the line changed.
    pub kind: ChangeKind,
    /// The line.
    pub text: String,
}

/// A line of a diff.
pub struct LineChangeV {
    pub kind: ChangeKind,
    pub text: Seq<char>,
}

impl View for LineChange {
    type V = LineChangeV;

    open spec fn view(&self) -> LineChangeV {
        LineChangeV { kind: self.kind, text: self.text@ }
    }
}

/// One operation of a diff: the lines of the old and the new text that it spans
/// (as 0-based ranges), and what becomes of them.
#[derive(Debug)]
pub struct LineOp {
    /// The lines of the old text.
    pub old: Range<usize>,
    /// The lines of the new text.
    pub new: Range<usize>,
    /// The lines of the operation.
    pub lines: Vec<LineChange>,
}

/// An operation of a diff.
pub struct LineOpV {
    pub old_start: nat,
    pub old_end: nat,
    pub new_start: nat,
    pub new_end: nat,
    pub lines: Seq<LineChangeV>,
}

impl View for LineOp {
    type V = LineOpV;

    open spec fn view(&self) -> LineOpV {
        LineOpV {
            old_start: self.old.start as nat,
            old_end: self.old.end as nat,
            new_start: self.new.start as nat,
            new_end: self.new.end as nat,
            lines: encoding::views(self.lines@),
        }
    }
}

/// The diff of two texts: all its lines, and the groups of operations that hold
/// a change with the context around it.
#[derive(Debug)]
pub struct LineDiff {
    /// All lines.
    pub all: Vec<LineChange>,
    /// The groups.
    pub groups: Vec<Vec<LineOp>>,
}

/// The operations of each group.
pub open spec fn group_views(groups: Seq<Vec<LineOp>>) -> Seq<Seq<LineOpV>> {
    groups.map_values(|group: Vec<LineOp>| encoding::views(group@))
}

/// The lines of the line diff of two texts: what
/// `similar::TextDiff::iter_all_changes` gives.
pub uninterp spec fn similar_changes(from: Seq<char>, to: Seq<char>) -> Seq<LineChangeV>;

/// `similar::TextDiff::from_lines`, read with `iter_all_changes`: every line of
/// both texts, with how it changed.
///
/// The result depends on the two texts alone. No line is empty; those that are not
/// inserted make up the old text, those that are not deleted the new one. Which
/// lines are matched is left to the crate.
#[verifier::external_body]
fn similar_lines(from: &str, to: &str) -> (r: Vec<LineChange>)
    ensures
        encoding::views(r@) == similar_changes(from@, to@),
        rebuilds(encoding::views(r@), from@, to@),
{
    let line = |c: similar::Change<&str>| LineChange {
        kind: match c.tag() {
            similar::ChangeTag::Equal => ChangeKind::Equal,
            similar::ChangeTag::Delete => ChangeKind::Delete,
            similar::ChangeTag::Insert => ChangeKind::Insert,
        },
        text: c.value().to_owned(),
    };
    similar::TextDiff::from_lines(from, to).iter_all_changes().map(line).collect()
}

/// The groups of operations of the line diff of two texts, with `radius` lines
/// of context: what `similar::TextDiff::grouped_ops` gives, each operation with
/// its ranges and with what `iter_changes` gives for it.
pub uninterp spec fn similar_groups(from: Seq<char>, to: Seq<char>, radius: usize) -> Seq<
    Seq<LineOpV>,
>;

/// `similar::TextDiff::from_lines`, read with `grouped_ops`, and `iter_changes`
/// for each operation.
///
/// The result depends on the two texts and the radius alone; the crate doubles
/// the radius. The groups leave out no line that changed. The ranges of an operation
/// are as long as it has lines on each side. Nothing is claimed of how they agree with its neighbours': where the crate
/// moves an insertion across a deletion, it leaves the place of each on the other
/// side as it was.
#[verifier::external_body]
fn similar_hunks(from: &str, to: &str, radius: usize) -> (r: Vec<Vec<LineOp>>)
    requires
        radius <= usize::MAX / 2,
    ensures
        group_views(r@) == similar_groups(from@, to@, radius),
        all_spanned(group_views(r@)),
        groups_have(group_views(r@), ChangeKind::Insert) == count_of(
            similar_changes(from@, to@),
            ChangeKind::Insert,
        ),
        groups_have(group_views(r@), ChangeKind::Delete) == count_of(
            similar_changes(from@, to@),
            ChangeKind::Delete,
        ),
{
    let diff = similar::TextDiff::from_lines(from, to);
    let line = |c: similar::Change<&str>| LineChange {
        kind: match c.tag() {
            similar::ChangeTag::Equal => ChangeKind::Equal,
            similar::ChangeTag::Delete => ChangeKind::Delete,
            similar::ChangeTag::Insert => ChangeKind::Insert,
        },
        text: c.value().to_owned(),
    };
    let lines = |op: &similar::DiffOp| diff.iter_changes(op).map(line).collect();
    let op = |op: &similar::DiffOp| LineOp { old: op.old_range(), new: op.new_range(), lines: lines(op) };
    diff.grouped_ops(radius).iter().map(|g| g.iter().map(op).collect()).collect()
}

/// The text that bytes stand for, with what is not UTF-8 replaced.
pub uninterp spec fn utf8_lossy(bytes: Seq<u8>) -> Seq<char>;

/// `String::from_utf8_lossy` of std: well-formed UTF-8 is the text that it
/// encodes; how ill-formed bytes are replaced is left to std.
#[verifier::external_body]
fn lossy_text(bytes: &[u8]) -> (r: String)
    ensures
        r@ == utf8_lossy(bytes@),
        valid_utf8(bytes@) ==> r@ == decode_utf8(bytes@),
{
    String::from_utf8_lossy(bytes).into_owned()
}

// ── patches ──────────────────────────────────────────────────────────────────

/// One line of a [`Hunk`], tagged by how it changed.
#[derive(Debug, Clone, PartialEq, Eq)]
pub struct DiffLine {
    /// `"context"` (unchanged), `"insert"` (only in the new file), or
    /// `"delete"` (only in the old file).
    pub tag: String,
    /// The line content, with its trailing newline stripped.
    pub content: String,
}

/// A line of a hunk.
pub struct DiffLineV {
    pub tag: Seq<char>,
    pub content: Seq<char>,
}

impl View for DiffLine {
    type V = DiffLineV;

    open spec fn view(&self) -> DiffLineV {
        DiffLineV { tag: self.tag@, content: self.content@ }
    }
}

/// A contiguous block of changes with surrounding context, carrying the 1-based
/// start line and line count on each side (the unified-diff `@@` coordinates).
#[derive(Debug, Clone, PartialEq, Eq)]
pub struct Hunk {
    /// 1-based start line in the old file.
    pub old_start: usize,
    /// Number of old-file lines the hunk spans.
    pub old_lines: usize,
    /// 1-based start line in the new file.
    pub new_start: usize,
    /// Number of new-file lines the hunk spans.
    pub new_lines: usize,
    /// The tagged lines of the hunk, in order.
    pub lines: Vec<DiffLine>,
}

/// A hunk.
pub struct HunkV {
    pub old_start: nat,
    pub old_lines: nat,
    pub new_start: nat,
    pub new_lines: nat,
    pub lines: Seq<DiffLineV>,
}

impl View for Hunk {
    type V = HunkV;

    open spec fn view(&self) -> HunkV {
        HunkV {
            old_start: self.old_start as nat,
            old_lines: self.old_lines as nat,
            new_start: self.new_start as nat,
            new_lines: self.new_lines as nat,
            lines: encoding::views(self.lines@),
        }
    }
}

/// A full content diff for one changed file.
#[derive(Debug, Clone, PartialEq, Eq)]
pub struct FilePatch {
    /// The repo-relative path (forward-slashed).
    pub path: String,
    /// `"added"`, `"removed"`, or `"modified"`.
    pub change: String,
    /// `true` if the file was not line-diffed (binary content or oversize).
    pub binary: bool,
    /// Count of inserted lines.
    pub added_lines: usize,
    /// Count of deleted lines.
    pub removed_lines: usize,
    /// The diff hunks (empty when `binary`).
    pub hunks: Vec<Hunk>,
}

/// The content diff of a file.
pub struct FilePatchV {
    pub path: Seq<char>,
    pub change: Seq<char>,
    pub binary: bool,
    pub added_lines: nat,
    pub removed_lines: nat,
    pub hunks: Seq<HunkV>,
}

impl View for FilePatch {
    type V = FilePatchV;

    open spec fn view(&self) -> FilePatchV {
        FilePatchV {
            path: self.path@,
            change: self.change@,
            binary: self.binary,
            added_lines: self.added_lines as nat,
            removed_lines: self.removed_lines as nat,
            hunks: encoding::views(self.hunks@),
        }
    }
}

impl Ranked for FilePatch {
    open spec fn rank(&self) -> Seq<int> {
        order::text_rank(self@.path)
    }

    fn precedes(&self, other: &Self) -> (r: bool) {
        text_before(self.path.as_str(), other.path.as_str())
    }
}

/// A per-file line-count summary (the `--stat` projection of a [`FilePatch`]).
#[derive(Debug, Clone, PartialEq, Eq)]
pub struct FileStat {
    /// The repo-relative path (forward-slashed).
    pub path: String,
    /// `"added"`, `"removed"`, or `"modified"`.
    pub change: String,
    /// `true` if the file was not line-diffed (binary content or oversize).
    pub binary: bool,
    /// Count of inserted lines.
    pub added_lines: usize,
    /// Count of deleted lines.
    pub removed_lines: usize,
}

/// The line counts of a file.
pub struct FileStatV {
    pub path: Seq<char>,
    pub change: Seq<char>,
    pub binary: bool,
    pub added_lines: nat,
    pub removed_lines: nat,
}

impl View for FileStat {
    type V = FileStatV;

    open spec fn view(&self) -> FileStatV {
        FileStatV {
            path: self.path@,
            change: self.change@,
            binary: self.binary,
            added_lines: self.added_lines as nat,
            removed_lines: self.removed_lines as nat,
        }
    }
}

/// The line counts of a patch.
pub open spec fn stat_of(patch: FilePatchV) -> FileStatV {
    FileStatV {
        path: patch.path,
        change: patch.change,
        binary: patch.binary,
        added_lines: patch.added_lines,
        removed_lines: patch.removed_lines,
    }
}

impl FileStat {
    /// Projects a [`FilePatch`] to its line-count summary (drops the hunks).
    #[must_use]
    pub fn from_patch(patch: &FilePatch) -> (r: Self)
        ensures
            r@ == stat_of(patch@),
    {
        Self {
            path: patch.path.clone(),
            change: patch.change.clone(),
            binary: patch.binary,
            added_lines: patch.added_lines,
            removed_lines: patch.removed_lines,
        }
    }
}

/// The lines that did not change in the given way, one after the other.
pub open spec fn joined_but(lines: Seq<LineChangeV>, kind: ChangeKind) -> Seq<char>
    decreases lines.len(),
{
    if lines.len() == 0 {
        seq![]
    } else if lines.last().kind == kind {
        joined_but(lines.drop_last(), kind)
    } else {
        joined_but(lines.drop_last(), kind) + lines.last().text
    }
}

/// Whether the lines of a diff, none of them empty, make up the old text without
/// those that are inserted, and the new text without those that are deleted.
pub open spec fn rebuilds(lines: Seq<LineChangeV>, from: Seq<char>, to: Seq<char>) -> bool {
    &&& joined_but(lines, ChangeKind::Insert) == from
    &&& joined_but(lines, ChangeKind::Delete) == to
    &&& forall|i: int| 0 <= i < lines.len() ==> (#[trigger] lines[i]).text.len() > 0
}

/// How many lines of a group changed in the given way.
pub open spec fn group_has(ops: Seq<LineOpV>, kind: ChangeKind) -> nat
    decreases ops.len(),
{
    if ops.len() == 0 {
        0
    } else {
        group_has(ops.drop_last(), kind) + count_of(ops.last().lines, kind)
    }
}

/// How many lines of all groups changed in the given way.
pub open spec fn groups_have(groups: Seq<Seq<LineOpV>>, kind: ChangeKind) -> nat
    decreases groups.len(),
{
    if groups.len() == 0 {
        0
    } else {
        groups_have(groups.drop_last(), kind) + group_has(groups.last(), kind)
    }
}

/// Whether the ranges of an operation are as long as it has lines on each side.
pub open spec fn spans_its_lines(op: LineOpV) -> bool {
    &&& op.old_start + count_but(op.lines, ChangeKind::Insert) == op.old_end
    &&& op.new_start + count_but(op.lines, ChangeKind::Delete) == op.new_end
}

/// Whether all operations of all groups span their lines.
pub open spec fn all_spanned(groups: Seq<Seq<LineOpV>>) -> bool {
    forall|i: int, k: int|
        0 <= i < groups.len() && 0 <= k < groups[i].len() ==> spans_its_lines(
            #[trigger] groups[i][k],
        )
}

/// How many of the lines changed in the given way.
pub open spec fn count_of(lines: Seq<LineChangeV>, kind: ChangeKind) -> nat
    decreases lines.len(),
{
    if lines.len() == 0 {
        0
    } else {
        count_of(lines.drop_last(), kind) + (if lines.last().kind == kind {
            1nat
        } else {
            0nat
        })
    }
}

/// `s` without the line breaks at its end.
pub open spec fn without_break(s: Seq<char>) -> Seq<char>
    decreases s.len(),
{
    if s.len() > 0 && (s.last() == '\n' || s.last() == '\r') {
        without_break(s.drop_last())
    } else {
        s
    }
}

/// The name of a kind of change.
pub open spec fn kind_name(kind: ChangeKind) -> Seq<char> {
    match kind {
        ChangeKind::Equal => "context"@,
        ChangeKind::Delete => "delete"@,
        ChangeKind::Insert => "insert"@,
    }
}

/// The line of a hunk for a line of a diff.
pub open spec fn diff_line(line: LineChangeV) -> DiffLineV {
    DiffLineV { tag: kind_name(line.kind), content: without_break(line.text) }
}

/// The lines of all operations of a group.
pub open spec fn group_lines(ops: Seq<LineOpV>) -> Seq<DiffLineV>
    decreases ops.len(),
{
    if ops.len() == 0 {
        seq![]
    } else {
        group_lines(ops.drop_last()) + ops.last().lines.map_values(
            |line: LineChangeV| diff_line(line),
        )
    }
}

/// How many lines of a hunk are not of the given kind: those of the old text
/// without the inserted lines, those of the new text without the deleted ones.
pub open spec fn count_but(lines: Seq<LineChangeV>, kind: ChangeKind) -> nat
    decreases lines.len(),
{
    if lines.len() == 0 {
        0
    } else {
        count_but(lines.drop_last(), kind) + (if lines.last().kind == kind {
            0nat
        } else {
            1nat
        })
    }
}

/// How many lines of a group are not of the given kind.
pub open spec fn group_count(ops: Seq<LineOpV>, kind: ChangeKind) -> nat
    decreases ops.len(),
{
    if ops.len() == 0 {
        0
    } else {
        group_count(ops.drop_last(), kind) + count_but(ops.last().lines, kind)
    }
}

/// The 1-based number of the first line of the old text in a group: where the
/// first operation that spans one begins. Without such a line, 0.
pub open spec fn first_old(ops: Seq<LineOpV>) -> nat
    decreases ops.len(),
{
    if ops.len() == 0 {
        0
    } else if ops[0].old_start < ops[0].old_end {
        ops[0].old_start + 1
    } else {
        first_old(ops.drop_first())
    }
}

/// The 1-based number of the first line of the new text in a group. Without such
/// a line, 0.
pub open spec fn first_new(ops: Seq<LineOpV>) -> nat
    decreases ops.len(),
{
    if ops.len() == 0 {
        0
    } else if ops[0].new_start < ops[0].new_end {
        ops[0].new_start + 1
    } else {
        first_new(ops.drop_first())
    }
}

/// The hunk of a group: where it begins on each side and how many lines it has
/// there.
pub open spec fn hunk_of(ops: Seq<LineOpV>) -> HunkV {
    HunkV {
        old_start: first_old(ops),
        old_lines: group_count(ops, ChangeKind::Insert),
        new_start: first_new(ops),
        new_lines: group_count(ops, ChangeKind::Delete),
        lines: group_lines(ops),
    }
}

/// The hunks of the groups; empty groups give none.
pub open spec fn hunks_of(groups: Seq<Seq<LineOpV>>) -> Seq<HunkV>
    decreases groups.len(),
{
    if groups.len() == 0 {
        seq![]
    } else if groups.last().len() == 0 {
        hunks_of(groups.drop_last())
    } else {
        hunks_of(groups.drop_last()).push(hunk_of(groups.last()))
    }
}

/// The patch of a file whose texts were compared.
pub open spec fn text_patch_of(
    path: Seq<char>,
    change: Seq<char>,
    all: Seq<LineChangeV>,
    groups: Seq<Seq<LineOpV>>,
) -> FilePatchV {
    FilePatchV {
        path,
        change,
        binary: false,
        added_lines: count_of(all, ChangeKind::Insert),
        removed_lines: count_of(all, ChangeKind::Delete),
        hunks: hunks_of(groups),
    }
}

/// The patch of a file that is not compared line by line.
pub open spec fn binary_patch_of(path: Seq<char>, change: Seq<char>) -> FilePatchV {
    FilePatchV {
        path,
        change,
        binary: true,
        added_lines: 0,
        removed_lines: 0,
        hunks: seq![],
    }
}

/// One side of a file diff: either its raw bytes, or a marker that it is too
/// large to compare.
#[derive(Debug, Clone, PartialEq, Eq)]
pub enum Side {
    /// The bytes of the file.
    Bytes(Vec<u8>),
    /// The file exceeds [`MAX_DIFF_BYTES`] and was **not** read.
    Oversize,
}

/// One side of a file diff.
pub enum SideV {
    Bytes(Seq<u8>),
    Oversize,
}

impl View for Side {
    type V = SideV;

    open spec fn view(&self) -> SideV {
        match *self {
            Side::Bytes(bytes) => SideV::Bytes(bytes@),
            Side::Oversize => SideV::Oversize,
        }
    }
}

/// The patch of a file, given the diff of the texts, which is only made where
/// both sides are text.
pub open spec fn patch_of(
    path: Seq<char>,
    change: Seq<char>,
    from: SideV,
    to: SideV,
) -> FilePatchV {
    match (from, to) {
        (SideV::Bytes(f), SideV::Bytes(t)) => if f.contains(0u8) || t.contains(0u8) {
            binary_patch_of(path, change)
        } else {
            let old_text = utf8_lossy(f);
            let new_text = utf8_lossy(t);
            text_patch_of(
                path,
                change,
                similar_changes(old_text, new_text),
                similar_groups(old_text, new_text, CONTEXT_RADIUS),
            )
        },
        _ => binary_patch_of(path, change),
    }
}

/// Whether `bytes` look binary (contain a NUL byte).
///
/// The **size** bound is enforced earlier, in [`read_side`].
pub fn is_binary(bytes: &[u8]) -> (r: bool)
    ensures
        r == bytes@.contains(0u8),
{
    let mut i: usize = 0;
    while i < bytes.len()
        invariant
            i <= bytes@.len(),
            forall|k: int| 0 <= k < i ==> bytes@[k] != 0,
        decreases bytes.len() - i,
    {
        if bytes[i] == 0 {
            return true;
        }
        i += 1;
    }
    false
}

/// A "reported but not line-diffed" patch (binary or oversize content).
fn binary_patch(path: &str, change: &str) -> (r: FilePatch)
    ensures
        r@ == binary_patch_of(path@, change@),
{
    let hunks: Vec<Hunk> = Vec::new();
    assert(encoding::views(hunks@) =~= seq![]);
    FilePatch {
        path: path.to_owned(),
        change: change.to_owned(),
        binary: true,
        added_lines: 0,
        removed_lines: 0,
        hunks,
    }
}

/// How many of the lines changed in the given way.
fn count_lines(lines: &[LineChange], kind: ChangeKind) -> (r: usize)
    ensures
        r == count_of(encoding::views(lines@), kind),
{
    let ghost all = encoding::views(lines@);
    let mut n: usize = 0;
    let mut i: usize = 0;
    assert(all.take(0) =~= seq![]);
    while i < lines.len()
        invariant
            i <= lines@.len(),
            n <= i,
            all == encoding::views(lines@),
            n == count_of(all.take(i as int), kind),
        decreases lines.len() - i,
    {
        proof {
            assert(all.take(i + 1).drop_last() =~= all.take(i as int));
            assert(all.take(i + 1).last() == lines@[i as int]@);
        }
        let same = match (lines[i].kind, kind) {
            (ChangeKind::Equal, ChangeKind::Equal) => true,
            (ChangeKind::Delete, ChangeKind::Delete) => true,
            (ChangeKind::Insert, ChangeKind::Insert) => true,
            _ => false,
        };
        if same {
            n += 1;
        }
        i += 1;
    }
    assert(all.take(i as int) =~= all);
    n
}

/// A copy of `s` without the line breaks at its end.
fn strip_break(s: &str) -> (r: String)
    ensures
        r@ == without_break(s@),
{
    let chars = chars_of(s);
    let mut to: usize = chars.len();
    assert(chars@.subrange(0, to as int) =~= s@);
    while to > 0 && (chars[to - 1] == '\n' || chars[to - 1] == '\r')
        invariant
            to <= chars@.len(),
            without_break(chars@.subrange(0, to as int)) == without_break(s@),
        decreases to,
    {
        assert(chars@.subrange(0, to as int).drop_last() =~= chars@.subrange(0, to - 1));
        to -= 1;
    }
    string_of(&chars, 0, to)
}

/// The line of a hunk for a line of a diff.
fn hunk_line(line: &LineChange) -> (r: DiffLine)
    ensures
        r@ == diff_line(line@),
{
    let tag = match line.kind {
        ChangeKind::Equal => "context".to_owned(),
        ChangeKind::Delete => "delete".to_owned(),
        ChangeKind::Insert => "insert".to_owned(),
    };
    DiffLine { tag, content: strip_break(line.text.as_str()) }
}

/// Appends the lines of an operation.
fn push_lines(out: &mut Vec<DiffLine>, lines: &[LineChange])
    ensures
        encoding::views(final(out)@) == encoding::views(old(out)@) + encoding::views(lines@).map_values(
            |line: LineChangeV| diff_line(line),
        ),
{
    let ghost all = encoding::views(lines@).map_values(|line: LineChangeV| diff_line(line));
    let mut i: usize = 0;
    assert(encoding::views(out@) =~= encoding::views(old(out)@) + all.take(0));
    while i < lines.len()
        invariant
            i <= lines@.len(),
            all == encoding::views(lines@).map_values(|line: LineChangeV| diff_line(line)),
            encoding::views(out@) == encoding::views(old(out)@) + all.take(i as int),
        decreases lines.len() - i,
    {
        let ghost was = out@;
        out.push(hunk_line(&lines[i]));
        proof {
            assert(encoding::views(out@) =~= encoding::views(was).push(all[i as int]));
            assert(all.take(i + 1) =~= all.take(i as int).push(all[i as int]));
        }
        i += 1;
    }
    assert(all.take(i as int) =~= all);
}

/// The lines that are of the given kind and those that are not are all lines.
proof fn lemma_counts_add_up(lines: Seq<LineChangeV>, kind: ChangeKind)
    ensures
        count_of(lines, kind) + count_but(lines, kind) == lines.len(),
    decreases lines.len(),
{
    if lines.len() > 0 {
        lemma_counts_add_up(lines.drop_last(), kind);
    }
}

/// The 1-based number of the first line of the old text in a group, or 0.
fn old_place(ops: &[LineOp]) -> (r: usize)
    ensures
        r == first_old(encoding::views(ops@)),
{
    let ghost all = encoding::views(ops@);
    let mut i: usize = 0;
    assert(all.skip(0) =~= all);
    while i < ops.len()
        invariant
            i <= ops@.len(),
            all == encoding::views(ops@),
            first_old(all.skip(i as int)) == first_old(all),
        decreases ops.len() - i,
    {
        proof {
            assert(all.skip(i as int)[0] == ops@[i as int]@);
            assert(all.skip(i as int).drop_first() =~= all.skip(i + 1));
        }
        if ops[i].old.start < ops[i].old.end {
            return ops[i].old.start + 1;
        }
        i += 1;
    }
    0
}

/// The 1-based number of the first line of the new text in a group, or 0.
fn new_place(ops: &[LineOp]) -> (r: usize)
    ensures
        r == first_new(encoding::views(ops@)),
{
    let ghost all = encoding::views(ops@);
    let mut i: usize = 0;
    assert(all.skip(0) =~= all);
    while i < ops.len()
        invariant
            i <= ops@.len(),
            all == encoding::views(ops@),
            first_new(all.skip(i as int)) == first_new(all),
        decreases ops.len() - i,
    {
        proof {
            assert(all.skip(i as int)[0] == ops@[i as int]@);
            assert(all.skip(i as int).drop_first() =~= all.skip(i + 1));
        }
        if ops[i].new.start < ops[i].new.end {
            return ops[i].new.start + 1;
        }
        i += 1;
    }
    0
}

/// The hunk of a group.
fn build_hunk(ops: &[LineOp]) -> (r: Hunk)
    ensures
        r@ == hunk_of(encoding::views(ops@)),
{
    let ghost all = encoding::views(ops@);
    let mut lines: Vec<DiffLine> = Vec::new();
    let mut old_lines: usize = 0;
    let mut new_lines: usize = 0;
    let mut i: usize = 0;
    proof {
        assert(encoding::views(lines@) =~= seq![]);
        assert(all.take(0) =~= seq![]);
    }
    while i < ops.len()
        invariant
            i <= ops@.len(),
            all == encoding::views(ops@),
            encoding::views(lines@) == group_lines(all.take(i as int)),
            old_lines == group_count(all.take(i as int), ChangeKind::Insert),
            new_lines == group_count(all.take(i as int), ChangeKind::Delete),
            old_lines <= lines@.len(),
            new_lines <= lines@.len(),
        decreases ops.len() - i,
    {
        let of_op = ops[i].lines.as_slice();
        let ghost before = lines@.len();
        proof {
            assert(all.take(i + 1).drop_last() =~= all.take(i as int));
            assert(all.take(i + 1).last() == ops@[i as int]@);
            lemma_counts_add_up(encoding::views(of_op@), ChangeKind::Insert);
            lemma_counts_add_up(encoding::views(of_op@), ChangeKind::Delete);
        }
        push_lines(&mut lines, of_op);
        assert(encoding::views(lines@).len() == before + of_op@.len());
        assert(lines.len() <= usize::MAX);
        old_lines = old_lines + (of_op.len() - count_lines(of_op, ChangeKind::Insert));
        new_lines = new_lines + (of_op.len() - count_lines(of_op, ChangeKind::Delete));
        i += 1;
    }
    assert(all.take(i as int) =~= all);
    Hunk {
        // Unified-diff coordinates are 1-based, except that a side without lines
        // starts at 0.
        old_start: old_place(ops),
        old_lines,
        new_start: new_place(ops),
        new_lines,
        lines,
    }
}

/// How many lines of a hunk do not have the given tag.
pub open spec fn tagged_but(lines: Seq<DiffLineV>, tag: Seq<char>) -> nat
    decreases lines.len(),
{
    if lines.len() == 0 {
        0
    } else {
        tagged_but(lines.drop_last(), tag) + (if lines.last().tag == tag {
            0nat
        } else {
            1nat
        })
    }
}

/// A hunk has as many old-file lines as it holds lines that are not inserted, and
/// as many new-file lines as it holds lines that are not deleted.
pub proof fn lemma_hunk_counts_its_lines(ops: Seq<LineOpV>)
    ensures
        hunk_of(ops).old_lines == tagged_but(hunk_of(ops).lines, "insert"@),
        hunk_of(ops).new_lines == tagged_but(hunk_of(ops).lines, "delete"@),
    decreases ops.len(),
{
    if ops.len() > 0 {
        lemma_hunk_counts_its_lines(ops.drop_last());
        let before = group_lines(ops.drop_last());
        lemma_tags_count(before, ops.last().lines, ChangeKind::Insert);
        lemma_tags_count(before, ops.last().lines, ChangeKind::Delete);
    }
}

/// The lines of an operation add as many tags as they add lines.
proof fn lemma_tags_count(before: Seq<DiffLineV>, lines: Seq<LineChangeV>, kind: ChangeKind)
    ensures
        tagged_but(before + lines.map_values(|line: LineChangeV| diff_line(line)), kind_name(kind))
            == tagged_but(before, kind_name(kind)) + count_but(lines, kind),
    decreases lines.len(),
{
    let tagged = lines.map_values(|line: LineChangeV| diff_line(line));
    if lines.len() == 0 {
        assert(before + tagged =~= before);
    } else {
        let shorter = lines.drop_last().map_values(|line: LineChangeV| diff_line(line));
        lemma_tags_count(before, lines.drop_last(), kind);
        assert((before + tagged).drop_last() =~= before + shorter);
        assert((before + tagged).last() == diff_line(lines.last()));
        lemma_kind_names();
    }
}

/// Whether a hunk begins at line 1 or later on the sides where it has lines, and
/// at 0 on those where it has none.
pub open spec fn placed(hunk: HunkV) -> bool {
    &&& hunk.old_start == 0 <==> hunk.old_lines == 0
    &&& hunk.new_start == 0 <==> hunk.new_lines == 0
}

/// Whether all hunks of a patch are placed.
pub open spec fn all_placed(patch: FilePatchV) -> bool {
    forall|i: int| 0 <= i < patch.hunks.len() ==> placed(#[trigger] patch.hunks[i])
}

/// How many lines of a hunk have the given tag.
pub open spec fn tagged(lines: Seq<DiffLineV>, tag: Seq<char>) -> nat
    decreases lines.len(),
{
    if lines.len() == 0 {
        0
    } else {
        tagged(lines.drop_last(), tag) + (if lines.last().tag == tag {
            1nat
        } else {
            0nat
        })
    }
}

/// How many lines of all hunks have the given tag.
pub open spec fn all_tagged(hunks: Seq<HunkV>, tag: Seq<char>) -> nat
    decreases hunks.len(),
{
    if hunks.len() == 0 {
        0
    } else {
        all_tagged(hunks.drop_last(), tag) + tagged(hunks.last().lines, tag)
    }
}

/// Whether the line counts of a patch are those of its hunks.
pub open spec fn adds_up(patch: FilePatchV) -> bool {
    &&& patch.added_lines == all_tagged(patch.hunks, "insert"@)
    &&& patch.removed_lines == all_tagged(patch.hunks, "delete"@)
}

/// Whether all hunks of a patch are placed, and its line counts are theirs.
pub open spec fn consistent(patch: FilePatchV) -> bool {
    all_placed(patch) && adds_up(patch)
}

/// The lines of an operation add as many tags as they add changes.
proof fn lemma_tagged_lines(before: Seq<DiffLineV>, lines: Seq<LineChangeV>, kind: ChangeKind)
    ensures
        tagged(before + lines.map_values(|line: LineChangeV| diff_line(line)), kind_name(kind))
            == tagged(before, kind_name(kind)) + count_of(lines, kind),
    decreases lines.len(),
{
    let of_lines = lines.map_values(|line: LineChangeV| diff_line(line));
    if lines.len() == 0 {
        assert(before + of_lines =~= before);
    } else {
        let shorter = lines.drop_last().map_values(|line: LineChangeV| diff_line(line));
        lemma_tagged_lines(before, lines.drop_last(), kind);
        assert((before + of_lines).drop_last() =~= before + shorter);
        assert((before + of_lines).last() == diff_line(lines.last()));
        lemma_kind_names();
    }
}

/// The three kinds have three names.
proof fn lemma_kind_names()
    ensures
        "context"@ != "delete"@,
        "context"@ != "insert"@,
        "delete"@ != "insert"@,
{
    reveal_strlit("context");
    reveal_strlit("delete");
    reveal_strlit("insert");
    assert("context"@.len() == 7 && "delete"@.len() == 6 && "insert"@.len() == 6);
    assert("delete"@[0] == 'd' && "insert"@[0] == 'i');
}

proof fn lemma_group_tagged(ops: Seq<LineOpV>, kind: ChangeKind)
    ensures
        tagged(group_lines(ops), kind_name(kind)) == group_has(ops, kind),
    decreases ops.len(),
{
    if ops.len() > 0 {
        lemma_group_tagged(ops.drop_last(), kind);
        lemma_tagged_lines(group_lines(ops.drop_last()), ops.last().lines, kind);
    }
}

/// The hunks hold the lines of the groups.
proof fn lemma_hunks_tagged(groups: Seq<Seq<LineOpV>>, kind: ChangeKind)
    ensures
        all_tagged(hunks_of(groups), kind_name(kind)) == groups_have(groups, kind),
    decreases groups.len(),
{
    if groups.len() > 0 {
        lemma_hunks_tagged(groups.drop_last(), kind);
        lemma_group_tagged(groups.last(), kind);
        if groups.last().len() > 0 {
            let before = hunks_of(groups.drop_last());
            assert(hunks_of(groups).drop_last() =~= before);
        }
    }
}

/// Where no line is inserted and none deleted, both texts are the same.
proof fn lemma_no_change_same_text(lines: Seq<LineChangeV>)
    requires
        count_of(lines, ChangeKind::Insert) == 0,
        count_of(lines, ChangeKind::Delete) == 0,
    ensures
        joined_but(lines, ChangeKind::Insert) == joined_but(lines, ChangeKind::Delete),
    decreases lines.len(),
{
    if lines.len() > 0 {
        lemma_no_change_same_text(lines.drop_last());
    }
}

/// The lines of a group are those of its first operation and those of the others.
proof fn lemma_group_count_first(ops: Seq<LineOpV>, kind: ChangeKind)
    requires
        ops.len() > 0,
    ensures
        group_count(ops, kind) == count_but(ops[0].lines, kind) + group_count(
            ops.drop_first(),
            kind,
        ),
    decreases ops.len(),
{
    if ops.len() == 1 {
        assert(ops.drop_last() =~= seq![]);
        assert(ops.drop_first() =~= seq![]);
    } else {
        lemma_group_count_first(ops.drop_last(), kind);
        assert(ops.drop_last().drop_first() =~= ops.drop_first().drop_last());
        assert(ops.drop_first().last() == ops.last());
    }
}

/// The hunk of a group whose operations span their lines is placed.
pub proof fn lemma_hunk_placed(ops: Seq<LineOpV>)
    requires
        forall|k: int| 0 <= k < ops.len() ==> spans_its_lines(#[trigger] ops[k]),
    ensures
        placed(hunk_of(ops)),
    decreases ops.len(),
{
    if ops.len() > 0 {
        let rest = ops.drop_first();
        assert forall|k: int| 0 <= k < rest.len() implies spans_its_lines(#[trigger] rest[k]) by {
            assert(rest[k] == ops[k + 1]);
        }
        assert(spans_its_lines(ops[0]));
        lemma_hunk_placed(rest);
        lemma_group_count_first(ops, ChangeKind::Insert);
        lemma_group_count_first(ops, ChangeKind::Delete);
    }
}

/// The hunks of groups whose operations span their lines are placed.
proof fn lemma_hunks_placed(groups: Seq<Seq<LineOpV>>)
    requires
        all_spanned(groups),
    ensures
        forall|i: int| 0 <= i < hunks_of(groups).len() ==> placed(#[trigger] hunks_of(groups)[i]),
    decreases groups.len(),
{
    if groups.len() > 0 {
        let before = groups.drop_last();
        assert forall|i: int, k: int|
            0 <= i < before.len() && 0 <= k < before[i].len() implies spans_its_lines(
            #[trigger] before[i][k],
        ) by {
            assert(before[i] == groups[i]);
            assert(spans_its_lines(groups[i][k]));
        }
        lemma_hunks_placed(before);
        let last = groups.last();
        assert forall|k: int| 0 <= k < last.len() implies spans_its_lines(#[trigger] last[k]) by {
            assert(spans_its_lines(groups[groups.len() - 1][k]));
        }
        lemma_hunk_placed(last);
        assert forall|i: int| 0 <= i < hunks_of(groups).len() implies placed(
            #[trigger] hunks_of(groups)[i],
        ) by {
            if i < hunks_of(before).len() {
                assert(hunks_of(groups)[i] == hunks_of(before)[i]);
            }
        }
    }
}

/// The patch of a file whose texts have the given diff.
pub fn text_patch(path: &str, change: &str, diff: &LineDiff) -> (r: FilePatch)
    ensures
        r@ == text_patch_of(path@, change@, encoding::views(diff.all@), group_views(diff.groups@)),
{
    let added_lines = count_lines(diff.all.as_slice(), ChangeKind::Insert);
    let removed_lines = count_lines(diff.all.as_slice(), ChangeKind::Delete);
    let ghost groups = group_views(diff.groups@);
    let mut hunks: Vec<Hunk> = Vec::new();
    let mut i: usize = 0;
    proof {
        assert(encoding::views(hunks@) =~= seq![]);
        assert(groups.take(0) =~= seq![]);
    }
    while i < diff.groups.len()
        invariant
            i <= diff.groups@.len(),
            groups == group_views(diff.groups@),
            encoding::views(hunks@) == hunks_of(groups.take(i as int)),
        decreases diff.groups.len() - i,
    {
        let group = &diff.groups[i];
        proof {
            assert(groups[i as int] == encoding::views(group@));
            assert(groups.take(i + 1).drop_last() =~= groups.take(i as int));
            assert(groups.take(i + 1).last() == encoding::views(group@));
        }
        if group.len() > 0 {
            let ghost was = hunks@;
            let hunk = build_hunk(group.as_slice());
            hunks.push(hunk);
            assert(encoding::views(hunks@) =~= encoding::views(was).push(hunk@));
        }
        i += 1;
    }
    assert(groups.take(i as int) =~= groups);
    FilePatch {
        path: path.to_owned(),
        change: change.to_owned(),
        binary: false,
        added_lines,
        removed_lines,
        hunks,
    }
}

/// Builds a [`FilePatch`] from the two sides.
///
/// Reported without hunks when either side is [`Side::Oversize`] or contains a
/// NUL byte; otherwise the lines are compared.
pub fn build_patch(path: &str, change: &str, from: &Side, to: &Side) -> (r: FilePatch)
    ensures
        r@ == patch_of(path@, change@, from@, to@),
        consistent(r@),
        !r@.binary ==> rebuilds(
            similar_changes(utf8_lossy(from@->Bytes_0), utf8_lossy(to@->Bytes_0)),
            utf8_lossy(from@->Bytes_0),
            utf8_lossy(to@->Bytes_0),
        ),
        !r@.binary && r@.added_lines == 0 && r@.removed_lines == 0 ==> utf8_lossy(from@->Bytes_0)
            == utf8_lossy(to@->Bytes_0),
{
    match (from, to) {
        (Side::Bytes(f), Side::Bytes(t)) => {
            if is_binary(f.as_slice()) || is_binary(t.as_slice()) {
                return binary_patch(path, change);
            }
            let from_text = lossy_text(f.as_slice());
            let to_text = lossy_text(t.as_slice());
            let diff = LineDiff {
                all: similar_lines(from_text.as_str(), to_text.as_str()),
                groups: similar_hunks(from_text.as_str(), to_text.as_str(), CONTEXT_RADIUS),
            };
            proof {
                lemma_hunks_placed(group_views(diff.groups@));
                lemma_hunks_tagged(group_views(diff.groups@), ChangeKind::Insert);
                lemma_hunks_tagged(group_views(diff.groups@), ChangeKind::Delete);
                let all = encoding::views(diff.all@);
                if count_of(all, ChangeKind::Insert) == 0 && count_of(all, ChangeKind::Delete) == 0 {
                    lemma_no_change_same_text(all);
                }
            }
            text_patch(path, change, &diff)
        },
        _ => binary_patch(path, change),
    }
}

/// The side of a file diff at `path` below the tree `tree`.
pub open spec fn side_at(objects: Objects, tree: Seq<u8>, path: Seq<char>) -> Result<
    SideV,
    ErrorV,
> {
    match tree::path_entry(objects, tree, path) {
        Err(e) => Err(e),
        Ok(entry) => match store::read_as::<Blob>(objects, entry.id, TypeTag::Blob) {
            Err(e) => Err(e),
            Ok(blob) => if blob.total_len > MAX_DIFF_BYTES {
                Ok(SideV::Oversize)
            } else {
                match blob::file_content(objects, entry.id) {
                    Err(e) => Err(e),
                    Ok(bytes) => Ok(SideV::Bytes(bytes)),
                }
            },
        },
    }
}

/// Resolves one side of a file diff, **bounding memory before any read**.
///
/// A file whose recorded length is larger than [`MAX_DIFF_BYTES`] is
/// [`Side::Oversize`] without being read. A length that lies *small* is caught
/// by [`read_blob`].
pub fn read_side(store: &ObjectStore, tree: &ObjectId, path: &str) -> (r: Result<Side, Error>)
    ensures
        error::outcome(r) == side_at(store@, tree@, path@),
{
    let entry = match read_tree_path(store, tree, path) {
        Ok(entry) => entry,
        Err(e) => {
            return Err(e);
        },
    };
    let blob = match store.get_blob(&entry.id()) {
        Ok(blob) => blob,
        Err(e) => {
            return Err(e);
        },
    };
    if blob.total_len() > MAX_DIFF_BYTES as u64 {
        return Ok(Side::Oversize);
    }
    match read_blob(store, &entry.id()) {
        Ok(bytes) => Ok(Side::Bytes(bytes)),
        Err(e) => Err(e),
    }
}

// ── patches of trees ─────────────────────────────────────────────────────────

/// What became of a file.
#[derive(Debug, Clone, Copy, PartialEq, Eq)]
pub enum FileChange {
    /// It is new.
    Added,
    /// It is gone.
    Removed,
    /// It is another.
    Modified,
}

/// The name of a file change.
pub open spec fn change_name(change: FileChange) -> Seq<char> {
    match change {
        FileChange::Added => "added"@,
        FileChange::Removed => "removed"@,
        FileChange::Modified => "modified"@,
    }
}

/// The patch of the file at `path`, between the trees `from` and `to`. A file
/// that was not there, or is not any more, is compared with nothing.
pub open spec fn patch_at(
    objects: Objects,
    change: FileChange,
    from: Seq<u8>,
    to: Seq<u8>,
    path: Seq<char>,
) -> Result<FilePatchV, ErrorV> {
    let old_side = if change is Added {
        Ok(SideV::Bytes(seq![]))
    } else {
        side_at(objects, from, path)
    };
    let new_side = if change is Removed {
        Ok(SideV::Bytes(seq![]))
    } else {
        side_at(objects, to, path)
    };
    match old_side {
        Err(e) => Err(e),
        Ok(f) => match new_side {
            Err(e) => Err(e),
            Ok(t) => Ok(patch_of(path, change_name(change), f, t)),
        },
    }
}

/// The patches of the files at `paths`, in order.
pub open spec fn patches_at(
    objects: Objects,
    change: FileChange,
    from: Seq<u8>,
    to: Seq<u8>,
    paths: Seq<Seq<char>>,
) -> Result<Seq<FilePatchV>, ErrorV>
    decreases paths.len(),
{
    if paths.len() == 0 {
        Ok(seq![])
    } else {
        match patches_at(objects, change, from, to, paths.drop_last()) {
            Err(e) => Err(e),
            Ok(before) => match patch_at(objects, change, from, to, paths.last()) {
                Err(e) => Err(e),
                Ok(patch) => Ok(before.push(patch)),
            },
        }
    }
}

/// Patches are ordered by path.
pub open spec fn patch_rank() -> spec_fn(FilePatchV) -> Seq<int> {
    |patch: FilePatchV| order::text_rank(patch.path)
}

/// Whether all patches are consistent.
pub open spec fn all_consistent(patches: Seq<FilePatchV>) -> bool {
    forall|i: int| 0 <= i < patches.len() ==> consistent(#[trigger] patches[i])
}

/// The patches between two trees, by path.
pub open spec fn tree_patches(objects: Objects, from: Seq<u8>, to: Seq<u8>) -> Result<
    Seq<FilePatchV>,
    ErrorV,
> {
    match diff::tree_changes(objects, from, to) {
        Err(e) => Err(e),
        Ok(changes) => {
            let d = diff::diff_of(changes);
            match patches_at(objects, FileChange::Added, from, to, d.added) {
                Err(e) => Err(e),
                Ok(added) => match patches_at(
                    objects,
                    FileChange::Removed,
                    from,
                    to,
                    d.removed,
                ) {
                    Err(e) => Err(e),
                    Ok(removed) => match patches_at(
                        objects,
                        FileChange::Modified,
                        from,
                        to,
                        d.modified,
                    ) {
                        Err(e) => Err(e),
                        Ok(modified) => Ok(order::sort_by(added + removed + modified, patch_rank())),
                    },
                },
            }
        },
    }
}

/// There is one patch for each path, in order, and it says what became of the
/// file.
proof fn lemma_patches_at(
    objects: Objects,
    change: FileChange,
    from: Seq<u8>,
    to: Seq<u8>,
    paths: Seq<Seq<char>>,
)
    requires
        patches_at(objects, change, from, to, paths) is Ok,
    ensures
        ({
            let patches = patches_at(objects, change, from, to, paths)->Ok_0;
            &&& patches.len() == paths.len()
            &&& forall|i: int|
                0 <= i < paths.len() ==> (#[trigger] patches[i]).path == paths[i]
                    && patches[i].change == change_name(change) && patch_at(
                    objects,
                    change,
                    from,
                    to,
                    paths[i],
                ) == Ok::<FilePatchV, ErrorV>(patches[i])
        }),
    decreases paths.len(),
{
    if paths.len() > 0 {
        lemma_patches_at(objects, change, from, to, paths.drop_last());
        let before = patches_at(objects, change, from, to, paths.drop_last())->Ok_0;
        let patches = patches_at(objects, change, from, to, paths)->Ok_0;
        assert forall|i: int| 0 <= i < paths.len() implies (#[trigger] patches[i]).path == paths[i]
            && patches[i].change == change_name(change) && patch_at(
            objects,
            change,
            from,
            to,
            paths[i],
        ) == Ok::<FilePatchV, ErrorV>(patches[i]) by {
            if i < before.len() {
                assert(patches[i] == before[i]);
                assert(paths.drop_last()[i] == paths[i]);
            }
        }
    }
}

/// There is one patch for each path, in order, and it names the path and what
/// became of the file.
proof fn lemma_patches_named(
    objects: Objects,
    change: FileChange,
    from: Seq<u8>,
    to: Seq<u8>,
    paths: Seq<Seq<char>>,
)
    requires
        patches_at(objects, change, from, to, paths) is Ok,
    ensures
        ({
            let patches = patches_at(objects, change, from, to, paths)->Ok_0;
            &&& patches.len() == paths.len()
            &&& forall|i: int|
                0 <= i < paths.len() ==> (#[trigger] patches[i]).path == paths[i]
                    && patches[i].change == change_name(change)
        }),
{
    lemma_patches_at(objects, change, from, to, paths);
}

/// The files that changed in the given way.
pub open spec fn changed_files(diff: TreeDiffV, change: FileChange) -> Seq<Seq<char>> {
    match change {
        FileChange::Added => diff.added,
        FileChange::Removed => diff.removed,
        FileChange::Modified => diff.modified,
    }
}

/// Whether a patch reports the change of the file at `path`.
pub open spec fn reports(patch: FilePatchV, change: FileChange, path: Seq<char>) -> bool {
    patch.path == path && patch.change == change_name(change)
}

/// Every file that changed has a patch that says how, and there are no others;
/// the patches are in order of path.
pub proof fn lemma_every_change_has_a_patch(
    objects: Objects,
    from: Seq<u8>,
    to: Seq<u8>,
    change: FileChange,
    path: Seq<char>,
)
    requires
        tree_patches(objects, from, to) is Ok,
    ensures
        ({
            let patches = tree_patches(objects, from, to)->Ok_0;
            let d = diff::diff_of(diff::tree_changes(objects, from, to)->Ok_0);
            &&& changed_files(d, change).contains(path) <==> exists|i: int|
                0 <= i < patches.len() && reports(#[trigger] patches[i], change, path)
            &&& patches.len() == d.added.len() + d.removed.len() + d.modified.len()
            &&& order::sorted(patches, patch_rank())
        }),
{
    let d = diff::diff_of(diff::tree_changes(objects, from, to)->Ok_0);
    let patches = tree_patches(objects, from, to)->Ok_0;
    let added = patches_at(objects, FileChange::Added, from, to, d.added)->Ok_0;
    let removed = patches_at(objects, FileChange::Removed, from, to, d.removed)->Ok_0;
    let modified = patches_at(objects, FileChange::Modified, from, to, d.modified)->Ok_0;
    let all = added + removed + modified;
    lemma_patches_named(objects, FileChange::Added, from, to, d.added);
    lemma_patches_named(objects, FileChange::Removed, from, to, d.removed);
    lemma_patches_named(objects, FileChange::Modified, from, to, d.modified);
    order::lemma_sort_sorted(all, patch_rank());
    order::lemma_sort_permutes(all, patch_rank());
    reveal_strlit("added");
    reveal_strlit("removed");
    reveal_strlit("modified");
    assert("added"@ != "removed"@) by {
        assert("added"@.len() != "removed"@.len());
    }
    assert("added"@ != "modified"@) by {
        assert("added"@.len() != "modified"@.len());
    }
    assert("removed"@ != "modified"@) by {
        assert("removed"@.len() != "modified"@.len());
    }
    let na = added.len() as int;
    let nr = removed.len() as int;
    let here = changed_files(d, change);
    if here.contains(path) {
        let k = choose|k: int| 0 <= k < here.len() && here[k] == path;
        let offset = match change {
            FileChange::Added => 0int,
            FileChange::Removed => na,
            FileChange::Modified => na + nr,
        };
        let p = all[offset + k];
        assert(reports(p, change, path)) by {
            match change {
                FileChange::Added => {
                    assert(p == added[k]);
                },
                FileChange::Removed => {
                    assert(p == removed[k]);
                },
                FileChange::Modified => {
                    assert(p == modified[k]);
                },
            }
        }
        assert(all.contains(p));
        lemma_same_elements(all, patches, p);
        let i = choose|i: int| 0 <= i < patches.len() && patches[i] == p;
        assert(reports(patches[i], change, path));
    }
    if exists|i: int| 0 <= i < patches.len() && reports(#[trigger] patches[i], change, path) {
        let i = choose|i: int|
            0 <= i < patches.len() && reports(#[trigger] patches[i], change, path);
        let p = patches[i];
        lemma_same_elements(all, patches, p);
        let k = choose|k: int| 0 <= k < all.len() && all[k] == p;
        if k < na {
            assert(p == added[k]);
            assert(d.added[k] == path);
        } else if k < na + nr {
            assert(p == removed[k - na]);
            assert(d.removed[k - na] == path);
        } else {
            assert(p == modified[k - na - nr]);
            assert(d.modified[k - na - nr] == path);
        }
    }
    assert(patches.len() == all.len());
}

/// Sequences with the same elements, each as often, contain the same.
proof fn lemma_same_elements<V>(a: Seq<V>, b: Seq<V>, x: V)
    requires
        a.to_multiset() == b.to_multiset(),
    ensures
        a.contains(x) == b.contains(x),
{
    broadcast use vstd::seq_lib::group_to_multiset_ensures;

    assert(a.contains(x) <==> a.to_multiset().count(x) > 0);
    assert(b.contains(x) <==> b.to_multiset().count(x) > 0);
}

/// The patches of the three kinds of change, before they are put in order.
spec fn all_patches(objects: Objects, from: Seq<u8>, to: Seq<u8>) -> Seq<FilePatchV> {
    let d = diff::diff_of(diff::tree_changes(objects, from, to)->Ok_0);
    patches_at(objects, FileChange::Added, from, to, d.added)->Ok_0 + patches_at(
        objects,
        FileChange::Removed,
        from,
        to,
        d.removed,
    )->Ok_0 + patches_at(objects, FileChange::Modified, from, to, d.modified)->Ok_0
}

/// Each path is patched once.
proof fn lemma_patched_once(objects: Objects, from: Seq<u8>, to: Seq<u8>, i: int, j: int)
    requires
        diff::names_distinct(objects, from),
        diff::names_distinct(objects, to),
        tree_patches(objects, from, to) is Ok,
        0 <= i < j < all_patches(objects, from, to).len(),
    ensures
        all_patches(objects, from, to)[i].path != all_patches(objects, from, to)[j].path,
{
    let d = diff::diff_of(diff::tree_changes(objects, from, to)->Ok_0);
    let added = patches_at(objects, FileChange::Added, from, to, d.added)->Ok_0;
    let removed = patches_at(objects, FileChange::Removed, from, to, d.removed)->Ok_0;
    let modified = patches_at(objects, FileChange::Modified, from, to, d.modified)->Ok_0;
    let all = all_patches(objects, from, to);
    lemma_patches_named(objects, FileChange::Added, from, to, d.added);
    lemma_patches_named(objects, FileChange::Removed, from, to, d.removed);
    lemma_patches_named(objects, FileChange::Modified, from, to, d.modified);
    diff::lemma_diff_lists_once(objects, from, to);
    let na = added.len() as int;
    let nr = removed.len() as int;
    if i < na {
        assert(all[i] == added[i] && d.added.contains(d.added[i]));
    } else if i < na + nr {
        assert(all[i] == removed[i - na] && d.removed.contains(d.removed[i - na]));
    } else {
        assert(all[i] == modified[i - na - nr] && d.modified.contains(d.modified[i - na - nr]));
    }
    if j < na {
        assert(all[j] == added[j] && d.added.contains(d.added[j]));
    } else if j < na + nr {
        assert(all[j] == removed[j - na] && d.removed.contains(d.removed[j - na]));
    } else {
        assert(all[j] == modified[j - na - nr] && d.modified.contains(d.modified[j - na - nr]));
    }
}

/// The patches of two trees are in strictly ascending order of path: no path has
/// two.
pub proof fn lemma_patches_ascend(objects: Objects, from: Seq<u8>, to: Seq<u8>, i: int, j: int)
    requires
        diff::names_distinct(objects, from),
        diff::names_distinct(objects, to),
        tree_patches(objects, from, to) is Ok,
        0 <= i < j < tree_patches(objects, from, to)->Ok_0.len(),
    ensures
        order::lex_lt(
            order::text_rank(tree_patches(objects, from, to)->Ok_0[i].path),
            order::text_rank(tree_patches(objects, from, to)->Ok_0[j].path),
        ),
{
    let all = all_patches(objects, from, to);
    let patches = tree_patches(objects, from, to)->Ok_0;
    order::lemma_sort_sorted(all, patch_rank());
    order::lemma_sort_permutes(all, patch_rank());
    assert(patches == order::sort_by(all, patch_rank()));
    assert(all.no_duplicates()) by {
        assert forall|a: int, b: int| 0 <= a < all.len() && 0 <= b < all.len() && a != b implies
            all[a] != all[b] by {
            if a < b {
                lemma_patched_once(objects, from, to, a, b);
            } else {
                lemma_patched_once(objects, from, to, b, a);
            }
        }
    }
    all.lemma_multiset_has_no_duplicates();
    patches.lemma_multiset_has_no_duplicates_conv();
    assert(patches[i] != patches[j]);
    lemma_same_elements(all, patches, patches[i]);
    lemma_same_elements(all, patches, patches[j]);
    assert(patches.contains(patches[i]) && patches.contains(patches[j]));
    let a = choose|a: int| 0 <= a < all.len() && all[a] == patches[i];
    let b = choose|b: int| 0 <= b < all.len() && all[b] == patches[j];
    if a < b {
        lemma_patched_once(objects, from, to, a, b);
    } else {
        lemma_patched_once(objects, from, to, b, a);
    }
    let x = order::text_rank(patches[i].path);
    let y = order::text_rank(patches[j].path);
    assert(!order::lex_lt(patch_rank()(patches[j]), patch_rank()(patches[i])));
    order::lemma_lex_total(x, y);
    if x == y {
        order::lemma_text_rank_injective(patches[i].path, patches[j].path);
    }
}

/// Whether the file at `path` below a tree is too large to compare, or holds a NUL
/// byte.
pub open spec fn opaque_at(objects: Objects, tree: Seq<u8>, path: Seq<char>) -> bool {
    tree::path_entry(objects, tree, path) matches Ok(entry) && store::read_as::<Blob>(
        objects,
        entry.id,
        TypeTag::Blob,
    ) matches Ok(blob) && (blob.total_len > MAX_DIFF_BYTES || (blob::file_content(
        objects,
        entry.id,
    ) matches Ok(bytes) && bytes.contains(0u8)))
}

/// Each patch is that of a file that changed. It is binary exactly where a side of
/// the file that is there is too large or holds a NUL byte, and has then neither
/// hunks nor line counts.
pub proof fn lemma_binary_patches(objects: Objects, from: Seq<u8>, to: Seq<u8>, i: int)
    requires
        tree_patches(objects, from, to) is Ok,
        0 <= i < tree_patches(objects, from, to)->Ok_0.len(),
    ensures
        ({
            let p = tree_patches(objects, from, to)->Ok_0[i];
            let d = diff::diff_of(diff::tree_changes(objects, from, to)->Ok_0);
            &&& exists|change: FileChange| #[trigger]
                reports(p, change, p.path) && changed_files(d, change).contains(p.path)
                    && p.binary == ((!(change is Added) && opaque_at(objects, from, p.path)) || (!(
                change is Removed) && opaque_at(objects, to, p.path)))
            &&& p.binary ==> p.hunks.len() == 0 && p.added_lines == 0 && p.removed_lines == 0
        }),
{
    let d = diff::diff_of(diff::tree_changes(objects, from, to)->Ok_0);
    let added = patches_at(objects, FileChange::Added, from, to, d.added)->Ok_0;
    let removed = patches_at(objects, FileChange::Removed, from, to, d.removed)->Ok_0;
    let all = all_patches(objects, from, to);
    let patches = tree_patches(objects, from, to)->Ok_0;
    let p = patches[i];
    lemma_patches_at(objects, FileChange::Added, from, to, d.added);
    lemma_patches_at(objects, FileChange::Removed, from, to, d.removed);
    lemma_patches_at(objects, FileChange::Modified, from, to, d.modified);
    order::lemma_sort_permutes(all, patch_rank());
    assert(patches == order::sort_by(all, patch_rank()));
    lemma_same_elements(all, patches, p);
    assert(patches.contains(p));
    let k = choose|k: int| 0 <= k < all.len() && all[k] == p;
    let na = added.len() as int;
    let nr = removed.len() as int;
    let none: Seq<u8> = seq![];
    assert(!none.contains(0u8));
    let (change, at) = if k < na {
        (FileChange::Added, k)
    } else if k < na + nr {
        (FileChange::Removed, k - na)
    } else {
        (FileChange::Modified, k - na - nr)
    };
    let files = changed_files(d, change);
    assert(patches_at(objects, change, from, to, files)->Ok_0[at] == p);
    assert(files[at] == p.path);
    assert(files.contains(p.path));
    assert(patch_at(objects, change, from, to, p.path) == Ok::<FilePatchV, ErrorV>(p));
    assert(reports(p, change, p.path));
}

/// A tree has no patches against itself.
pub proof fn lemma_same_tree_no_patches(objects: Objects, id: Seq<u8>)
    ensures
        tree_patches(objects, id, id) == Ok::<Seq<FilePatchV>, ErrorV>(seq![]),
{
    let none: Seq<Seq<char>> = seq![];
    assert(diff::path_texts(seq![]) =~= none);
    assert(seq![] + seq![] + seq![] =~= Seq::<FilePatchV>::empty());
}

/// The empty side (an absent file on the added or removed side of a diff).
fn empty_side() -> (r: Side)
    ensures
        r@ == SideV::Bytes(seq![]),
{
    let none: Vec<u8> = Vec::new();
    assert(none@ =~= seq![]);
    Side::Bytes(none)
}

/// Appends the patches of the files at `paths`.
fn push_patches(
    store: &ObjectStore,
    change: FileChange,
    from_tree: &ObjectId,
    to_tree: &ObjectId,
    paths: &[RepoPath],
    out: &mut Vec<FilePatch>,
) -> (r: Result<(), Error>)
    ensures
        ({
            let expected = patches_at(store@, change, from_tree@, to_tree@, encoding::views(paths@));
            match r {
                Ok(()) => expected is Ok && encoding::views(final(out)@) == encoding::views(old(out)@)
                    + expected->Ok_0,
                Err(e) => expected == Err::<Seq<FilePatchV>, ErrorV>(e@),
            }
        }),
        all_consistent(encoding::views(old(out)@)) ==> all_consistent(
            encoding::views(final(out)@),
        ),
{
    let name = match change {
        FileChange::Added => "added",
        FileChange::Removed => "removed",
        FileChange::Modified => "modified",
    };
    let ghost all = encoding::views(paths@);
    let mut i: usize = 0;
    proof {
        assert(all.take(0) =~= seq![]);
        assert(all.take(all.len() as int) =~= all);
        assert(encoding::views(out@) =~= encoding::views(old(out)@) + seq![]);
    }
    while i < paths.len()
        invariant
            i <= paths@.len(),
            all == encoding::views(paths@),
            all.take(all.len() as int) == all,
            name@ == change_name(change),
            patches_at(store@, change, from_tree@, to_tree@, all.take(i as int)) is Ok,
            all_consistent(encoding::views(old(out)@)) ==> all_consistent(
                encoding::views(out@),
            ),
            encoding::views(out@) == encoding::views(old(out)@) + patches_at(
                store@,
                change,
                from_tree@,
                to_tree@,
                all.take(i as int),
            )->Ok_0,
        decreases paths.len() - i,
    {
        let path = paths[i].as_str();
        proof {
            assert(all.take(i + 1).drop_last() =~= all.take(i as int));
            assert(all.take(i + 1).last() == path@);
        }
        let patch = match file_patch(store, change, name, from_tree, to_tree, path) {
            Ok(patch) => patch,
            Err(e) => {
                proof {
                    lemma_patches_at_fails(store@, change, from_tree@, to_tree@, all, i + 1);
                }
                return Err(e);
            },
        };
        let ghost was = out@;
        out.push(patch);
        assert(encoding::views(out@) =~= encoding::views(was).push(patch@));
        i += 1;
    }
    Ok(())
}

/// Where the patches of the first paths fail, those of all paths fail the same.
proof fn lemma_patches_at_fails(
    objects: Objects,
    change: FileChange,
    from: Seq<u8>,
    to: Seq<u8>,
    paths: Seq<Seq<char>>,
    n: int,
)
    requires
        0 <= n <= paths.len(),
        patches_at(objects, change, from, to, paths.take(n)) is Err,
    ensures
        patches_at(objects, change, from, to, paths) == patches_at(
            objects,
            change,
            from,
            to,
            paths.take(n),
        ),
    decreases paths.len() - n,
{
    if n < paths.len() {
        assert(paths.take(n + 1).drop_last() =~= paths.take(n));
        lemma_patches_at_fails(objects, change, from, to, paths, n + 1);
    } else {
        assert(paths.take(n) =~= paths);
    }
}

/// The patch of the file at `path`.
fn file_patch(
    store: &ObjectStore,
    change: FileChange,
    name: &str,
    from_tree: &ObjectId,
    to_tree: &ObjectId,
    path: &str,
) -> (r: Result<FilePatch, Error>)
    requires
        name@ == change_name(change),
    ensures
        error::outcome(r) == patch_at(store@, change, from_tree@, to_tree@, path@),
        r matches Ok(patch) ==> consistent(patch@),
{
    let from = match change {
        FileChange::Added => empty_side(),
        _ => match read_side(store, from_tree, path) {
            Ok(side) => side,
            Err(e) => {
                return Err(e);
            },
        },
    };
    let to = match change {
        FileChange::Removed => empty_side(),
        _ => match read_side(store, to_tree, path) {
            Ok(side) => side,
            Err(e) => {
                return Err(e);
            },
        },
    };
    Ok(build_patch(path, name, &from, &to))
}

/// Putting patches in order leaves each as it is.
proof fn lemma_sorted_consistent(patches: Seq<FilePatchV>)
    requires
        all_consistent(patches),
    ensures
        all_consistent(order::sort_by(patches, patch_rank())),
{
    let sorted = order::sort_by(patches, patch_rank());
    order::lemma_sort_permutes(patches, patch_rank());
    assert forall|i: int| 0 <= i < sorted.len() implies consistent(#[trigger] sorted[i]) by {
        lemma_same_elements(patches, sorted, sorted[i]);
        let k = choose|k: int| 0 <= k < patches.len() && patches[k] == sorted[i];
        assert(consistent(patches[k]));
    }
}

/// Computes per-file content patches between `from_tree` and `to_tree`.
///
/// [`diff_trees`] finds the paths; each changed file is then read from the store
/// and compared line by line. The result is sorted by path.
pub fn tree_patch(store: &ObjectStore, from_tree: &ObjectId, to_tree: &ObjectId) -> (r: Result<
    Vec<FilePatch>,
    Error,
>)
    ensures
        match r {
            Ok(patches) => tree_patches(store@, from_tree@, to_tree@) == Ok::<
                Seq<FilePatchV>,
                ErrorV,
            >(encoding::views(patches@)),
            Err(e) => tree_patches(store@, from_tree@, to_tree@) == Err::<
                Seq<FilePatchV>,
                ErrorV,
            >(e@),
        },
        r matches Ok(patches) ==> all_consistent(encoding::views(patches@)),
{
    let diff = match diff_trees(store, from_tree, to_tree) {
        Ok(diff) => diff,
        Err(e) => {
            return Err(e);
        },
    };
    let mut patches: Vec<FilePatch> = Vec::new();
    assert(encoding::views(patches@) =~= seq![]);
    match push_patches(
        store,
        FileChange::Added,
        from_tree,
        to_tree,
        diff.added(),
        &mut patches,
    ) {
        Ok(()) => {},
        Err(e) => {
            return Err(e);
        },
    }
    match push_patches(
        store,
        FileChange::Removed,
        from_tree,
        to_tree,
        diff.removed(),
        &mut patches,
    ) {
        Ok(()) => {},
        Err(e) => {
            return Err(e);
        },
    }
    match push_patches(
        store,
        FileChange::Modified,
        from_tree,
        to_tree,
        diff.modified(),
        &mut patches,
    ) {
        Ok(()) => {},
        Err(e) => {
            return Err(e);
        },
    }
    proof {
        assert forall|y: FilePatch| #[trigger] y.rank() == patch_rank()(y@) by {}
        order::lemma_sort_views(patches@, patch_rank());
        let added = patches_at(
            store@,
            FileChange::Added,
            from_tree@,
            to_tree@,
            diff@.added,
        )->Ok_0;
        assert(seq![] + added =~= added);
        lemma_sorted_consistent(encoding::views(patches@));
    }
    sort_stable(&mut patches);
    Ok(patches)
}

// ── laws ─────────────────────────────────────────────────────────────────────

/// The line breaks at the end of a line are left away, all of them, and nothing else.
pub proof fn law_without_break(s: Seq<char>)
    ensures
        without_break(s).len() <= s.len(),
        s.take(without_break(s).len() as int) == without_break(s),
        forall|k: int| without_break(s).len() <= k < s.len() ==> #[trigger] s[k] == '\n' || s[k] == '\r',
        without_break(s).len() > 0 ==> without_break(s).last() != '\n' && without_break(s).last()
            != '\r',
    decreases s.len(),
{
    if s.len() > 0 && (s.last() == '\n' || s.last() == '\r') {
        let less = s.drop_last();
        law_without_break(less);
        let n = without_break(s).len() as int;
        assert(s.take(n) =~= less.take(n));
        assert forall|k: int| n <= k < s.len() implies #[trigger] s[k] == '\n' || s[k] == '\r' by {
            if k < less.len() {
                assert(less[k] == s[k]);
            }
        }
    } else {
        assert(s.take(s.len() as int) =~= s);
    }
}

/// A hunk shows each line of its operations, in order: an inserted one as `insert`, a deleted
/// one as `delete`, any other as `context`.
pub proof fn law_hunk_lines(ops: Seq<LineOpV>, op: LineOpV)
    ensures
        group_lines(Seq::empty()).len() == 0,
        ({
            let before = group_lines(ops);
            let after = group_lines(ops.push(op));
            &&& after.len() == before.len() + op.lines.len()
            &&& after.take(before.len() as int) == before
            &&& forall|i: int|
                0 <= i < op.lines.len() ==> {
                    let line = #[trigger] op.lines[i];
                    let shown = after[before.len() + i];
                    &&& shown.content == without_break(line.text)
                    &&& shown.tag == (match line.kind {
                        ChangeKind::Insert => "insert"@,
                        ChangeKind::Delete => "delete"@,
                        ChangeKind::Equal => "context"@,
                    })
                }
        }),
{
    assert(ops.push(op).drop_last() =~= ops);
    let before = group_lines(ops);
    let after = group_lines(ops.push(op));
    assert(after.take(before.len() as int) =~= before);
}

/// A hunk begins, on each side, at the line after the first one before it; on a side without
/// lines it begins at 0.
pub proof fn law_hunk_start(empty: Seq<LineOpV>, op: LineOpV, rest: Seq<LineOpV>)
    requires
        forall|i: int|
            0 <= i < empty.len() ==> (#[trigger] empty[i]).old_start >= empty[i].old_end
                && empty[i].new_start >= empty[i].new_end,
    ensures
        op.old_start < op.old_end ==> hunk_of(empty.push(op) + rest).old_start == op.old_start + 1,
        op.new_start < op.new_end ==> hunk_of(empty.push(op) + rest).new_start == op.new_start + 1,
        hunk_of(empty).old_start == 0 && hunk_of(empty).new_start == 0,
    decreases empty.len(),
{
    let all = empty.push(op) + rest;
    if empty.len() > 0 {
        let less = empty.drop_first();
        assert forall|i: int| 0 <= i < less.len() implies (#[trigger] less[i]).old_start
            >= less[i].old_end && less[i].new_start >= less[i].new_end by {
            assert(empty[i + 1].old_start >= empty[i + 1].old_end);
        }
        law_hunk_start(less, op, rest);
        assert(all.drop_first() =~= less.push(op) + rest);
        assert(all[0] == empty[0]);
    } else {
        assert(all[0] == op);
    }
}

/// Every group with an operation makes one hunk, in order; a group without any makes none.
pub proof fn law_hunks(groups: Seq<Seq<LineOpV>>, group: Seq<LineOpV>)
    ensures
        hunks_of(Seq::empty()).len() == 0,
        group.len() == 0 ==> hunks_of(groups.push(group)) == hunks_of(groups),
        group.len() > 0 ==> hunks_of(groups.push(group)) == hunks_of(groups).push(hunk_of(group)),
{
    assert(groups.push(group).drop_last() =~= groups);
}

/// A file is compared as text where both sides are small enough and hold no NUL byte, with
/// three lines of context; otherwise it is binary, without hunks and counts.
pub proof fn law_patch(path: Seq<char>, change: Seq<char>, from: SideV, to: SideV)
    ensures
        ({
            let p = patch_of(path, change, from, to);
            &&& p.path == path
            &&& p.change == change
            &&& from is Oversize || to is Oversize ==> p.binary
            &&& from matches SideV::Bytes(f) ==> f.contains(0u8) ==> p.binary
            &&& to matches SideV::Bytes(t) ==> t.contains(0u8) ==> p.binary
            &&& p.binary ==> p.hunks.len() == 0 && p.added_lines == 0 && p.removed_lines == 0
            &&& from matches SideV::Bytes(f) ==> to matches SideV::Bytes(t) ==> !f.contains(0u8)
                && !t.contains(0u8) ==> {
                let old_text = utf8_lossy(f);
                let new_text = utf8_lossy(t);
                let lines = similar_changes(old_text, new_text);
                &&& !p.binary
                &&& p.added_lines == lines.filter(|l: LineChangeV| l.kind is Insert).len()
                &&& p.removed_lines == lines.filter(|l: LineChangeV| l.kind is Delete).len()
                &&& p.hunks == hunks_of(similar_groups(old_text, new_text, 3))
            }
        }),
{
    if let SideV::Bytes(f) = from {
        if let SideV::Bytes(t) = to {
            let lines = similar_changes(utf8_lossy(f), utf8_lossy(t));
            lemma_count_is_filter(lines);
        }
    }
}

proof fn lemma_count_is_filter(lines: Seq<LineChangeV>)
    ensures
        count_of(lines, ChangeKind::Insert) == lines.filter(|l: LineChangeV| l.kind is Insert).len(),
        count_of(lines, ChangeKind::Delete) == lines.filter(|l: LineChangeV| l.kind is Delete).len(),
    decreases lines.len(),
{
    reveal(Seq::filter);
    if lines.len() > 0 {
        lemma_count_is_filter(lines.drop_last());
    }
}

/// A file of at most two mebibytes is read, and a larger one is not.
pub proof fn law_side(objects: Objects, tree: Seq<u8>, path: Seq<char>, id: Seq<u8>, size: u64)
    requires
        tree::path_entry(objects, tree, path) matches Ok(entry) && entry.id == id,
        store::read_as::<Blob>(objects, id, TypeTag::Blob) matches Ok(blob) && blob.total_len
            == size,
    ensures
        size > 2 * 1024 * 1024 ==> side_at(objects, tree, path) == Ok::<SideV, ErrorV>(
            SideV::Oversize,
        ),
        size <= 2 * 1024 * 1024 ==> match blob::file_content(objects, id) {
            Ok(bytes) => side_at(objects, tree, path) == Ok::<SideV, ErrorV>(SideV::Bytes(bytes)),
            Err(e) => side_at(objects, tree, path) == Err::<SideV, ErrorV>(e),
        },
{
}

/// An added file is compared with nothing before it, a removed one with nothing after it, and
/// a modified one is compared with what it was: the first tree is the old side.
pub proof fn law_patch_sides(
    objects: Objects,
    from: Seq<u8>,
    to: Seq<u8>,
    path: Seq<char>,
    old_side: SideV,
    new_side: SideV,
)
    ensures
        side_at(objects, to, path) == Ok::<SideV, ErrorV>(new_side) ==> patch_at(
            objects,
            FileChange::Added,
            from,
            to,
            path,
        ) == Ok::<FilePatchV, ErrorV>(
            patch_of(path, "added"@, SideV::Bytes(Seq::empty()), new_side),
        ),
        side_at(objects, from, path) == Ok::<SideV, ErrorV>(old_side) ==> patch_at(
            objects,
            FileChange::Removed,
            from,
            to,
            path,
        ) == Ok::<FilePatchV, ErrorV>(
            patch_of(path, "removed"@, old_side, SideV::Bytes(Seq::empty())),
        ),
        side_at(objects, from, path) == Ok::<SideV, ErrorV>(old_side) && side_at(objects, to, path)
            == Ok::<SideV, ErrorV>(new_side) ==> patch_at(
            objects,
            FileChange::Modified,
            from,
            to,
            path,
        ) == Ok::<FilePatchV, ErrorV>(patch_of(path, "modified"@, old_side, new_side)),
{
}

/// The line counts of a file are those of its patch.
pub proof fn law_stat(patch: FilePatchV)
    ensures
        ({
            let stat = stat_of(patch);
            &&& stat.path == patch.path
            &&& stat.change == patch.change
            &&& stat.binary == patch.binary
            &&& stat.added_lines == patch.added_lines
            &&& stat.removed_lines == patch.removed_lines
        }),
{
}

} // verus!
