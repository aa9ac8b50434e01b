//! The agent-native API.
//!
//! Every CLI verb maps to exactly one [`Request`], so agents and people exercise
//! the same engine. A request operates on an *already-open* repository: `init` is
//! deliberately not an API method.
//!
//! The engine is driven from outside. [`run`] says what to ask it first, and
//! [`resume`] what to do with its reply: ask it something else, or answer the
//! request.
//!
//! Object ids cross the wire as lowercase hex strings, never raw bytes.
//! [`Response`] payloads carry author **names** but no author e-mail.
use vstd::prelude::*;
use vstd::string::*;

use crate::object;
use crate::text;
use crate::hash;
use crate::encoding;
use crate::claims::Claim;
use crate::diff::{RepoPath, TreeDiff};
use crate::encoding::Encode;
use crate::engine::{
    AdmissionOutcome, BackportOutcome, BackportProvenance, BackportRecord, BackportSettlement, Lane,
    ScopedCutOutcome, SourceAdmission, Status,
};
use crate::hash::{ObjectId, TypeTag};
use crate::linediff::{FilePatch, FileStat};
use crate::object::{EntryKind, Op, OpV, Snapshot, SnapshotV, TreeEntry, ViewV};
use crate::schema::MethodInfo;
use crate::text::copy_texts;

verus! {

// ── Request ──────────────────────────────────────────────────────────────────

/// One agent-API request against an already-open repository.
///
/// Internally tagged on a `method` field, so the wire form is a flat JSON
/// object such as `{"method":"diff","from":"ab12","to":null}`. Id-bearing
/// fields accept either a full 64-char hex id or a unique hex prefix; they are
/// resolved by the engine.
#[derive(Debug, PartialEq, Eq)]
pub enum Request {
    /// Report the working directory's status against the working-copy snapshot.
    Status,
    /// Auto-snapshot the working copy, returning the resulting snapshot id.
    Snapshot,
    /// Create a named cut (the analog of a commit) with `message` and author.
    NamedCut {
        /// The cut message.
        message: String,
        /// The author's display name.
        author_name: String,
        /// The author's e-mail address (input only; never echoed back).
        author_email: String,
    },
    /// List the named cuts in the working copy's ancestry, newest-first.
    Log,
    /// Return the operation log, newest-first.
    OpLog,
    /// Diff two snapshots (hex ids/prefixes); `None` applies the engine defaults
    /// (`to` = working copy, `from` = its parent cut).
    ///
    /// With neither flag this returns the file-level [`DiffData`] summary
    /// (back-compatible). `stat` adds per-file line counts; `patch` adds full
    /// per-file content hunks and takes precedence over `stat`.
    Diff {
        /// The "from" snapshot id or prefix, or `None` for the default base.
        from: Option<String>,
        /// The "to" snapshot id or prefix, or `None` for the working copy.
        to: Option<String>,
        /// Emit per-file line-count stats ([`Response::DiffStat`]).
        stat: bool,
        /// Emit per-file content hunks ([`Response::DiffPatch`]); takes
        /// precedence over `stat`.
        patch: bool,
    },
    /// Non-destructively restore the working copy to `target` (an op or
    /// snapshot id/prefix).
    Restore {
        /// The op or snapshot id/prefix to restore to.
        target: String,
    },
    /// Reverse the most recent operation by reinstating its parent's view.
    Undo,
    /// Return the raw type tag and byte length of the object at `id`.
    Cat {
        /// The object id or prefix to inspect.
        id: String,
    },
    /// List the immediate entries of a tree; `None` lists the **live** working
    /// copy's root (the current files on disk, including un-snapshotted changes).
    Ls {
        /// The tree (or snapshot) id/prefix to list, or `None` for the working
        /// copy's root tree.
        tree: Option<String>,
    },
    /// Describe the agent API itself: every method, its parameters, and the
    /// shape of its response (so an agent need not infer method shapes).
    Help,
    /// Report where the working copy currently is: the current op (and whether
    /// it came from a restore), the working-copy snapshot, the base cut, and the
    /// heads. The orientation an agent needs after a non-linear operation.
    Current,
    /// List **every** named cut across all lineages, newest-first — including
    /// cuts that the current `log` lineage hides (e.g. after a restore).
    Cuts,
    /// List the currently-held advisory claims.
    Claims,
    /// Record an advisory claim on `path` by `holder` (advisory only; never
    /// enforced). Returns any overlapping claims held by other actors.
    Claim {
        /// The repo-relative path to claim.
        path: String,
        /// The actor holding the claim (an agent id / username; never an e-mail).
        holder: String,
        /// An optional advisory note.
        note: String,
    },
    /// Release any advisory claim on `path` held by `holder`.
    Release {
        /// The repo-relative path to release.
        path: String,
        /// The actor releasing the claim.
        holder: String,
    },
    /// Create a scoped named cut capturing only the working-copy content under
    /// `paths`, taking everything else from `base` (the current base cut by
    /// default). Leaves the working copy and filesystem untouched.
    ScopedCut {
        /// The repo-relative path selectors to capture.
        paths: Vec<String>,
        /// The cut message.
        message: String,
        /// The author's display name.
        author_name: String,
        /// The author's e-mail address (input only; never echoed back).
        author_email: String,
        /// The base cut/op id or prefix to overlay onto; `None` = the current
        /// base cut.
        base: Option<String>,
    },
    /// List op-derived team lanes and their current admitted cuts.
    Lanes,
    /// Admit a cut to a team/release lane.
    Admit {
        /// The cut id or prefix to admit.
        cut: String,
        /// The lane to admit the cut into.
        lane: String,
        /// Optional admission reason.
        reason: String,
    },
    /// Create a backport proposal from a source cut to a target lane.
    Backport {
        /// The source fix cut id or prefix.
        source: String,
        /// The target lane name.
        target_lane: String,
        /// Optional target cut message.
        message: Option<String>,
        /// Optional backport reason.
        reason: String,
        /// The author's display name.
        author_name: String,
        /// The author's e-mail address (input only; never echoed back).
        author_email: String,
        /// Also admit the created cut when the backport is clean/manual.
        also_admit: bool,
    },
    /// Finish the currently materialized manual backport settlement.
    BackportContinue {
        /// The author's display name.
        author_name: String,
        /// The author's e-mail address (input only; never echoed back).
        author_email: String,
        /// Also admit the resulting cut.
        also_admit: bool,
    },
}


// ── response payloads ────────────────────────────────────────────────────────

/// A status report: changed paths grouped by kind (forward-slashed).
#[derive(Debug, PartialEq, Eq)]
pub struct StatusData {
    /// Paths present on disk but not in the working-copy snapshot.
    pub added: Vec<String>,
    /// Paths present in both but with changed content.
    pub modified: Vec<String>,
    /// Paths present in the snapshot but missing from disk.
    pub deleted: Vec<String>,
    /// `true` if the working directory matches the snapshot exactly.
    pub clean: bool,
}

/// A one-line summary of a named cut, for [`Request::Log`].
///
/// Carries the author **name** but not e-mail (organization data rule).
#[derive(Debug, PartialEq, Eq)]
pub struct CutSummary {
    /// The cut's content-address (hex).
    pub id: String,
    /// The first 12 hex chars of [`id`](Self::id), for compact display/logging.
    pub id_short: String,
    /// The cut's change id (hex) — stable across amends.
    pub change_id: String,
    /// The first 12 hex chars of [`change_id`](Self::change_id).
    pub change_id_short: String,
    /// The cut message.
    pub message: String,
    /// The author's display name (e-mail intentionally omitted).
    pub author_name: String,
    /// Seconds since the Unix epoch.
    pub timestamp: i64,
    /// Parent snapshot ids (hex), newest cut's ancestry.
    pub parents: Vec<String>,
}

/// A one-line summary of an operation, for [`Request::OpLog`].
#[derive(Debug, PartialEq, Eq)]
pub struct OpSummary {
    /// The op's content-address (hex).
    pub id: String,
    /// The first 12 hex chars of [`id`](Self::id), for compact display/logging.
    pub id_short: String,
    /// The human-readable operation description.
    pub description: String,
    /// The argv (or agent-API call) that triggered the operation.
    pub command: Vec<String>,
    /// Operation start time, seconds since the Unix epoch.
    pub timestamp: i64,
    /// Parent op ids (hex).
    pub parents: Vec<String>,
}

/// A file-level diff summary: paths grouped by change kind (forward-slashed).
#[derive(Debug, PartialEq, Eq)]
pub struct DiffData {
    /// Paths present only in the `to` tree.
    pub added: Vec<String>,
    /// Paths present only in the `from` tree.
    pub removed: Vec<String>,
    /// Paths present in both but with differing content or kind.
    pub modified: Vec<String>,
}

/// What the `to` side of a [`Request::Diff`] resolved to.
///
/// Reported on every diff response (`to_kind`) so an agent's logs are
/// self-explanatory about whether the right-hand side was the live working copy
/// or an explicit recorded snapshot.
#[derive(Debug, Clone, Copy, PartialEq, Eq)]
pub enum DiffTarget {
    /// The default `to`: the current files on disk (the live working copy) — the
    /// same on-disk bytes `status` reads. Serializes as `"live_working_copy"`.
    LiveWorkingCopy,
    /// An explicit `to` snapshot/cut id — a *recorded* tree, not dirty disk.
    /// Serializes as `"snapshot"`.
    Snapshot,
}

/// Raw object info returned by [`Request::Cat`].
///
/// The bytes themselves are not embedded (they can be large and binary); the
/// type tag and length identify the object for an agent that will fetch or
/// stream it separately.
#[derive(Debug, PartialEq, Eq)]
pub struct ObjectInfo {
    /// The resolved object id (hex).
    pub id: String,
    /// The first 12 hex chars of [`id`](Self::id).
    pub id_short: String,
    /// The object's type tag (e.g. `"blob"`, `"tree"`, `"snapshot"`).
    pub kind: String,
    /// The length of the object's canonical bytes.
    pub size: usize,
}

/// One immediate entry of a tree, for [`Request::Ls`].
#[derive(Debug, PartialEq, Eq)]
pub struct TreeEntryData {
    /// The entry's path-component name.
    pub name: String,
    /// The entry kind: `"blob"`, `"tree"`, or `"symlink"`.
    pub kind: String,
    /// POSIX-style mode bits (e.g. `0o100644`).
    pub mode: u32,
    /// The referenced object's content-address (hex).
    pub id: String,
    /// The first 12 hex chars of [`id`](Self::id).
    pub id_short: String,
}

/// Where the working copy currently is, for [`Request::Current`].
///
/// This is the orientation an agent needs after a non-linear operation: the
/// current op (and whether it came from a restore), the working-copy snapshot,
/// the base cut it sits on, and the heads.
#[derive(Debug, PartialEq, Eq)]
pub struct CurrentData {
    /// The current op id (hex).
    pub op: String,
    /// The first 12 hex chars of [`op`](Self::op).
    pub op_short: String,
    /// The current op's human-readable description (e.g. `"restore to ab12…"`).
    pub operation: String,
    /// `true` if the current state was produced by a `restore`.
    pub from_restore: bool,
    /// The current view id (hex).
    pub view: String,
    /// The current working-copy snapshot id (hex).
    pub working_copy: String,
    /// The first 12 hex chars of [`working_copy`](Self::working_copy).
    pub working_copy_short: String,
    /// The working copy's change id (hex) — stable across amends.
    pub change_id: String,
    /// The first 12 hex chars of [`change_id`](Self::change_id).
    pub change_id_short: String,
    /// The named cut the working copy currently represents or sits on, if any.
    pub base_cut: Option<CutSummary>,
    /// The view's anonymous heads (hex ids).
    pub heads: Vec<String>,
    /// `true` if the working directory matches the working-copy snapshot.
    pub clean: bool,
}

/// The result of a [`Request::ScopedCut`].
#[derive(Debug, PartialEq, Eq)]
pub struct ScopedCutData {
    /// The new scoped cut id (hex).
    pub cut: String,
    /// The first 12 hex chars of [`cut`](Self::cut).
    pub cut_short: String,
    /// The op that recorded the scoped cut (hex).
    pub op: String,
    /// The first 12 hex chars of [`op`](Self::op).
    pub op_short: String,
    /// The base cut the scoped paths were overlaid onto (hex), if any.
    pub base: Option<String>,
    /// The in-scope paths captured by this cut (those that differed from base).
    pub captured: Vec<String>,
    /// Out-of-scope paths that differ from base — uncaptured concurrent work.
    pub outside_changes: Vec<String>,
}

/// One op-derived lane for [`Request::Lanes`].
#[derive(Debug, PartialEq, Eq)]
pub struct LaneData {
    /// The lane name.
    pub name: String,
    /// The currently admitted cut id (hex).
    pub cut: String,
    /// The first 12 hex chars of [`cut`](Self::cut).
    pub cut_short: String,
    /// The op that admitted the current cut (hex).
    pub admission: String,
    /// The first 12 hex chars of [`admission`](Self::admission).
    pub admission_short: String,
    /// The admission reason, if any.
    pub reason: String,
    /// Admission timestamp, seconds since the Unix epoch.
    pub timestamp: i64,
}

/// The result of an admission operation.
#[derive(Debug, PartialEq, Eq)]
pub struct AdmissionData {
    /// The lane name.
    pub lane: String,
    /// The admitted cut id (hex).
    pub cut: String,
    /// The first 12 hex chars of [`cut`](Self::cut).
    pub cut_short: String,
    /// The op that recorded the admission (hex).
    pub op: String,
    /// The first 12 hex chars of [`op`](Self::op).
    pub op_short: String,
    /// The admission reason, if any.
    pub reason: String,
}

/// A source admission referenced by backport provenance.
#[derive(Debug, PartialEq, Eq)]
pub struct SourceAdmissionData {
    /// The lane that admitted the source cut.
    pub lane: String,
    /// The source admission op id (hex).
    pub op: String,
    /// The first 12 hex chars of [`op`](Self::op).
    pub op_short: String,
}

/// Provenance for a backport result or settlement.
#[derive(Debug, PartialEq, Eq)]
pub struct BackportProvenanceData {
    /// The source fix cut id (hex).
    pub source_cut: String,
    /// The first 12 hex chars of [`source_cut`](Self::source_cut).
    pub source_cut_short: String,
    /// The source logical change id (hex).
    pub source_change_id: String,
    /// The first 12 hex chars of [`source_change_id`](Self::source_change_id).
    pub source_change_id_short: String,
    /// The source lane admission, if discoverable.
    pub source_admission: Option<SourceAdmissionData>,
    /// The target lane.
    pub target_lane: String,
    /// The target base cut id (hex).
    pub target_base: String,
    /// The first 12 hex chars of [`target_base`](Self::target_base).
    pub target_base_short: String,
    /// The backport reason, if any.
    pub reason: String,
}

/// The result of [`Request::Backport`] or [`Request::BackportContinue`].
#[derive(Debug, PartialEq, Eq)]
pub struct BackportData {
    /// `created`, `settlement`, or `already_ported`.
    pub outcome: String,
    /// The backport provenance.
    pub provenance: BackportProvenanceData,
    /// The result cut id when a cut exists (hex).
    pub cut: Option<String>,
    /// The first 12 hex chars of [`cut`](Self::cut).
    pub cut_short: Option<String>,
    /// The op that recorded the backport or settlement (hex).
    pub op: Option<String>,
    /// The first 12 hex chars of [`op`](Self::op).
    pub op_short: Option<String>,
    /// `clean`, `manual`, or `settlement`.
    pub method: String,
    /// Conflicted paths for settlement outcomes.
    pub conflicts: Vec<String>,
    /// Admission data when `admit` was requested and a cut was admitted.
    pub admission: Option<AdmissionData>,
}


// ── Response ─────────────────────────────────────────────────────────────────

/// One agent-API response.
///
/// Tagged on a `status` field that names the variant; a failure renders as
/// `{"status":"error","message":"..."}`. Any error of the engine becomes a
/// [`Response::Error`].
#[derive(Debug, PartialEq, Eq)]
pub enum Response {
    /// A working-directory status report ([`Request::Status`]).
    Status {
        /// The status payload.
        data: StatusData,
    },
    /// The id of the snapshot produced by [`Request::Snapshot`].
    Snapshot {
        /// The (new or unchanged) working-copy snapshot id (hex).
        snapshot: String,
        /// The first 12 hex chars of `snapshot`.
        snapshot_short: String,
    },
    /// The id of the cut closed by [`Request::NamedCut`].
    NamedCut {
        /// The finalized cut's id (hex).
        cut: String,
        /// The first 12 hex chars of `cut`.
        cut_short: String,
    },
    /// The named-cut history ([`Request::Log`]), newest-first.
    Log {
        /// The cut summaries.
        cuts: Vec<CutSummary>,
    },
    /// The operation log ([`Request::OpLog`]), newest-first.
    OpLog {
        /// The op summaries.
        ops: Vec<OpSummary>,
    },
    /// A file-level diff summary ([`Request::Diff`]).
    Diff {
        /// The diff payload.
        data: DiffData,
        /// What the `to` side was (live working copy vs recorded snapshot).
        to_kind: DiffTarget,
    },
    /// A generic acknowledgement for operations with no payload to report
    /// (e.g. the CLI's `init`, or `watch`/`mount` having started).
    Acknowledged,
    /// Raw object info ([`Request::Cat`]).
    Cat {
        /// The object info payload.
        object: ObjectInfo,
    },
    /// The immediate entries of a tree ([`Request::Ls`]).
    Ls {
        /// The tree entries.
        entries: Vec<TreeEntryData>,
    },
    /// The self-description of the agent API ([`Request::Help`]).
    Help {
        /// One entry per method.
        methods: Vec<MethodInfo>,
    },
    /// Where the working copy currently is ([`Request::Current`]).
    Current {
        /// The current-state payload.
        data: CurrentData,
    },
    /// Every named cut across all lineages ([`Request::Cuts`]), newest-first.
    Cuts {
        /// The cut summaries.
        cuts: Vec<CutSummary>,
    },
    /// The currently-held advisory claims ([`Request::Claims`] /
    /// [`Request::Release`]).
    Claims {
        /// The held claims.
        claims: Vec<Claim>,
    },
    /// Acknowledgement of a recorded claim ([`Request::Claim`]), with any
    /// advisory conflicts.
    Claimed {
        /// The claim that was recorded.
        claim: Claim,
        /// Overlapping claims held by *other* actors (advisory warning).
        conflicts: Vec<Claim>,
        /// The op that recorded the claim (hex).
        op: String,
        /// The first 12 hex chars of `op`.
        op_short: String,
    },
    /// A scoped named cut ([`Request::ScopedCut`]).
    ScopedCut {
        /// The scoped-cut payload.
        data: ScopedCutData,
    },
    /// The op-derived lanes ([`Request::Lanes`]).
    Lanes {
        /// One entry per lane.
        lanes: Vec<LaneData>,
    },
    /// A lane admission ([`Request::Admit`]).
    Admitted {
        /// The admission payload.
        data: AdmissionData,
    },
    /// A backport result ([`Request::Backport`] /
    /// [`Request::BackportContinue`]).
    Backport {
        /// The backport payload.
        data: BackportData,
    },
    /// Per-file line-count stats ([`Request::Diff`] with `stat`).
    DiffStat {
        /// One entry per changed file.
        files: Vec<FileStat>,
        /// Total inserted lines across all files.
        total_added: usize,
        /// Total deleted lines across all files.
        total_removed: usize,
        /// What the `to` side was (live working copy vs recorded snapshot).
        to_kind: DiffTarget,
    },
    /// Per-file content hunks ([`Request::Diff`] with `patch`).
    DiffPatch {
        /// One entry per changed file.
        files: Vec<FilePatch>,
        /// What the `to` side was (live working copy vs recorded snapshot).
        to_kind: DiffTarget,
    },
    /// The outcome of a non-destructive [`Request::Restore`].
    Restored {
        /// The new restore op id (the new head; hex).
        op: String,
        /// The first 12 hex chars of `op`.
        op_short: String,
        /// The restored working-copy snapshot id (hex).
        working_copy: String,
        /// The first 12 hex chars of `working_copy`.
        working_copy_short: String,
        /// The named cut the working copy now represents/sits on, if any.
        restored_cut: Option<CutSummary>,
        /// The op that was current *before* the restore (its parent; hex), if any.
        previous_op: Option<String>,
        /// How to get back (the restore is itself undoable).
        hint: String,
    },
    /// The outcome of a non-destructive [`Request::Undo`].
    Undone {
        /// The new undo op id (the new head; hex).
        op: String,
        /// The first 12 hex chars of `op`.
        op_short: String,
        /// The op that was reversed (hex), if any.
        undone_op: Option<String>,
        /// The working-copy snapshot the undo reinstated (hex).
        working_copy: String,
        /// The first 12 hex chars of `working_copy`.
        working_copy_short: String,
    },
    /// An error: a request failed, or a line could not be parsed. The `message`
    /// is the lowercased engine error text and carries no PII.
    Error {
        /// A human-readable, PII-free error description.
        message: String,
    },
}

impl Response {
    /// Wraps an error message in a [`Response::Error`].
    pub fn error(message: &str) -> (r: Self)
        ensures
            r matches Response::Error { message: m } && m@ == message@,
    {
        Response::Error { message: message.to_owned() }
    }
}

impl DiffTarget {
    /// Classifies a resolved `to` argument: `None` is the live working copy, a
    /// snapshot id is a recorded snapshot.
    pub fn from_to(to: Option<ObjectId>) -> (r: Self)
        ensures
            r == target_of(to),
    {
        if to.is_some() {
            DiffTarget::Snapshot
        } else {
            DiffTarget::LiveWorkingCopy
        }
    }
}

/// What a resolved `to` argument is.
pub open spec fn target_of(to: Option<ObjectId>) -> DiffTarget {
    if to is Some {
        DiffTarget::Snapshot
    } else {
        DiffTarget::LiveWorkingCopy
    }
}

// ── what the payloads hold ───────────────────────────────────────────────────

/// Whether the texts are the hex digits of an id, and the first 12 of them.
pub open spec fn names_id(full: String, short: String, id: Seq<u8>) -> bool {
    full@ == hash::hex_text(id) && short@ == hash::hex_text(id).take(12)
}

/// Whether the texts are the hex digits of the ids.
pub open spec fn name_ids(names: Seq<String>, ids: Seq<Seq<u8>>) -> bool {
    text::texts(names) == ids.map_values(|id: Seq<u8>| hash::hex_text(id))
}

/// Whether an optional text is the hex digits of an optional id.
pub open spec fn names_optional(name: Option<String>, id: Option<ObjectId>) -> bool {
    match (name, id) {
        (Some(s), Some(id)) => s@ == hash::hex_text(id@),
        (None, None) => true,
        _ => false,
    }
}

/// A path with forward slashes only.
pub open spec fn slashed(path: Seq<char>) -> Seq<char> {
    path.map_values(|c: char| if c == '\\' { '/' } else { c })
}

/// Whether the texts are the paths, with forward slashes.
pub open spec fn name_paths(names: Seq<String>, paths: Seq<RepoPath>) -> bool {
    text::texts(names) == encoding::views(paths).map_values(|p: Seq<char>| slashed(p))
}

/// The id of a snapshot.
pub open spec fn snapshot_id(v: SnapshotV) -> Seq<u8> {
    hash::content_id(TypeTag::Snapshot, Snapshot::format(v))
}

/// The id of an op.
pub open spec fn op_id(v: OpV) -> Seq<u8> {
    hash::content_id(TypeTag::Op, Op::format(v))
}

/// The id of a view.
pub open spec fn view_id(v: ViewV) -> Seq<u8> {
    hash::content_id(TypeTag::View, crate::object::View::format(v))
}

/// Whether the data describe the status.
pub open spec fn is_status_data(data: StatusData, status: Status) -> bool {
    &&& name_paths(data.added@, status.added@)
    &&& name_paths(data.modified@, status.modified@)
    &&& name_paths(data.deleted@, status.deleted@)
    &&& data.clean == status.clean()
}

/// Whether the summary describes the snapshot.
pub open spec fn is_cut_summary(data: CutSummary, snap: SnapshotV) -> bool {
    &&& names_id(data.id, data.id_short, snapshot_id(snap))
    &&& names_id(data.change_id, data.change_id_short, snap.change_id)
    &&& data.message@ == snap.message
    &&& data.author_name@ == snap.author.name
    &&& data.timestamp == snap.timestamp.unix_secs
    &&& name_ids(data.parents@, snap.parents)
}

/// Whether the summaries describe the snapshots.
pub open spec fn are_cut_summaries(data: Seq<CutSummary>, snaps: Seq<Snapshot>) -> bool {
    &&& data.len() == snaps.len()
    &&& forall|i: int| 0 <= i < data.len() ==> is_cut_summary(#[trigger] data[i], snaps[i]@)
}

/// Whether an optional summary describes an optional snapshot.
pub open spec fn is_optional_cut(data: Option<CutSummary>, snap: Option<Snapshot>) -> bool {
    match (data, snap) {
        (Some(data), Some(snap)) => is_cut_summary(data, snap@),
        (None, None) => true,
        _ => false,
    }
}

/// Whether the summary describes the op.
pub open spec fn is_op_summary(data: OpSummary, op: OpV) -> bool {
    &&& names_id(data.id, data.id_short, op_id(op))
    &&& data.description@ == op.description
    &&& text::texts(data.command@) == op.metadata.command
    &&& data.timestamp == op.metadata.start.unix_secs
    &&& name_ids(data.parents@, op.parents)
}

/// Whether the summaries describe the ops.
pub open spec fn are_op_summaries(data: Seq<OpSummary>, ops: Seq<Op>) -> bool {
    &&& data.len() == ops.len()
    &&& forall|i: int| 0 <= i < data.len() ==> is_op_summary(#[trigger] data[i], ops[i].model())
}

/// Whether the data describe the diff.
pub open spec fn is_diff_data(data: DiffData, diff: TreeDiff) -> bool {
    &&& text::texts(data.added@) == diff@.added.map_values(|p: Seq<char>| slashed(p))
    &&& text::texts(data.removed@) == diff@.removed.map_values(|p: Seq<char>| slashed(p))
    &&& text::texts(data.modified@) == diff@.modified.map_values(|p: Seq<char>| slashed(p))
}

/// The name of a type tag.
pub open spec fn tag_text(tag: TypeTag) -> Seq<char> {
    match tag {
        TypeTag::Blob => "blob"@,
        TypeTag::Chunk => "chunk"@,
        TypeTag::Tree => "tree"@,
        TypeTag::Snapshot => "snapshot"@,
        TypeTag::Op => "op"@,
        TypeTag::View => "view"@,
    }
}

/// The name of an entry kind.
pub open spec fn kind_text(kind: EntryKind) -> Seq<char> {
    match kind {
        EntryKind::Blob => "blob"@,
        EntryKind::Tree => "tree"@,
        EntryKind::Symlink => "symlink"@,
    }
}

/// Whether the data describe the object.
pub open spec fn is_object_info(data: ObjectInfo, id: Seq<u8>, tag: TypeTag, size: usize) -> bool {
    &&& names_id(data.id, data.id_short, id)
    &&& data.kind@ == tag_text(tag)
    &&& data.size == size
}

/// Whether the data describe the tree entry.
pub open spec fn is_entry_data(data: TreeEntryData, entry: TreeEntry) -> bool {
    &&& data.name@ == entry@.name
    &&& data.kind@ == kind_text(entry@.kind)
    &&& data.mode == entry@.mode
    &&& names_id(data.id, data.id_short, entry@.id)
}

/// Whether the data describe the tree entries.
pub open spec fn are_entry_data(data: Seq<TreeEntryData>, entries: Seq<TreeEntry>) -> bool {
    &&& data.len() == entries.len()
    &&& forall|i: int| 0 <= i < data.len() ==> is_entry_data(#[trigger] data[i], entries[i])
}

/// Whether the data describe the scoped cut.
pub open spec fn is_scoped_data(data: ScopedCutData, outcome: ScopedCutOutcome) -> bool {
    &&& names_id(data.cut, data.cut_short, outcome.cut@)
    &&& names_id(data.op, data.op_short, outcome.op@)
    &&& names_optional(data.base, outcome.base)
    &&& data.captured@ == outcome.captured@
    &&& data.outside_changes@ == outcome.outside_changes@
}

/// Whether the data describe the lane.
pub open spec fn is_lane_data(data: LaneData, lane: Lane) -> bool {
    &&& data.name@ == lane.name@
    &&& names_id(data.cut, data.cut_short, lane.cut@)
    &&& names_id(data.admission, data.admission_short, lane.admission@)
    &&& data.reason@ == lane.reason@
    &&& data.timestamp == lane.timestamp
}

/// Whether the data describe the lanes.
pub open spec fn are_lane_data(data: Seq<LaneData>, lanes: Seq<Lane>) -> bool {
    &&& data.len() == lanes.len()
    &&& forall|i: int| 0 <= i < data.len() ==> is_lane_data(#[trigger] data[i], lanes[i])
}

/// Whether the data describe the admission.
pub open spec fn is_admission_data(data: AdmissionData, outcome: AdmissionOutcome) -> bool {
    &&& data.lane@ == outcome.lane@
    &&& names_id(data.cut, data.cut_short, outcome.cut@)
    &&& names_id(data.op, data.op_short, outcome.op@)
    &&& data.reason@ == outcome.reason@
}

/// Whether the data describe the admission of a source, if there is one.
pub open spec fn is_source_data(
    data: Option<SourceAdmissionData>,
    source: Option<SourceAdmission>,
) -> bool {
    match (data, source) {
        (Some(data), Some(source)) => data.lane@ == source.lane@ && names_id(
            data.op,
            data.op_short,
            source.op@,
        ),
        (None, None) => true,
        _ => false,
    }
}

/// Whether the data describe where a backport comes from and goes to.
pub open spec fn is_provenance_data(
    data: BackportProvenanceData,
    provenance: BackportProvenance,
) -> bool {
    &&& names_id(data.source_cut, data.source_cut_short, provenance.source_cut@)
    &&& names_id(data.source_change_id, data.source_change_id_short, provenance.source_change_id@)
    &&& is_source_data(data.source_admission, provenance.source_admission)
    &&& data.target_lane@ == provenance.target_lane@
    &&& names_id(data.target_base, data.target_base_short, provenance.target_base@)
    &&& data.reason@ == provenance.reason@
}

/// Whether the texts are the hex digits of an id, and the first 12 of them, both
/// present.
pub open spec fn names_some(full: Option<String>, short: Option<String>, id: Seq<u8>) -> bool {
    full is Some && short is Some && names_id(full->Some_0, short->Some_0, id)
}

/// Whether the data describe a backport that led to a cut.
pub open spec fn is_record_data(
    data: BackportData,
    outcome: Seq<char>,
    record: BackportRecord,
    admission: Option<AdmissionData>,
) -> bool {
    &&& data.outcome@ == outcome
    &&& is_provenance_data(data.provenance, record.provenance)
    &&& names_some(data.cut, data.cut_short, record.result_cut@)
    &&& names_some(data.op, data.op_short, record.op@)
    &&& data.method@ == record.method@
    &&& data.conflicts@ == Seq::<String>::empty()
    &&& data.admission == admission
}

/// Whether the data describe a backport that has to be settled.
pub open spec fn is_settlement_data(
    data: BackportData,
    settlement: BackportSettlement,
    admission: Option<AdmissionData>,
) -> bool {
    &&& data.outcome@ == "settlement"@
    &&& is_provenance_data(data.provenance, settlement.provenance)
    &&& data.cut is None
    &&& data.cut_short is None
    &&& names_some(data.op, data.op_short, settlement.op@)
    &&& data.method@ == "settlement"@
    &&& data.conflicts@ == settlement.conflicts@
    &&& data.admission == admission
}

/// Whether the data describe a backport.
pub open spec fn is_backport_data(
    data: BackportData,
    outcome: BackportOutcome,
    admission: Option<AdmissionData>,
) -> bool {
    match outcome {
        BackportOutcome::Created(record) => is_record_data(data, "created"@, record, admission),
        BackportOutcome::AlreadyPorted(record) => is_record_data(
            data,
            "already_ported"@,
            record,
            admission,
        ),
        BackportOutcome::Settlement(settlement) => is_settlement_data(
            data,
            settlement,
            admission,
        ),
    }
}

/// No e-mail address is told: what a summary says of a cut is settled by the
/// cut's id, change, message, author's name, time and parents.
pub proof fn lemma_summaries_tell_no_email(data: CutSummary, a: SnapshotV, b: SnapshotV)
    requires
        is_cut_summary(data, a),
        snapshot_id(a) == snapshot_id(b),
        a.change_id == b.change_id,
        a.message == b.message,
        a.author.name == b.author.name,
        a.timestamp.unix_secs == b.timestamp.unix_secs,
        a.parents == b.parents,
    ensures
        is_cut_summary(data, b),
{
}

/// Whether a text stands in one of the texts of a summary.
pub open spec fn summary_holds(data: CutSummary, s: Seq<char>) -> bool {
    ||| text::occurs_in(data.id@, s)
    ||| text::occurs_in(data.id_short@, s)
    ||| text::occurs_in(data.change_id@, s)
    ||| text::occurs_in(data.change_id_short@, s)
    ||| text::occurs_in(data.message@, s)
    ||| text::occurs_in(data.author_name@, s)
    ||| exists|i: int| 0 <= i < data.parents@.len() && text::occurs_in(#[trigger] data.parents@[i]@, s)
}

/// Whether a text is more than hex digits, as an e-mail address is.
pub open spec fn is_no_hex(s: Seq<char>) -> bool {
    exists|k: int| 0 <= k < s.len() && hash::hex_value(#[trigger] s[k]) < 0
}

/// What is more than hex digits stands in no id.
pub proof fn lemma_not_in_id(id: Seq<u8>, s: Seq<char>)
    requires
        is_no_hex(s),
    ensures
        !text::occurs_in(hash::hex_text(id), s),
        object::is_id(id) ==> !text::occurs_in(hash::hex_text(id).take(12), s),
{
    let digits = hash::hex_text(id);
    let k = choose|k: int| 0 <= k < s.len() && hash::hex_value(#[trigger] s[k]) < 0;
    assert forall|i: int| 0 <= i < digits.len() implies hash::hex_value(#[trigger] digits[i])
        >= 0 by {
        let b = id[i / 2] as int;
        hash::lemma_hex_digit(b / 16);
        hash::lemma_hex_digit(b % 16);
    }
    if text::occurs_in(digits, s) {
        let at = choose|at: int| text::occurs_at(digits, s, at);
        assert(digits.subrange(at, at + s.len())[k] == s[k]);
        assert(hash::hex_value(digits[at + k]) >= 0);
    }
    let first = digits.take(12);
    if object::is_id(id) && text::occurs_in(first, s) {
        let at = choose|at: int| text::occurs_at(first, s, at);
        assert(first.subrange(at, at + s.len())[k] == s[k]);
        assert(first[at + k] == digits[at + k]);
        assert(hash::hex_value(digits[at + k]) >= 0);
    }
}

/// A summary holds no e-mail address: no text that is more than hex digits stands
/// in it, unless the message or the author's name of the cut holds it.
pub proof fn lemma_summary_holds_no_email(data: CutSummary, snap: SnapshotV, email: Seq<char>)
    requires
        is_cut_summary(data, snap),
        object::is_id(snapshot_id(snap)),
        object::is_id(snap.change_id),
        is_no_hex(email),
        !text::occurs_in(snap.message, email),
        !text::occurs_in(snap.author.name, email),
    ensures
        !summary_holds(data, email),
{
    lemma_not_in_id(snapshot_id(snap), email);
    lemma_not_in_id(snap.change_id, email);
    assert forall|i: int| 0 <= i < data.parents@.len() implies !text::occurs_in(
        #[trigger] data.parents@[i]@,
        email,
    ) by {
        assert(text::texts(data.parents@).len() == snap.parents.len());
        assert(text::texts(data.parents@)[i] == data.parents@[i]@);
        lemma_not_in_id(snap.parents[i], email);
    }
}

// ── building the payloads ────────────────────────────────────────────────────

/// A copy of a path with forward slashes only.
fn slash(path: &str) -> (r: String)
    ensures
        r@ == slashed(path@),
{
    let mut out = String::new();
    assert(out@ =~= slashed(path@).take(0));
    for c in it: path.chars()
        invariant
            it.seq() == path@,
            out@ == slashed(path@).take(it.index() as int),
    {
        let ghost i: int = it.index() as int;
        out.push(if c == '\\' { '/' } else { c });
        assert(slashed(path@).take(i + 1) =~= slashed(path@).take(i).push(slashed(path@)[i]));
    }
    assert(slashed(path@).take(path@.len() as int) =~= slashed(path@));
    out
}

/// Renders paths as forward-slashed strings.
pub fn paths_to_strings(paths: &[RepoPath]) -> (r: Vec<String>)
    ensures
        name_paths(r@, paths@),
{
    let ghost all = encoding::views(paths@).map_values(|p: Seq<char>| slashed(p));
    let mut out: Vec<String> = Vec::new();
    let mut i: usize = 0;
    assert(text::texts(out@) =~= all.take(0));
    while i < paths.len()
        invariant
            i <= paths@.len(),
            all == encoding::views(paths@).map_values(|p: Seq<char>| slashed(p)),
            text::texts(out@) == all.take(i as int),
        decreases paths.len() - i,
    {
        let ghost was = out@;
        out.push(slash(paths[i].as_str()));
        proof {
            assert(text::texts(out@) =~= text::texts(was).push(all[i as int]));
            assert(all.take(i + 1) =~= all.take(i as int).push(all[i as int]));
        }
        i += 1;
    }
    assert(all.take(i as int) =~= all);
    out
}

/// Renders object ids as lowercase hex strings.
pub fn ids_to_strings(ids: &[ObjectId]) -> (r: Vec<String>)
    ensures
        name_ids(r@, encoding::views(ids@)),
{
    let ghost all = encoding::views(ids@).map_values(|id: Seq<u8>| hash::hex_text(id));
    let mut out: Vec<String> = Vec::new();
    let mut i: usize = 0;
    assert(text::texts(out@) =~= all.take(0));
    while i < ids.len()
        invariant
            i <= ids@.len(),
            all == encoding::views(ids@).map_values(|id: Seq<u8>| hash::hex_text(id)),
            text::texts(out@) == all.take(i as int),
        decreases ids.len() - i,
    {
        let ghost was = out@;
        out.push(ids[i].to_hex());
        proof {
            assert(text::texts(out@) =~= text::texts(was).push(all[i as int]));
            assert(all.take(i + 1) =~= all.take(i as int).push(all[i as int]));
        }
        i += 1;
    }
    assert(all.take(i as int) =~= all);
    out
}

/// The lowercase name of a type tag.
pub fn tag_name(tag: TypeTag) -> (r: String)
    ensures
        r@ == tag_text(tag),
{
    match tag {
        TypeTag::Blob => "blob".to_owned(),
        TypeTag::Chunk => "chunk".to_owned(),
        TypeTag::Tree => "tree".to_owned(),
        TypeTag::Snapshot => "snapshot".to_owned(),
        TypeTag::Op => "op".to_owned(),
        TypeTag::View => "view".to_owned(),
    }
}

/// The lowercase name of an entry kind.
pub fn entry_kind_name(kind: EntryKind) -> (r: String)
    ensures
        r@ == kind_text(kind),
{
    match kind {
        EntryKind::Blob => "blob".to_owned(),
        EntryKind::Tree => "tree".to_owned(),
        EntryKind::Symlink => "symlink".to_owned(),
    }
}

impl StatusData {
    /// Builds a [`StatusData`] from an engine [`Status`].
    pub fn from_status(status: &Status) -> (r: Self)
        ensures
            is_status_data(r, *status),
    {
        StatusData {
            added: paths_to_strings(status.added.as_slice()),
            modified: paths_to_strings(status.modified.as_slice()),
            deleted: paths_to_strings(status.deleted.as_slice()),
            clean: status.is_clean(),
        }
    }
}

impl CutSummary {
    /// Builds a [`CutSummary`] from a [`Snapshot`].
    pub fn from_snapshot(snap: &Snapshot) -> (r: Self)
        ensures
            is_cut_summary(r, snap@),
    {
        let id = snap.id();
        CutSummary {
            id: id.to_hex(),
            id_short: id.short(),
            change_id: snap.change_id().to_hex(),
            change_id_short: snap.change_id().short(),
            message: snap.message().to_owned(),
            author_name: snap.author().name().to_owned(),
            timestamp: snap.timestamp().unix_secs(),
            parents: ids_to_strings(snap.parents()),
        }
    }
}

impl OpSummary {
    /// Builds an [`OpSummary`] from an [`Op`].
    pub fn from_op(op: &Op) -> (r: Self)
        ensures
            is_op_summary(r, op.model()),
    {
        let id = op.id();
        let command = copy_texts(op.metadata().command());
        assert(text::texts(command@) =~= op.model().metadata.command);
        OpSummary {
            id: id.to_hex(),
            id_short: id.short(),
            description: op.description().to_owned(),
            command,
            timestamp: op.metadata().start().unix_secs(),
            parents: ids_to_strings(op.parents()),
        }
    }
}

impl DiffData {
    /// Builds a [`DiffData`] from a [`TreeDiff`].
    pub fn from_tree_diff(diff: &TreeDiff) -> (r: Self)
        ensures
            is_diff_data(r, *diff),
    {
        DiffData {
            added: paths_to_strings(diff.added()),
            removed: paths_to_strings(diff.removed()),
            modified: paths_to_strings(diff.modified()),
        }
    }
}

/// Summarizes named cuts.
pub fn cut_summaries(snaps: &[Snapshot]) -> (r: Vec<CutSummary>)
    ensures
        are_cut_summaries(r@, snaps@),
{
    let mut out: Vec<CutSummary> = Vec::new();
    let mut i: usize = 0;
    while i < snaps.len()
        invariant
            i <= snaps@.len(),
            out@.len() == i,
            forall|k: int| 0 <= k < i ==> is_cut_summary(#[trigger] out@[k], snaps@[k]@),
        decreases snaps.len() - i,
    {
        out.push(CutSummary::from_snapshot(&snaps[i]));
        i += 1;
    }
    out
}

/// Summarizes a named cut, if there is one.
pub fn optional_cut(snap: &Option<Snapshot>) -> (r: Option<CutSummary>)
    ensures
        is_optional_cut(r, *snap),
{
    match snap {
        Some(snap) => Some(CutSummary::from_snapshot(snap)),
        None => None,
    }
}

/// Summarizes ops.
pub fn op_summaries(ops: &[Op]) -> (r: Vec<OpSummary>)
    ensures
        are_op_summaries(r@, ops@),
{
    let mut out: Vec<OpSummary> = Vec::new();
    let mut i: usize = 0;
    while i < ops.len()
        invariant
            i <= ops@.len(),
            out@.len() == i,
            forall|k: int| 0 <= k < i ==> is_op_summary(#[trigger] out@[k], ops@[k].model()),
        decreases ops.len() - i,
    {
        out.push(OpSummary::from_op(&ops[i]));
        i += 1;
    }
    out
}

/// Describes tree entries.
pub fn entry_data(entries: &[TreeEntry]) -> (r: Vec<TreeEntryData>)
    ensures
        are_entry_data(r@, entries@),
{
    let mut out: Vec<TreeEntryData> = Vec::new();
    let mut i: usize = 0;
    while i < entries.len()
        invariant
            i <= entries@.len(),
            out@.len() == i,
            forall|k: int| 0 <= k < i ==> is_entry_data(#[trigger] out@[k], entries@[k]),
        decreases entries.len() - i,
    {
        let entry = &entries[i];
        out.push(
            TreeEntryData {
                name: entry.name().to_owned(),
                kind: entry_kind_name(entry.kind()),
                mode: entry.mode(),
                id: entry.id().to_hex(),
                id_short: entry.id().short(),
            },
        );
        i += 1;
    }
    out
}

/// Describes a scoped cut.
pub fn scoped_cut_data(outcome: ScopedCutOutcome) -> (r: ScopedCutData)
    ensures
        is_scoped_data(r, outcome),
{
    ScopedCutData {
        cut: outcome.cut.to_hex(),
        cut_short: outcome.cut.short(),
        op: outcome.op.to_hex(),
        op_short: outcome.op.short(),
        base: match outcome.base {
            Some(id) => Some(id.to_hex()),
            None => None,
        },
        captured: outcome.captured,
        outside_changes: outcome.outside_changes,
    }
}

/// Describes a lane.
fn lane_data(lane: &Lane) -> (r: LaneData)
    ensures
        is_lane_data(r, *lane),
{
    LaneData {
        name: lane.name.clone(),
        cut: lane.cut.to_hex(),
        cut_short: lane.cut.short(),
        admission: lane.admission.to_hex(),
        admission_short: lane.admission.short(),
        reason: lane.reason.clone(),
        timestamp: lane.timestamp,
    }
}

/// Describes lanes.
pub fn lanes_data(lanes: &[Lane]) -> (r: Vec<LaneData>)
    ensures
        are_lane_data(r@, lanes@),
{
    let mut out: Vec<LaneData> = Vec::new();
    let mut i: usize = 0;
    while i < lanes.len()
        invariant
            i <= lanes@.len(),
            out@.len() == i,
            forall|k: int| 0 <= k < i ==> is_lane_data(#[trigger] out@[k], lanes@[k]),
        decreases lanes.len() - i,
    {
        out.push(lane_data(&lanes[i]));
        i += 1;
    }
    out
}

/// Describes an admission.
pub fn admission_data(outcome: &AdmissionOutcome) -> (r: AdmissionData)
    ensures
        is_admission_data(r, *outcome),
{
    AdmissionData {
        lane: outcome.lane.clone(),
        cut: outcome.cut.to_hex(),
        cut_short: outcome.cut.short(),
        op: outcome.op.to_hex(),
        op_short: outcome.op.short(),
        reason: outcome.reason.clone(),
    }
}

/// Describes where a backport comes from and goes to.
fn provenance_data(provenance: &BackportProvenance) -> (r: BackportProvenanceData)
    ensures
        is_provenance_data(r, *provenance),
{
    let source_admission = match &provenance.source_admission {
        Some(source) => Some(
            SourceAdmissionData {
                lane: source.lane.clone(),
                op: source.op.to_hex(),
                op_short: source.op.short(),
            },
        ),
        None => None,
    };
    BackportProvenanceData {
        source_cut: provenance.source_cut.to_hex(),
        source_cut_short: provenance.source_cut.short(),
        source_change_id: provenance.source_change_id.to_hex(),
        source_change_id_short: provenance.source_change_id.short(),
        source_admission,
        target_lane: provenance.target_lane.clone(),
        target_base: provenance.target_base.to_hex(),
        target_base_short: provenance.target_base.short(),
        reason: provenance.reason.clone(),
    }
}

/// Describes a backport that led to a cut.
fn record_backport_data(
    outcome: &str,
    record: &BackportRecord,
    admission: Option<AdmissionData>,
) -> (r: BackportData)
    ensures
        is_record_data(r, outcome@, *record, admission),
{
    BackportData {
        outcome: outcome.to_owned(),
        provenance: provenance_data(&record.provenance),
        cut: Some(record.result_cut.to_hex()),
        cut_short: Some(record.result_cut.short()),
        op: Some(record.op.to_hex()),
        op_short: Some(record.op.short()),
        method: record.method.clone(),
        conflicts: Vec::new(),
        admission,
    }
}

/// Describes a backport that has to be settled.
fn settlement_backport_data(
    settlement: &BackportSettlement,
    admission: Option<AdmissionData>,
) -> (r: BackportData)
    ensures
        is_settlement_data(r, *settlement, admission),
{
    BackportData {
        outcome: "settlement".to_owned(),
        provenance: provenance_data(&settlement.provenance),
        cut: None,
        cut_short: None,
        op: Some(settlement.op.to_hex()),
        op_short: Some(settlement.op.short()),
        method: "settlement".to_owned(),
        conflicts: copy_texts(settlement.conflicts.as_slice()),
        admission,
    }
}

/// Describes a backport.
pub fn backport_data(outcome: &BackportOutcome, admission: Option<AdmissionData>) -> (r: BackportData)
    ensures
        is_backport_data(r, *outcome, admission),
{
    match outcome {
        BackportOutcome::Created(record) => record_backport_data("created", record, admission),
        BackportOutcome::AlreadyPorted(record) => record_backport_data(
            "already_ported",
            record,
            admission,
        ),
        BackportOutcome::Settlement(settlement) => settlement_backport_data(
            settlement,
            admission,
        ),
    }
}

} // verus!
