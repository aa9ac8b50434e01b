//! What the repository engine is asked, and what it answers.
//!
//! The engine owns the working directory and the head of the op-log; it is
//! driven from outside this crate. An [`Action`] is one call of it, and a
//! [`Reply`] what the call gives back.
use vstd::prelude::*;
use vstd::string::*;

use crate::claims::Claim;
use crate::diff::{RepoPath, TreeDiff};
use crate::error::Error;
use crate::hash::{ObjectId, TypeTag};
use crate::linediff::FilePatch;
use crate::object::{Op, Snapshot, TreeEntry};

verus! {

/// The working directory against the working-copy snapshot.
#[derive(Debug)]
pub struct Status {
    /// Paths present on disk but not in the snapshot.
    pub added: Vec<RepoPath>,
    /// Paths present in both but with changed content.
    pub modified: Vec<RepoPath>,
    /// Paths present in the snapshot but missing from disk.
    pub deleted: Vec<RepoPath>,
}

impl Status {
    /// Whether nothing changed.
    pub open spec fn clean(&self) -> bool {
        self.added@.len() == 0 && self.modified@.len() == 0 && self.deleted@.len() == 0
    }

    /// Returns `true` if the working directory matches the snapshot exactly.
    pub fn is_clean(&self) -> (r: bool)
        ensures
            r == self.clean(),
    {
        self.added.len() == 0 && self.modified.len() == 0 && self.deleted.len() == 0
    }
}

/// A team or release lane and the cut it holds.
#[derive(Debug)]
pub struct Lane {
    /// The lane name.
    pub name: String,
    /// The currently admitted cut.
    pub cut: ObjectId,
    /// The op that admitted the current cut.
    pub admission: ObjectId,
    /// The admission reason, if any.
    pub reason: String,
    /// Admission timestamp, seconds since the Unix epoch.
    pub timestamp: i64,
}

/// The result of admitting a cut to a lane.
#[derive(Debug)]
pub struct AdmissionOutcome {
    /// The lane name.
    pub lane: String,
    /// The admitted cut.
    pub cut: ObjectId,
    /// The op that recorded the admission.
    pub op: ObjectId,
    /// The admission reason, if any.
    pub reason: String,
}

/// The result of a scoped cut.
#[derive(Debug)]
pub struct ScopedCutOutcome {
    /// The new cut.
    pub cut: ObjectId,
    /// The op that recorded it.
    pub op: ObjectId,
    /// The base cut the scoped paths were overlaid onto, if any.
    pub base: Option<ObjectId>,
    /// The in-scope paths captured by this cut.
    pub captured: Vec<String>,
    /// Out-of-scope paths that differ from base.
    pub outside_changes: Vec<String>,
}

/// The lane that admitted the source of a backport.
#[derive(Debug)]
pub struct SourceAdmission {
    /// The lane name.
    pub lane: String,
    /// The admission op.
    pub op: ObjectId,
}

/// Where a backport comes from and goes to.
#[derive(Debug)]
pub struct BackportProvenance {
    /// The source fix cut.
    pub source_cut: ObjectId,
    /// The source logical change.
    pub source_change_id: ObjectId,
    /// The source lane admission, if discoverable.
    pub source_admission: Option<SourceAdmission>,
    /// The target lane.
    pub target_lane: String,
    /// The target base cut.
    pub target_base: ObjectId,
    /// The backport reason, if any.
    pub reason: String,
}

/// A backport that led to a cut.
#[derive(Debug)]
pub struct BackportRecord {
    /// Where it comes from and goes to.
    pub provenance: BackportProvenance,
    /// The cut it led to.
    pub result_cut: ObjectId,
    /// The op that recorded it.
    pub op: ObjectId,
    /// `clean` or `manual`.
    pub method: String,
}

/// A backport that has to be settled by hand.
#[derive(Debug)]
pub struct BackportSettlement {
    /// Where it comes from and goes to.
    pub provenance: BackportProvenance,
    /// The op that recorded it.
    pub op: ObjectId,
    /// The conflicted paths.
    pub conflicts: Vec<String>,
}

/// The result of a backport.
#[derive(Debug)]
pub enum BackportOutcome {
    /// A cut was created.
    Created(BackportRecord),
    /// The fix was there already.
    AlreadyPorted(BackportRecord),
    /// Conflicts have to be settled first.
    Settlement(BackportSettlement),
}

impl BackportOutcome {
    /// Where the backport comes from and goes to.
    pub open spec fn source(&self) -> BackportProvenance {
        match *self {
            BackportOutcome::Created(record) => record.provenance,
            BackportOutcome::AlreadyPorted(record) => record.provenance,
            BackportOutcome::Settlement(settlement) => settlement.provenance,
        }
    }

    /// Where the backport comes from and goes to.
    pub fn provenance(&self) -> (r: &BackportProvenance)
        ensures
            *r == self.source(),
    {
        match self {
            BackportOutcome::Created(record) => &record.provenance,
            BackportOutcome::AlreadyPorted(record) => &record.provenance,
            BackportOutcome::Settlement(settlement) => &settlement.provenance,
        }
    }
}

/// One call of the engine. Ids and prefixes of ids are as the caller gave them
/// until they are resolved.
#[derive(Debug)]
pub enum Action {
    /// Find the object that a hex id or a unique prefix of one names.
    Resolve(String),
    /// Compare the working directory with the working-copy snapshot.
    Status,
    /// Snapshot the working copy.
    Snapshot,
    /// Close a named cut.
    NamedCut {
        /// The cut message.
        message: String,
        /// The author's display name.
        author_name: String,
        /// The author's e-mail address.
        author_email: String,
    },
    /// The named cuts in the working copy's ancestry, newest-first.
    Log,
    /// The operation log, newest-first.
    OpLog,
    /// Diff two snapshots, file by file.
    Diff {
        /// The old side; none for the default base.
        from: Option<ObjectId>,
        /// The new side; none for the live working copy.
        to: Option<ObjectId>,
    },
    /// Diff two snapshots, line by line.
    DiffPatch {
        /// The old side; none for the default base.
        from: Option<ObjectId>,
        /// The new side; none for the live working copy.
        to: Option<ObjectId>,
    },
    /// Restore the working copy to an op or snapshot.
    Restore(ObjectId),
    /// Reverse the most recent operation.
    Undo,
    /// The tag and the length of an object.
    Cat(ObjectId),
    /// The tree of the live working copy.
    LiveTree,
    /// The entries of a tree.
    ListTree(ObjectId),
    /// The op at the head.
    CurrentOp,
    /// The view of the op at the head.
    CurrentView,
    /// The working-copy snapshot.
    WorkingCopy,
    /// The named cut the working copy represents or sits on.
    BaseCut,
    /// Every named cut across all lineages, newest-first.
    AllCuts,
    /// The claims that are held.
    Claims,
    /// Record a claim.
    Claim {
        /// The path to claim.
        path: String,
        /// The actor holding the claim.
        holder: String,
        /// An advisory note.
        note: String,
    },
    /// Record a release.
    Release {
        /// The path to release.
        path: String,
        /// The actor releasing the claim.
        holder: String,
    },
    /// Close a named cut of some paths only.
    ScopedCut {
        /// The paths to capture.
        paths: Vec<String>,
        /// The cut message.
        message: String,
        /// The author's display name.
        author_name: String,
        /// The author's e-mail address.
        author_email: String,
        /// The cut to overlay onto; none for the current base cut.
        base: Option<ObjectId>,
    },
    /// The lanes.
    Lanes,
    /// Admit a cut to a lane.
    Admit {
        /// The cut.
        cut: ObjectId,
        /// The lane.
        lane: String,
        /// The reason.
        reason: String,
    },
    /// Create a backport proposal.
    Backport {
        /// The source fix cut.
        source: ObjectId,
        /// The target lane.
        target_lane: String,
        /// The target cut message, if it is to have its own.
        message: Option<String>,
        /// The reason.
        reason: String,
        /// The author's display name.
        author_name: String,
        /// The author's e-mail address.
        author_email: String,
    },
    /// Finish the manual settlement of a backport.
    ContinueBackport {
        /// The author's display name.
        author_name: String,
        /// The author's e-mail address.
        author_email: String,
    },
    /// Read an op.
    GetOp(ObjectId),
    /// Read a view.
    GetView(ObjectId),
    /// Read a snapshot.
    GetSnapshot(ObjectId),
}

/// What a call of the engine gives back.
#[derive(Debug)]
pub enum Reply {
    /// The call failed.
    Failed(Error),
    /// The id of an object.
    Id(ObjectId),
    /// A status.
    Status(Status),
    /// Snapshots, newest-first.
    Snapshots(Vec<Snapshot>),
    /// Ops, newest-first.
    Ops(Vec<Op>),
    /// A file-level diff.
    Diff(TreeDiff),
    /// A line-level diff.
    Patches(Vec<FilePatch>),
    /// The tag and the length of an object.
    Object {
        /// The tag.
        tag: TypeTag,
        /// The length of the canonical bytes.
        size: usize,
    },
    /// The entries of a tree.
    Entries(Vec<TreeEntry>),
    /// An op.
    Op(Op),
    /// A view.
    View(crate::object::View),
    /// A snapshot.
    Snapshot(Snapshot),
    /// A named cut, if there is one.
    Cut(Option<Snapshot>),
    /// Claims.
    Claims(Vec<Claim>),
    /// A scoped cut.
    Scoped(ScopedCutOutcome),
    /// Lanes.
    Lanes(Vec<Lane>),
    /// An admission.
    Admission(AdmissionOutcome),
    /// A backport.
    Backport(BackportOutcome),
}

} // verus!
