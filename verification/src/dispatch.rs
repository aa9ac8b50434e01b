//! How a request is carried out.
//!
//! A request is a conversation with the engine: [`run`] opens it, and [`resume`]
//! continues it with each of the engine's replies until there is a response or an
//! error. Every mutating request is validated by the engine before it answers, so
//! the first error ends the conversation.
use vstd::prelude::*;
use vstd::string::*;

use crate::object;
use crate::text;
use crate::linediff;
use crate::ignore;
use crate::hash;
use crate::error;
use crate::claims;
use crate::schema;
use crate::encoding;
use crate::api;
use crate::api::{
    admission_data, backport_data, cut_summaries, entry_data, ids_to_strings, lanes_data,
    op_summaries, optional_cut, scoped_cut_data, tag_name, CurrentData, CutSummary, DiffData,
    DiffTarget, ObjectInfo, Request, Response, StatusData,
};
use crate::claims::{conflicts, Claim, ClaimKey, ClaimV};
use crate::engine::{Action, BackportOutcome, Reply};
use crate::error::Error;
use crate::hash::ObjectId;
use crate::linediff::{FilePatch, FilePatchV, FileStat};
use crate::object::{Op, OpV, Snapshot, SnapshotV, ViewV};
use crate::output::text2;
use crate::schema::schema_methods;
use crate::text::{same_text, trim};
use crate::tree::normalize_repo_path;

verus! {

/// What is remembered of a request while the engine is asked.
#[derive(Debug)]
pub enum State {
    /// The status was asked for.
    Status,
    /// A snapshot was asked for.
    Snapshot,
    /// A named cut was asked for.
    NamedCut,
    /// The log was asked for.
    Log,
    /// The op log was asked for.
    OpLog,
    /// The old side of a diff is being resolved.
    DiffFrom {
        /// The new side, as it was given.
        to: Option<String>,
        /// Whether line counts are wanted.
        stat: bool,
        /// Whether hunks are wanted.
        patch: bool,
    },
    /// The new side of a diff is being resolved.
    DiffTo {
        /// The old side.
        from: Option<ObjectId>,
        /// Whether line counts are wanted.
        stat: bool,
        /// Whether hunks are wanted.
        patch: bool,
    },
    /// A file-level diff was asked for.
    Diff {
        /// What the new side is.
        to_kind: DiffTarget,
    },
    /// A line-level diff was asked for, to be counted.
    DiffStat {
        /// What the new side is.
        to_kind: DiffTarget,
    },
    /// A line-level diff was asked for.
    DiffPatch {
        /// What the new side is.
        to_kind: DiffTarget,
    },
    /// The target of a restore is being resolved.
    RestoreTarget,
    /// A restore was asked for.
    Restored,
    /// The op that a restore recorded is being read.
    RestoredOp {
        /// Its id.
        new_op: ObjectId,
    },
    /// The view of a restore is being read.
    RestoredView {
        /// The op that recorded the restore.
        new_op: ObjectId,
        /// The op before it.
        previous_op: Option<ObjectId>,
    },
    /// The working copy of a restore is being read.
    RestoredCopy {
        /// The op that recorded the restore.
        new_op: ObjectId,
        /// The op before it.
        previous_op: Option<ObjectId>,
    },
    /// The cut that a restored working copy sits on was asked for.
    RestoredBase {
        /// The op that recorded the restore.
        new_op: ObjectId,
        /// The op before it.
        previous_op: Option<ObjectId>,
        /// The restored working copy.
        copy: Snapshot,
    },
    /// An undo was asked for.
    Undone,
    /// The op that an undo recorded is being read.
    UndoneOp {
        /// Its id.
        new_op: ObjectId,
    },
    /// The view of an undo is being read.
    UndoneView {
        /// The op that recorded the undo.
        new_op: ObjectId,
        /// The op that was reversed.
        undone_op: Option<ObjectId>,
    },
    /// The working copy of an undo is being read.
    UndoneCopy {
        /// The op that recorded the undo.
        new_op: ObjectId,
        /// The op that was reversed.
        undone_op: Option<ObjectId>,
    },
    /// The object to inspect is being resolved.
    CatId,
    /// An object is being inspected.
    CatObject {
        /// Its id.
        id: ObjectId,
    },
    /// The tree to list is being found.
    LsTree,
    /// A tree is being listed.
    LsEntries,
    /// The current op was asked for.
    CurrentOp,
    /// The current view was asked for.
    CurrentView {
        /// The current op.
        op: Op,
    },
    /// The working copy was asked for.
    CurrentCopy {
        /// The current op.
        op: Op,
        /// The current view.
        view: crate::object::View,
    },
    /// The cut that the working copy sits on was asked for.
    CurrentBase {
        /// The current op.
        op: Op,
        /// The current view.
        view: crate::object::View,
        /// The working copy.
        copy: Snapshot,
    },
    /// The status of the working copy was asked for.
    CurrentStatus {
        /// The current op.
        op: Op,
        /// The current view.
        view: crate::object::View,
        /// The working copy.
        copy: Snapshot,
        /// The cut that the working copy sits on.
        base: Option<Snapshot>,
    },
    /// Every cut was asked for.
    Cuts,
    /// The claims were asked for.
    Claims,
    /// The claims before a claim were asked for.
    ClaimBefore {
        /// The path to claim.
        path: String,
        /// Who claims it.
        holder: String,
        /// The note.
        note: String,
    },
    /// A claim is being recorded.
    ClaimMade {
        /// The claimed path.
        path: String,
        /// Who claims it.
        holder: String,
        /// The claims of others that it overlaps.
        conflicts: Vec<Claim>,
    },
    /// The claims after a claim were asked for.
    ClaimAfter {
        /// The claimed path.
        path: String,
        /// Who claims it.
        holder: String,
        /// The claims of others that it overlaps.
        conflicts: Vec<Claim>,
        /// The op that recorded the claim.
        op: ObjectId,
    },
    /// A release is being recorded.
    Released,
    /// The base of a scoped cut is being resolved.
    ScopedBase {
        /// The paths to capture.
        paths: Vec<String>,
        /// The cut message.
        message: String,
        /// The author's display name.
        author_name: String,
        /// The author's e-mail address.
        author_email: String,
    },
    /// A scoped cut was asked for.
    ScopedCut,
    /// The lanes were asked for.
    Lanes,
    /// The cut to admit is being resolved.
    AdmitCut {
        /// The lane.
        lane: String,
        /// The reason.
        reason: String,
    },
    /// An admission was asked for.
    Admitted,
    /// The source of a backport is being resolved.
    BackportSource {
        /// The target lane.
        target_lane: String,
        /// The target cut message, if it is to have its own.
        message: Option<String>,
        /// The reason.
        reason: String,
        /// The author's display name.
        author_name: String,
        /// The author's e-mail address.
        author_email: String,
        /// Whether the created cut is to be admitted.
        also_admit: bool,
    },
    /// A backport was asked for.
    Backport {
        /// Whether the created cut is to be admitted.
        also_admit: bool,
        /// The reason to admit it for; none for the reason of the backport.
        reason: Option<String>,
    },
    /// The admission of a backported cut was asked for.
    BackportAdmitted {
        /// The backport.
        outcome: BackportOutcome,
    },
}

/// What to do next.
#[derive(Debug)]
pub enum Step {
    /// Ask the engine, and resume from the state with its reply.
    Ask(Action, State),
    /// The request is done.
    Done(Result<Response, Error>),
}

// ── the first step ───────────────────────────────────────────────────────────

/// What to ask for a diff of two resolved sides.
pub open spec fn diff_step(
    from: Option<ObjectId>,
    to: Option<ObjectId>,
    stat: bool,
    patch: bool,
) -> Step {
    let to_kind = api::target_of(to);
    if patch {
        Step::Ask(Action::DiffPatch { from, to }, State::DiffPatch { to_kind })
    } else if stat {
        Step::Ask(Action::DiffPatch { from, to }, State::DiffStat { to_kind })
    } else {
        Step::Ask(Action::Diff { from, to }, State::Diff { to_kind })
    }
}

/// What to ask for a diff once its old side is resolved.
pub open spec fn diff_to_step(
    from: Option<ObjectId>,
    to: Option<String>,
    stat: bool,
    patch: bool,
) -> Step {
    match to {
        Some(prefix) => Step::Ask(Action::Resolve(prefix), State::DiffTo { from, stat, patch }),
        None => diff_step(from, None, stat, patch),
    }
}

/// What to ask first; the description of the API needs no engine.
pub open spec fn first_step(req: Request) -> Step
    recommends
        !(req is Help),
{
    match req {
        Request::Status => Step::Ask(Action::Status, State::Status),
        Request::Snapshot => Step::Ask(Action::Snapshot, State::Snapshot),
        Request::NamedCut { message, author_name, author_email } => Step::Ask(
            Action::NamedCut { message, author_name, author_email },
            State::NamedCut,
        ),
        Request::Log => Step::Ask(Action::Log, State::Log),
        Request::OpLog => Step::Ask(Action::OpLog, State::OpLog),
        Request::Diff { from, to, stat, patch } => match from {
            Some(prefix) => Step::Ask(Action::Resolve(prefix), State::DiffFrom { to, stat, patch }),
            None => diff_to_step(None, to, stat, patch),
        },
        Request::Restore { target } => Step::Ask(Action::Resolve(target), State::RestoreTarget),
        Request::Undo => Step::Ask(Action::Undo, State::Undone),
        Request::Cat { id } => Step::Ask(Action::Resolve(id), State::CatId),
        Request::Ls { tree } => match tree {
            Some(prefix) => Step::Ask(Action::Resolve(prefix), State::LsTree),
            None => Step::Ask(Action::LiveTree, State::LsTree),
        },
        Request::Help => arbitrary(),
        Request::Current => Step::Ask(Action::CurrentOp, State::CurrentOp),
        Request::Cuts => Step::Ask(Action::AllCuts, State::Cuts),
        Request::Claims => Step::Ask(Action::Claims, State::Claims),
        Request::Claim { path, holder, note } => Step::Ask(
            Action::Claims,
            State::ClaimBefore { path, holder, note },
        ),
        Request::Release { path, holder } => Step::Ask(
            Action::Release { path, holder },
            State::Released,
        ),
        Request::ScopedCut { paths, message, author_name, author_email, base } => match base {
            Some(prefix) => Step::Ask(
                Action::Resolve(prefix),
                State::ScopedBase { paths, message, author_name, author_email },
            ),
            None => Step::Ask(
                Action::ScopedCut { paths, message, author_name, author_email, base: None },
                State::ScopedCut,
            ),
        },
        Request::Lanes => Step::Ask(Action::Lanes, State::Lanes),
        Request::Admit { cut, lane, reason } => Step::Ask(
            Action::Resolve(cut),
            State::AdmitCut { lane, reason },
        ),
        Request::Backport {
            source,
            target_lane,
            message,
            reason,
            author_name,
            author_email,
            also_admit,
        } => Step::Ask(
            Action::Resolve(source),
            State::BackportSource {
                target_lane,
                message,
                reason,
                author_name,
                author_email,
                also_admit,
            },
        ),
        Request::BackportContinue { author_name, author_email, also_admit } => Step::Ask(
            Action::ContinueBackport { author_name, author_email },
            State::Backport { also_admit, reason: None },
        ),
    }
}

/// Whether a step opens a request.
pub open spec fn opens(req: Request, step: Step) -> bool {
    if req is Help {
        step matches Step::Done(Ok(Response::Help { methods })) && encoding::views(methods@) == schema::schema()
    } else {
        step == first_step(req)
    }
}

/// Asks for a diff of two resolved sides: the file-level summary by default,
/// hunks with `patch`, which wins over the line counts of `stat`.
fn run_diff(from: Option<ObjectId>, to: Option<ObjectId>, stat: bool, patch: bool) -> (r: Step)
    ensures
        r == diff_step(from, to, stat, patch),
{
    let to_kind = DiffTarget::from_to(to);
    if patch {
        Step::Ask(Action::DiffPatch { from, to }, State::DiffPatch { to_kind })
    } else if stat {
        Step::Ask(Action::DiffPatch { from, to }, State::DiffStat { to_kind })
    } else {
        Step::Ask(Action::Diff { from, to }, State::Diff { to_kind })
    }
}

/// Resolves the new side of a diff, where one was given.
fn run_diff_to(from: Option<ObjectId>, to: Option<String>, stat: bool, patch: bool) -> (r: Step)
    ensures
        r == diff_to_step(from, to, stat, patch),
{
    match to {
        Some(prefix) => Step::Ask(Action::Resolve(prefix), State::DiffTo { from, stat, patch }),
        None => run_diff(from, None, stat, patch),
    }
}

/// Opens a request.
pub fn run(req: Request) -> (r: Step)
    ensures
        opens(req, r),
{
    match req {
        Request::Status => Step::Ask(Action::Status, State::Status),
        Request::Snapshot => Step::Ask(Action::Snapshot, State::Snapshot),
        Request::NamedCut { message, author_name, author_email } => Step::Ask(
            Action::NamedCut { message, author_name, author_email },
            State::NamedCut,
        ),
        Request::Log => Step::Ask(Action::Log, State::Log),
        Request::OpLog => Step::Ask(Action::OpLog, State::OpLog),
        Request::Diff { from, to, stat, patch } => match from {
            Some(prefix) => Step::Ask(Action::Resolve(prefix), State::DiffFrom { to, stat, patch }),
            None => run_diff_to(None, to, stat, patch),
        },
        Request::Restore { target } => Step::Ask(Action::Resolve(target), State::RestoreTarget),
        Request::Undo => Step::Ask(Action::Undo, State::Undone),
        Request::Cat { id } => Step::Ask(Action::Resolve(id), State::CatId),
        // Without a tree the live working tree is listed, so that a listing
        // reflects what was added and removed since the last snapshot.
        Request::Ls { tree } => match tree {
            Some(prefix) => Step::Ask(Action::Resolve(prefix), State::LsTree),
            None => Step::Ask(Action::LiveTree, State::LsTree),
        },
        Request::Help => Step::Done(Ok(Response::Help { methods: schema_methods() })),
        Request::Current => Step::Ask(Action::CurrentOp, State::CurrentOp),
        Request::Cuts => Step::Ask(Action::AllCuts, State::Cuts),
        Request::Claims => Step::Ask(Action::Claims, State::Claims),
        Request::Claim { path, holder, note } => Step::Ask(
            Action::Claims,
            State::ClaimBefore { path, holder, note },
        ),
        Request::Release { path, holder } => Step::Ask(
            Action::Release { path, holder },
            State::Released,
        ),
        Request::ScopedCut { paths, message, author_name, author_email, base } => match base {
            Some(prefix) => Step::Ask(
                Action::Resolve(prefix),
                State::ScopedBase { paths, message, author_name, author_email },
            ),
            None => Step::Ask(
                Action::ScopedCut { paths, message, author_name, author_email, base: None },
                State::ScopedCut,
            ),
        },
        Request::Lanes => Step::Ask(Action::Lanes, State::Lanes),
        Request::Admit { cut, lane, reason } => Step::Ask(
            Action::Resolve(cut),
            State::AdmitCut { lane, reason },
        ),
        Request::Backport {
            source,
            target_lane,
            message,
            reason,
            author_name,
            author_email,
            also_admit,
        } => Step::Ask(
            Action::Resolve(source),
            State::BackportSource {
                target_lane,
                message,
                reason,
                author_name,
                author_email,
                also_admit,
            },
        ),
        Request::BackportContinue { author_name, author_email, also_admit } => Step::Ask(
            Action::ContinueBackport { author_name, author_email },
            State::Backport { also_admit, reason: None },
        ),
    }
}

// ── the next steps ───────────────────────────────────────────────────────────

/// The message of a reply that does not answer the question.
pub const UNEXPECTED_REPLY: &'static str = "unexpected reply from the engine";

/// The message of a claim that the log does not show.
pub const CLAIM_NOT_RECORDED: &'static str = "claim was not recorded";

/// How to get back from a restore.
pub const RESTORE_HINT: &'static str =
    "run `tack undo` to return to the pre-restore state (it is itself recorded as an op)";

/// Whether a step ends the request with a corruption error.
pub open spec fn ends_corrupt(step: Step, message: Seq<char>) -> bool {
    step matches Step::Done(Err(Error::Corruption(m))) && m@ == message
}

/// Ends the request with a corruption error.
fn corrupt(message: &str) -> (r: Step)
    ensures
        ends_corrupt(r, message@),
{
    Step::Done(Err(Error::Corruption(message.to_owned())))
}

/// Ends the request with a response.
fn done(response: Response) -> (r: Step)
    ensures
        r == Step::Done(Ok(response)),
{
    Step::Done(Ok(response))
}

/// The response that a step ends the request with, if it does.
pub open spec fn response_of(step: Step) -> Option<Response> {
    match step {
        Step::Done(Ok(response)) => Some(response),
        _ => None,
    }
}

// ── diffs ────────────────────────────────────────────────────────────────────

/// The inserted lines of the patches together.
pub open spec fn total_added(files: Seq<FilePatchV>) -> nat
    decreases files.len(),
{
    if files.len() == 0 {
        0
    } else {
        total_added(files.drop_last()) + files.last().added_lines
    }
}

/// The deleted lines of the patches together.
pub open spec fn total_removed(files: Seq<FilePatchV>) -> nat
    decreases files.len(),
{
    if files.len() == 0 {
        0
    } else {
        total_removed(files.drop_last()) + files.last().removed_lines
    }
}

/// Whether the lines of a line-level diff can be counted in a `usize`.
pub open spec fn countable(reply: Reply) -> bool {
    match reply {
        Reply::Patches(files) => total_added(encoding::views(files@)) <= usize::MAX && total_removed(
            encoding::views(files@),
        ) <= usize::MAX,
        _ => true,
    }
}

proof fn lemma_total_grows(files: Seq<FilePatchV>, n: int)
    requires
        0 <= n <= files.len(),
    ensures
        total_added(files.take(n)) <= total_added(files),
        total_removed(files.take(n)) <= total_removed(files),
    decreases files.len() - n,
{
    if n < files.len() {
        assert(files.take(n + 1).drop_last() =~= files.take(n));
        lemma_total_grows(files, n + 1);
    } else {
        assert(files.take(n) =~= files);
    }
}

/// Whether the lines of a line-level diff can be counted.
pub fn is_countable(reply: &Reply) -> (r: bool)
    ensures
        r == countable(*reply),
{
    let files = match reply {
        Reply::Patches(files) => files,
        _ => return true,
    };
    let ghost all = encoding::views(files@);
    let mut added: usize = 0;
    let mut removed: usize = 0;
    let mut i: usize = 0;
    assert(all.take(0) =~= seq![]);
    while i < files.len()
        invariant
            i <= files@.len(),
            all == encoding::views(files@),
            *reply == Reply::Patches(*files),
            added == total_added(all.take(i as int)),
            removed == total_removed(all.take(i as int)),
        decreases files.len() - i,
    {
        proof {
            assert(all.take(i + 1).drop_last() =~= all.take(i as int));
            assert(all.take(i + 1).last() == files@[i as int]@);
            lemma_total_grows(all, i + 1);
        }
        match (added.checked_add(files[i].added_lines), removed.checked_add(files[i].removed_lines))
        {
            (Some(a), Some(r)) => {
                added = a;
                removed = r;
            },
            _ => return false,
        }
        i += 1;
    }
    assert(all.take(i as int) =~= all);
    true
}

/// Whether a step answers with the line counts of the patches.
pub open spec fn answers_stat(step: Step, patches: Seq<FilePatchV>, kind: DiffTarget) -> bool {
    response_of(step) matches Some(
        Response::DiffStat { files, total_added: added, total_removed: removed, to_kind },
    ) && {
        &&& encoding::views(files@) == patches.map_values(|p: FilePatchV| linediff::stat_of(p))
        &&& added == total_added(patches)
        &&& removed == total_removed(patches)
        &&& to_kind == kind
    }
}

/// Counts the lines of the patches.
fn stat_step(patches: Vec<FilePatch>, to_kind: DiffTarget) -> (r: Step)
    requires
        countable(Reply::Patches(patches)),
    ensures
        answers_stat(r, encoding::views(patches@), to_kind),
{
    let ghost all = encoding::views(patches@);
    let ghost stats = all.map_values(|p: FilePatchV| linediff::stat_of(p));
    let mut files: Vec<FileStat> = Vec::new();
    let mut added: usize = 0;
    let mut removed: usize = 0;
    let mut i: usize = 0;
    proof {
        assert(all.take(0) =~= seq![]);
        assert(encoding::views(files@) =~= stats.take(0));
    }
    while i < patches.len()
        invariant
            i <= patches@.len(),
            all == encoding::views(patches@),
            stats == all.map_values(|p: FilePatchV| linediff::stat_of(p)),
            total_added(all) <= usize::MAX,
            total_removed(all) <= usize::MAX,
            encoding::views(files@) == stats.take(i as int),
            added == total_added(all.take(i as int)),
            removed == total_removed(all.take(i as int)),
        decreases patches.len() - i,
    {
        let ghost was = files@;
        let stat = FileStat::from_patch(&patches[i]);
        proof {
            assert(all.take(i + 1).drop_last() =~= all.take(i as int));
            assert(all.take(i + 1).last() == patches@[i as int]@);
            assert(stat@ == stats[i as int]);
            lemma_total_grows(all, i + 1);
        }
        added = added + stat.added_lines;
        removed = removed + stat.removed_lines;
        files.push(stat);
        proof {
            assert(encoding::views(files@) =~= encoding::views(was).push(stats[i as int]));
            assert(stats.take(i + 1) =~= stats.take(i as int).push(stats[i as int]));
        }
        i += 1;
    }
    assert(all.take(i as int) =~= all);
    assert(stats.take(i as int) =~= stats);
    done(Response::DiffStat { files, total_added: added, total_removed: removed, to_kind })
}

// ── restore and undo ─────────────────────────────────────────────────────────

/// The first of the parents.
pub open spec fn first_parent(op: OpV, r: Option<ObjectId>) -> bool {
    match r {
        Some(id) => op.parents.len() > 0 && id@ == op.parents[0],
        None => op.parents.len() == 0,
    }
}

/// The first parent of an op.
fn parent_of(op: &Op) -> (r: Option<ObjectId>)
    ensures
        first_parent(op.model(), r),
{
    let parents = op.parents();
    assert(encoding::views(parents@) == op.model().parents);
    assert(encoding::views(parents@).len() == parents@.len());
    if parents.len() > 0 {
        assert(encoding::views(parents@)[0] == parents@[0]@);
        Some(parents[0])
    } else {
        None
    }
}

/// The hex digits of an id, if there is one.
fn optional_hex(id: Option<ObjectId>) -> (r: Option<String>)
    ensures
        api::names_optional(r, id),
{
    match id {
        Some(id) => Some(id.to_hex()),
        None => None,
    }
}

/// Whether a step answers a restore.
pub open spec fn answers_restore(
    step: Step,
    new_op: ObjectId,
    previous: Option<ObjectId>,
    copy: SnapshotV,
    cut: Option<Snapshot>,
) -> bool {
    response_of(step) matches Some(
        Response::Restored {
            op,
            op_short,
            working_copy,
            working_copy_short,
            restored_cut,
            previous_op,
            hint,
        },
    ) && {
        &&& api::names_id(op, op_short, new_op@)
        &&& api::names_id(working_copy, working_copy_short, api::snapshot_id(copy))
        &&& api::is_optional_cut(restored_cut, cut)
        &&& api::names_optional(previous_op, previous)
        &&& hint@ == RESTORE_HINT@
    }
}

/// Answers a restore.
fn restored_response(
    new_op: ObjectId,
    previous_op: Option<ObjectId>,
    copy: &Snapshot,
    restored_cut: Option<CutSummary>,
    Ghost(cut): Ghost<Option<Snapshot>>,
) -> (r: Step)
    requires
        api::is_optional_cut(restored_cut, cut),
    ensures
        answers_restore(r, new_op, previous_op, copy@, cut),
{
    let id = copy.id();
    done(
        Response::Restored {
            op: new_op.to_hex(),
            op_short: new_op.short(),
            working_copy: id.to_hex(),
            working_copy_short: id.short(),
            restored_cut,
            previous_op: optional_hex(previous_op),
            hint: RESTORE_HINT.to_owned(),
        },
    )
}

/// Whether a step goes on from the working copy of a restore: a named cut is
/// reported itself, anything else by the cut it sits on.
pub open spec fn follows_restore(
    step: Step,
    new_op: ObjectId,
    previous_op: Option<ObjectId>,
    copy: Snapshot,
) -> bool {
    if copy@.message.len() == 0 {
        step == Step::Ask(Action::BaseCut, State::RestoredBase { new_op, previous_op, copy })
    } else {
        answers_restore(step, new_op, previous_op, copy@, Some(copy))
    }
}

/// Goes on from the working copy of a restore.
fn restored_copy(new_op: ObjectId, previous_op: Option<ObjectId>, copy: Snapshot) -> (r: Step)
    ensures
        follows_restore(r, new_op, previous_op, copy),
{
    if same_text(copy.message(), "") {
        proof {
            reveal_strlit("");
        }
        Step::Ask(Action::BaseCut, State::RestoredBase { new_op, previous_op, copy })
    } else {
        proof {
            reveal_strlit("");
            if copy@.message.len() == 0 {
                assert(copy@.message =~= ""@);
            }
        }
        let summary = CutSummary::from_snapshot(&copy);
        restored_response(new_op, previous_op, &copy, Some(summary), Ghost(Some(copy)))
    }
}

/// Whether a step answers an undo.
pub open spec fn answers_undo(
    step: Step,
    new_op: ObjectId,
    undone: Option<ObjectId>,
    copy: SnapshotV,
) -> bool {
    response_of(step) matches Some(
        Response::Undone { op, op_short, undone_op, working_copy, working_copy_short },
    ) && {
        &&& api::names_id(op, op_short, new_op@)
        &&& api::names_optional(undone_op, undone)
        &&& api::names_id(working_copy, working_copy_short, api::snapshot_id(copy))
    }
}

/// Answers an undo.
fn undone_response(new_op: ObjectId, undone_op: Option<ObjectId>, copy: &Snapshot) -> (r: Step)
    ensures
        answers_undo(r, new_op, undone_op, copy@),
{
    let id = copy.id();
    done(
        Response::Undone {
            op: new_op.to_hex(),
            op_short: new_op.short(),
            undone_op: optional_hex(undone_op),
            working_copy: id.to_hex(),
            working_copy_short: id.short(),
        },
    )
}

// ── the current state ────────────────────────────────────────────────────────

/// Whether an op is a restore: its command says so. An undo of a restore is
/// none.
pub open spec fn is_restore(op: OpV) -> bool {
    op.metadata.command.len() > 1 && op.metadata.command[1] == "restore"@
}

/// Whether the op is a restore.
fn from_restore(op: &Op) -> (r: bool)
    ensures
        r == is_restore(op.model()),
{
    let command = op.metadata().command();
    assert(text::texts(command@) == op.model().metadata.command);
    assert(text::texts(command@).len() == command@.len());
    if command.len() > 1 {
        assert(text::texts(command@)[1] == command@[1]@);
        same_text(command[1].as_str(), "restore")
    } else {
        false
    }
}

/// Whether the data describe where the working copy is.
pub open spec fn is_current_data(
    data: CurrentData,
    op: OpV,
    view: ViewV,
    copy: SnapshotV,
    base: Option<Snapshot>,
    clean: bool,
) -> bool {
    &&& api::names_id(data.op, data.op_short, api::op_id(op))
    &&& data.operation@ == op.description
    &&& data.from_restore == is_restore(op)
    &&& data.view@ == hash::hex_text(api::view_id(view))
    &&& api::names_id(data.working_copy, data.working_copy_short, api::snapshot_id(copy))
    &&& api::names_id(data.change_id, data.change_id_short, copy.change_id)
    &&& api::is_optional_cut(data.base_cut, base)
    &&& api::name_ids(data.heads@, view.heads)
    &&& data.clean == clean
}

/// Whether a step answers with where the working copy is.
pub open spec fn answers_current(
    step: Step,
    op: OpV,
    view: ViewV,
    copy: SnapshotV,
    base: Option<Snapshot>,
    clean: bool,
) -> bool {
    response_of(step) matches Some(Response::Current { data }) && is_current_data(
        data,
        op,
        view,
        copy,
        base,
        clean,
    )
}

/// Describes where the working copy is.
fn current_data(
    op: &Op,
    view: &crate::object::View,
    copy: &Snapshot,
    base: &Option<Snapshot>,
    clean: bool,
) -> (r: CurrentData)
    ensures
        is_current_data(r, op.model(), view@, copy@, *base, clean),
{
    let op_id = op.id();
    let id = copy.id();
    CurrentData {
        op: op_id.to_hex(),
        op_short: op_id.short(),
        operation: op.description().to_owned(),
        from_restore: from_restore(op),
        view: view.id().to_hex(),
        working_copy: id.to_hex(),
        working_copy_short: id.short(),
        change_id: copy.change_id().to_hex(),
        change_id_short: copy.change_id().short(),
        base_cut: optional_cut(base),
        heads: ids_to_strings(view.heads()),
        clean,
    }
}

// ── claims ───────────────────────────────────────────────────────────────────

/// The first claim with a key.
pub open spec fn claim_with(claims: Seq<ClaimV>, key: ClaimKey) -> Option<ClaimV>
    decreases claims.len(),
{
    if claims.len() == 0 {
        None
    } else if claims::key_of(claims[0]) == key {
        Some(claims[0])
    } else {
        claim_with(claims.skip(1), key)
    }
}

/// The key that a claim of `path` by `holder` is recorded under.
pub open spec fn recorded_key(path: Seq<char>, holder: Seq<char>) -> ClaimKey {
    (ignore::normal_path(path), text::trimmed(holder))
}

/// A copy of a claim.
fn copy_claim(claim: &Claim) -> (r: Claim)
    ensures
        r@ == claim@,
{
    Claim {
        path: claim.path.clone(),
        holder: claim.holder.clone(),
        note: claim.note.clone(),
        timestamp: claim.timestamp,
    }
}

/// Whether a step goes on from the claims before a claim: it records the claim
/// and remembers the claims of others that it overlaps.
pub open spec fn follows_claims(
    step: Step,
    claims: Seq<ClaimV>,
    path: String,
    holder: String,
    note: String,
) -> bool {
    step matches Step::Ask(
        Action::Claim { path: p, holder: h, note: n },
        State::ClaimMade { path: sp, holder: sh, conflicts: c },
    ) && {
        &&& p@ == path@
        &&& h@ == holder@
        &&& n == note
        &&& sp == path
        &&& sh == holder
        &&& encoding::views(c@) == claims.filter(claims::in_conflict(path@, holder@))
    }
}

/// Goes on from the claims before a claim.
fn claim_before(existing: Vec<Claim>, path: String, holder: String, note: String) -> (r: Step)
    ensures
        follows_claims(r, encoding::views(existing@), path, holder, note),
{
    let found = conflicts(existing.as_slice(), path.as_str(), holder.as_str());
    let ghost all = found@.map_values(|c: &Claim| c@);
    let mut out: Vec<Claim> = Vec::new();
    let mut i: usize = 0;
    assert(encoding::views(out@) =~= all.take(0));
    while i < found.len()
        invariant
            i <= found@.len(),
            all == found@.map_values(|c: &Claim| c@),
            encoding::views(out@) == all.take(i as int),
        decreases found.len() - i,
    {
        let ghost was = out@;
        out.push(copy_claim(found[i]));
        proof {
            assert(encoding::views(out@) =~= encoding::views(was).push(all[i as int]));
            assert(all.take(i + 1) =~= all.take(i as int).push(all[i as int]));
        }
        i += 1;
    }
    assert(all.take(i as int) =~= all);
    Step::Ask(
        Action::Claim { path: path.clone(), holder: holder.clone(), note },
        State::ClaimMade { path, holder, conflicts: out },
    )
}

/// Whether a step answers a claim, or fails where the log does not show it.
pub open spec fn answers_claim(
    step: Step,
    claims: Seq<ClaimV>,
    path: Seq<char>,
    holder: Seq<char>,
    overlapping: Vec<Claim>,
    id: ObjectId,
) -> bool {
    match claim_with(claims, recorded_key(path, holder)) {
        Some(recorded) => response_of(step) matches Some(
            Response::Claimed { claim, conflicts, op, op_short },
        ) && claim@ == recorded && conflicts == overlapping && api::names_id(op, op_short, id@),
        None => ends_corrupt(step, CLAIM_NOT_RECORDED@),
    }
}

/// Answers a claim with what was recorded: the path normalised, the holder
/// trimmed.
fn claim_after(
    claims: Vec<Claim>,
    path: String,
    holder: String,
    conflicts: Vec<Claim>,
    op: ObjectId,
) -> (r: Step)
    ensures
        answers_claim(r, encoding::views(claims@), path@, holder@, conflicts, op),
{
    let norm_path = normalize_repo_path(path.as_str());
    let trimmed_holder = trim(holder.as_str());
    let ghost all = encoding::views(claims@);
    let ghost key = recorded_key(path@, holder@);
    let mut i: usize = 0;
    assert(all.skip(0) =~= all);
    while i < claims.len()
        invariant
            i <= claims@.len(),
            all == encoding::views(claims@),
            key == recorded_key(path@, holder@),
            norm_path@ == key.0,
            trimmed_holder@ == key.1,
            claim_with(all, key) == claim_with(all.skip(i as int), key),
        decreases claims.len() - i,
    {
        assert(all.skip(i as int)[0] == claims@[i as int]@);
        assert(all.skip(i as int).skip(1) =~= all.skip(i + 1));
        if same_text(claims[i].path.as_str(), norm_path.as_str()) && same_text(
            claims[i].holder.as_str(),
            trimmed_holder.as_str(),
        ) {
            let claim = copy_claim(&claims[i]);
            return done(
                Response::Claimed { claim, conflicts, op: op.to_hex(), op_short: op.short() },
            );
        }
        i += 1;
    }
    assert(all.skip(i as int).len() == 0);
    corrupt(CLAIM_NOT_RECORDED)
}

// ── backports ────────────────────────────────────────────────────────────────

/// Whether a step goes on from a backport: a cut that was created is admitted,
/// where that was asked for; otherwise the backport is answered.
pub open spec fn follows_backport(
    step: Step,
    outcome: BackportOutcome,
    also_admit: bool,
    reason: Option<String>,
) -> bool {
    match outcome {
        BackportOutcome::Created(record) if also_admit => step matches Step::Ask(
            Action::Admit { cut, lane, reason: why },
            State::BackportAdmitted { outcome: kept },
        ) && {
            &&& cut@ == record.result_cut@
            &&& lane@ == record.provenance.target_lane@
            &&& why@ == (if reason is Some {
                reason->Some_0@
            } else {
                record.provenance.reason@
            })
            &&& kept == outcome
        },
        _ => response_of(step) matches Some(Response::Backport { data }) && api::is_backport_data(
            data,
            outcome,
            None,
        ),
    }
}

/// Goes on from a backport.
fn admit_result(outcome: BackportOutcome, also_admit: bool, reason: Option<String>) -> (r: Step)
    ensures
        follows_backport(r, outcome, also_admit, reason),
{
    if also_admit {
        let wanted = match &outcome {
            BackportOutcome::Created(record) => Some(
                (
                    record.result_cut,
                    record.provenance.target_lane.clone(),
                    match reason {
                        Some(reason) => reason,
                        None => record.provenance.reason.clone(),
                    },
                ),
            ),
            _ => None,
        };
        if let Some((cut, lane, reason)) = wanted {
            return Step::Ask(
                Action::Admit { cut, lane, reason },
                State::BackportAdmitted { outcome },
            );
        }
    }
    done(Response::Backport { data: backport_data(&outcome, None) })
}

/// Whether a step answers a backport whose cut was admitted.
pub open spec fn answers_admitted_backport(
    step: Step,
    outcome: BackportOutcome,
    admission: crate::engine::AdmissionOutcome,
) -> bool {
    response_of(step) matches Some(Response::Backport { data }) && data.admission matches Some(a)
        && api::is_admission_data(a, admission) && api::is_backport_data(
        data,
        outcome,
        Some(a),
    )
}

// ── resuming ─────────────────────────────────────────────────────────────────

/// What the engine was asked in a state, and its reply, lead to in one step.
/// An error of the engine ends the request, and so does a reply that does not
/// answer the question.
pub open spec fn follows(state: State, reply: Reply, step: Step) -> bool {
    match (state, reply) {
        (_, Reply::Failed(error)) => step == Step::Done(Err(error)),
        (State::Status, Reply::Status(status)) => response_of(step) matches Some(
            Response::Status { data },
        ) && api::is_status_data(data, status),
        (State::Snapshot, Reply::Id(id)) => response_of(step) matches Some(
            Response::Snapshot { snapshot, snapshot_short },
        ) && api::names_id(snapshot, snapshot_short, id@),
        (State::NamedCut, Reply::Id(id)) => response_of(step) matches Some(
            Response::NamedCut { cut, cut_short },
        ) && api::names_id(cut, cut_short, id@),
        (State::Log, Reply::Snapshots(snaps)) => response_of(step) matches Some(
            Response::Log { cuts },
        ) && api::are_cut_summaries(cuts@, snaps@),
        (State::OpLog, Reply::Ops(list)) => response_of(step) matches Some(
            Response::OpLog { ops },
        ) && api::are_op_summaries(ops@, list@),
        (State::DiffFrom { to, stat, patch }, Reply::Id(id)) => step == diff_to_step(
            Some(id),
            to,
            stat,
            patch,
        ),
        (State::DiffTo { from, stat, patch }, Reply::Id(id)) => step == diff_step(
            from,
            Some(id),
            stat,
            patch,
        ),
        (State::Diff { to_kind: kind }, Reply::Diff(diff)) => response_of(step) matches Some(
            Response::Diff { data, to_kind },
        ) && api::is_diff_data(data, diff) && to_kind == kind,
        (State::DiffStat { to_kind }, Reply::Patches(patches)) => answers_stat(
            step,
            encoding::views(patches@),
            to_kind,
        ),
        (State::DiffPatch { to_kind }, Reply::Patches(files)) => step == Step::Done(
            Ok(Response::DiffPatch { files, to_kind }),
        ),
        (State::RestoreTarget, Reply::Id(id)) => step == Step::Ask(
            Action::Restore(id),
            State::Restored,
        ),
        (State::Restored, Reply::Id(new_op)) => step == Step::Ask(
            Action::GetOp(new_op),
            State::RestoredOp { new_op },
        ),
        (State::RestoredOp { new_op: id }, Reply::Op(op)) => step matches Step::Ask(
            Action::GetView(view),
            State::RestoredView { new_op, previous_op },
        ) && view@ == op.model().view && new_op == id && first_parent(op.model(), previous_op),
        (State::RestoredView { new_op, previous_op }, Reply::View(view)) => step matches Step::Ask(
            Action::GetSnapshot(copy),
            next,
        ) && copy@ == view@.working_copy && next == (State::RestoredCopy { new_op, previous_op }),
        (State::RestoredCopy { new_op, previous_op }, Reply::Snapshot(copy)) => follows_restore(
            step,
            new_op,
            previous_op,
            copy,
        ),
        (State::RestoredBase { new_op, previous_op, copy }, Reply::Cut(cut)) => answers_restore(
            step,
            new_op,
            previous_op,
            copy@,
            cut,
        ),
        (State::Undone, Reply::Id(new_op)) => step == Step::Ask(
            Action::GetOp(new_op),
            State::UndoneOp { new_op },
        ),
        (State::UndoneOp { new_op: id }, Reply::Op(op)) => step matches Step::Ask(
            Action::GetView(view),
            State::UndoneView { new_op, undone_op },
        ) && view@ == op.model().view && new_op == id && first_parent(op.model(), undone_op),
        (State::UndoneView { new_op, undone_op }, Reply::View(view)) => step matches Step::Ask(
            Action::GetSnapshot(copy),
            next,
        ) && copy@ == view@.working_copy && next == (State::UndoneCopy { new_op, undone_op }),
        (State::UndoneCopy { new_op, undone_op }, Reply::Snapshot(copy)) => answers_undo(
            step,
            new_op,
            undone_op,
            copy@,
        ),
        (State::CatId, Reply::Id(id)) => step == Step::Ask(
            Action::Cat(id),
            State::CatObject { id },
        ),
        (State::CatObject { id }, Reply::Object { tag, size }) => response_of(step) matches Some(
            Response::Cat { object },
        ) && api::is_object_info(object, id@, tag, size),
        (State::LsTree, Reply::Id(id)) => step == Step::Ask(
            Action::ListTree(id),
            State::LsEntries,
        ),
        (State::LsEntries, Reply::Entries(list)) => response_of(step) matches Some(
            Response::Ls { entries },
        ) && api::are_entry_data(entries@, list@),
        (State::CurrentOp, Reply::Op(op)) => step == Step::Ask(
            Action::CurrentView,
            State::CurrentView { op },
        ),
        (State::CurrentView { op }, Reply::View(view)) => step == Step::Ask(
            Action::WorkingCopy,
            State::CurrentCopy { op, view },
        ),
        (State::CurrentCopy { op, view }, Reply::Snapshot(copy)) => step == Step::Ask(
            Action::BaseCut,
            State::CurrentBase { op, view, copy },
        ),
        (State::CurrentBase { op, view, copy }, Reply::Cut(base)) => step == Step::Ask(
            Action::Status,
            State::CurrentStatus { op, view, copy, base },
        ),
        (State::CurrentStatus { op, view, copy, base }, Reply::Status(status)) => answers_current(
            step,
            op.model(),
            view@,
            copy@,
            base,
            status.clean(),
        ),
        (State::Cuts, Reply::Snapshots(snaps)) => response_of(step) matches Some(
            Response::Cuts { cuts },
        ) && api::are_cut_summaries(cuts@, snaps@),
        (State::Claims, Reply::Claims(claims)) => step == Step::Done(
            Ok(Response::Claims { claims }),
        ),
        (State::ClaimBefore { path, holder, note }, Reply::Claims(claims)) => follows_claims(
            step,
            encoding::views(claims@),
            path,
            holder,
            note,
        ),
        (State::ClaimMade { path, holder, conflicts }, Reply::Id(op)) => step == Step::Ask(
            Action::Claims,
            State::ClaimAfter { path, holder, conflicts, op },
        ),
        (State::ClaimAfter { path, holder, conflicts, op }, Reply::Claims(claims)) => answers_claim(
            step,
            encoding::views(claims@),
            path@,
            holder@,
            conflicts,
            op,
        ),
        (State::Released, Reply::Id(_)) => step == Step::Ask(Action::Claims, State::Claims),
        (State::ScopedBase { paths, message, author_name, author_email }, Reply::Id(id)) => step
            == Step::Ask(
            Action::ScopedCut { paths, message, author_name, author_email, base: Some(id) },
            State::ScopedCut,
        ),
        (State::ScopedCut, Reply::Scoped(outcome)) => response_of(step) matches Some(
            Response::ScopedCut { data },
        ) && api::is_scoped_data(data, outcome),
        (State::Lanes, Reply::Lanes(list)) => response_of(step) matches Some(
            Response::Lanes { lanes },
        ) && api::are_lane_data(lanes@, list@),
        (State::AdmitCut { lane, reason }, Reply::Id(cut)) => step == Step::Ask(
            Action::Admit { cut, lane, reason },
            State::Admitted,
        ),
        (State::Admitted, Reply::Admission(outcome)) => response_of(step) matches Some(
            Response::Admitted { data },
        ) && api::is_admission_data(data, outcome),
        (
            State::BackportSource {
                target_lane,
                message,
                reason,
                author_name,
                author_email,
                also_admit: wanted,
            },
            Reply::Id(source),
        ) => step matches Step::Ask(
            asked,
            State::Backport { also_admit, reason: Some(kept) },
        ) && also_admit == wanted && kept@ == reason@ && asked == (Action::Backport {
            source,
            target_lane,
            message,
            reason,
            author_name,
            author_email,
        }),
        (State::Backport { also_admit, reason }, Reply::Backport(outcome)) => follows_backport(
            step,
            outcome,
            also_admit,
            reason,
        ),
        (State::BackportAdmitted { outcome }, Reply::Admission(admission)) =>
            answers_admitted_backport(step, outcome, admission),
        _ => ends_corrupt(step, UNEXPECTED_REPLY@),
    }
}

/// Continues a request with the engine's reply.
pub fn resume(state: State, reply: Reply) -> (r: Step)
    requires
        countable(reply),
    ensures
        follows(state, reply, r),
{
    match (state, reply) {
        (_, Reply::Failed(error)) => Step::Done(Err(error)),
        (State::Status, Reply::Status(status)) => done(
            Response::Status { data: StatusData::from_status(&status) },
        ),
        (State::Snapshot, Reply::Id(id)) => done(
            Response::Snapshot { snapshot: id.to_hex(), snapshot_short: id.short() },
        ),
        (State::NamedCut, Reply::Id(id)) => done(
            Response::NamedCut { cut: id.to_hex(), cut_short: id.short() },
        ),
        (State::Log, Reply::Snapshots(snaps)) => done(
            Response::Log { cuts: cut_summaries(snaps.as_slice()) },
        ),
        (State::OpLog, Reply::Ops(ops)) => done(
            Response::OpLog { ops: op_summaries(ops.as_slice()) },
        ),
        (State::DiffFrom { to, stat, patch }, Reply::Id(id)) => run_diff_to(
            Some(id),
            to,
            stat,
            patch,
        ),
        (State::DiffTo { from, stat, patch }, Reply::Id(id)) => run_diff(
            from,
            Some(id),
            stat,
            patch,
        ),
        (State::Diff { to_kind }, Reply::Diff(diff)) => done(
            Response::Diff { data: DiffData::from_tree_diff(&diff), to_kind },
        ),
        (State::DiffStat { to_kind }, Reply::Patches(patches)) => stat_step(patches, to_kind),
        (State::DiffPatch { to_kind }, Reply::Patches(files)) => done(
            Response::DiffPatch { files, to_kind },
        ),
        (State::RestoreTarget, Reply::Id(id)) => Step::Ask(Action::Restore(id), State::Restored),
        (State::Restored, Reply::Id(new_op)) => Step::Ask(
            Action::GetOp(new_op),
            State::RestoredOp { new_op },
        ),
        (State::RestoredOp { new_op }, Reply::Op(op)) => Step::Ask(
            Action::GetView(op.view()),
            State::RestoredView { new_op, previous_op: parent_of(&op) },
        ),
        (State::RestoredView { new_op, previous_op }, Reply::View(view)) => Step::Ask(
            Action::GetSnapshot(view.working_copy()),
            State::RestoredCopy { new_op, previous_op },
        ),
        (State::RestoredCopy { new_op, previous_op }, Reply::Snapshot(copy)) => restored_copy(
            new_op,
            previous_op,
            copy,
        ),
        (State::RestoredBase { new_op, previous_op, copy }, Reply::Cut(cut)) => restored_response(
            new_op,
            previous_op,
            &copy,
            optional_cut(&cut),
            Ghost(cut),
        ),
        (State::Undone, Reply::Id(new_op)) => Step::Ask(
            Action::GetOp(new_op),
            State::UndoneOp { new_op },
        ),
        (State::UndoneOp { new_op }, Reply::Op(op)) => Step::Ask(
            Action::GetView(op.view()),
            State::UndoneView { new_op, undone_op: parent_of(&op) },
        ),
        (State::UndoneView { new_op, undone_op }, Reply::View(view)) => Step::Ask(
            Action::GetSnapshot(view.working_copy()),
            State::UndoneCopy { new_op, undone_op },
        ),
        (State::UndoneCopy { new_op, undone_op }, Reply::Snapshot(copy)) => undone_response(
            new_op,
            undone_op,
            &copy,
        ),
        (State::CatId, Reply::Id(id)) => Step::Ask(Action::Cat(id), State::CatObject { id }),
        (State::CatObject { id }, Reply::Object { tag, size }) => done(
            Response::Cat {
                object: ObjectInfo {
                    id: id.to_hex(),
                    id_short: id.short(),
                    kind: tag_name(tag),
                    size,
                },
            },
        ),
        (State::LsTree, Reply::Id(id)) => Step::Ask(Action::ListTree(id), State::LsEntries),
        (State::LsEntries, Reply::Entries(entries)) => done(
            Response::Ls { entries: entry_data(entries.as_slice()) },
        ),
        (State::CurrentOp, Reply::Op(op)) => Step::Ask(
            Action::CurrentView,
            State::CurrentView { op },
        ),
        (State::CurrentView { op }, Reply::View(view)) => Step::Ask(
            Action::WorkingCopy,
            State::CurrentCopy { op, view },
        ),
        (State::CurrentCopy { op, view }, Reply::Snapshot(copy)) => Step::Ask(
            Action::BaseCut,
            State::CurrentBase { op, view, copy },
        ),
        (State::CurrentBase { op, view, copy }, Reply::Cut(base)) => Step::Ask(
            Action::Status,
            State::CurrentStatus { op, view, copy, base },
        ),
        (State::CurrentStatus { op, view, copy, base }, Reply::Status(status)) => done(
            Response::Current { data: current_data(&op, &view, &copy, &base, status.is_clean()) },
        ),
        (State::Cuts, Reply::Snapshots(snaps)) => done(
            Response::Cuts { cuts: cut_summaries(snaps.as_slice()) },
        ),
        (State::Claims, Reply::Claims(claims)) => done(Response::Claims { claims }),
        (State::ClaimBefore { path, holder, note }, Reply::Claims(claims)) => claim_before(
            claims,
            path,
            holder,
            note,
        ),
        (State::ClaimMade { path, holder, conflicts }, Reply::Id(op)) => Step::Ask(
            Action::Claims,
            State::ClaimAfter { path, holder, conflicts, op },
        ),
        (State::ClaimAfter { path, holder, conflicts, op }, Reply::Claims(claims)) => claim_after(
            claims,
            path,
            holder,
            conflicts,
            op,
        ),
        (State::Released, Reply::Id(_)) => Step::Ask(Action::Claims, State::Claims),
        (State::ScopedBase { paths, message, author_name, author_email }, Reply::Id(id)) =>
            Step::Ask(
            Action::ScopedCut { paths, message, author_name, author_email, base: Some(id) },
            State::ScopedCut,
        ),
        (State::ScopedCut, Reply::Scoped(outcome)) => done(
            Response::ScopedCut { data: scoped_cut_data(outcome) },
        ),
        (State::Lanes, Reply::Lanes(lanes)) => done(
            Response::Lanes { lanes: lanes_data(lanes.as_slice()) },
        ),
        (State::AdmitCut { lane, reason }, Reply::Id(cut)) => Step::Ask(
            Action::Admit { cut, lane, reason },
            State::Admitted,
        ),
        (State::Admitted, Reply::Admission(outcome)) => done(
            Response::Admitted { data: admission_data(&outcome) },
        ),
        (
            State::BackportSource {
                target_lane,
                message,
                reason,
                author_name,
                author_email,
                also_admit,
            },
            Reply::Id(source),
        ) => {
            let kept = reason.clone();
            Step::Ask(
                Action::Backport {
                    source,
                    target_lane,
                    message,
                    reason,
                    author_name,
                    author_email,
                },
                State::Backport { also_admit, reason: Some(kept) },
            )
        },
        (State::Backport { also_admit, reason }, Reply::Backport(outcome)) => admit_result(
            outcome,
            also_admit,
            reason,
        ),
        (State::BackportAdmitted { outcome }, Reply::Admission(admission)) => {
            let admitted = admission_data(&admission);
            done(Response::Backport { data: backport_data(&outcome, Some(admitted)) })
        },
        _ => corrupt(UNEXPECTED_REPLY),
    }
}

/// Whether a response is that of a request that is done.
pub open spec fn answers(r: Response, outcome: Result<Response, Error>) -> bool {
    match outcome {
        Ok(response) => r == response,
        Err(e) => r matches Response::Error { message } && describes(message@, e@),
    }
}

/// The response of a request that is done: an error becomes an error response.
pub fn handle(outcome: Result<Response, Error>) -> (r: Response)
    ensures
        answers(r, outcome),
{
    match outcome {
        Ok(response) => response,
        Err(e) => Response::error(e.message().as_str()),
    }
}

/// Whether a line holds a request.
pub open spec fn holds_request(line: Seq<char>, r: Option<String>) -> bool {
    match r {
        Some(request) => request@ == text::trimmed(line) && request@.len() > 0,
        None => text::trimmed(line).len() == 0,
    }
}

/// The request that a line of input holds, if it is not blank.
pub fn request_line(line: &str) -> (r: Option<String>)
    ensures
        holds_request(line@, r),
{
    let trimmed = trim(line);
    if trimmed.as_str().is_empty() {
        None
    } else {
        Some(trimmed)
    }
}

/// The response to a line that holds no request.
pub fn invalid_request(reason: &str) -> (r: Response)
    ensures
        r matches Response::Error { message } && message@ == "invalid request: "@ + reason@,
{
    Response::error(text2("invalid request: ", reason).as_str())
}

/// Whether a message is that of an error. Of the message of an I/O error only
/// the beginning is fixed.
pub open spec fn describes(message: Seq<char>, e: crate::error::ErrorV) -> bool {
    match e {
        crate::error::ErrorV::Io => text::begins_with(message, error::error_text(e)),
        _ => message == error::error_text(e),
    }
}

// ── laws ─────────────────────────────────────────────────────────────────────

/// The method tag of a request.
pub open spec fn method_of(req: Request) -> Seq<char> {
    match req {
        Request::Status => "status"@,
        Request::Snapshot => "snapshot"@,
        Request::NamedCut { .. } => "named_cut"@,
        Request::Log => "log"@,
        Request::OpLog => "op_log"@,
        Request::Diff { .. } => "diff"@,
        Request::Restore { .. } => "restore"@,
        Request::Undo => "undo"@,
        Request::Cat { .. } => "cat"@,
        Request::Ls { .. } => "ls"@,
        Request::Help => "help"@,
        Request::Current => "current"@,
        Request::Cuts => "cuts"@,
        Request::Claims => "claims"@,
        Request::Claim { .. } => "claim"@,
        Request::Release { .. } => "release"@,
        Request::ScopedCut { .. } => "scoped_cut"@,
        Request::Lanes => "lanes"@,
        Request::Admit { .. } => "admit"@,
        Request::Backport { .. } => "backport"@,
        Request::BackportContinue { .. } => "backport_continue"@,
    }
}

/// The method tag of a request.
pub fn method_name(req: &Request) -> (r: &'static str)
    ensures
        r@ == method_of(*req),
{
    match req {
        Request::Status => "status",
        Request::Snapshot => "snapshot",
        Request::NamedCut { .. } => "named_cut",
        Request::Log => "log",
        Request::OpLog => "op_log",
        Request::Diff { .. } => "diff",
        Request::Restore { .. } => "restore",
        Request::Undo => "undo",
        Request::Cat { .. } => "cat",
        Request::Ls { .. } => "ls",
        Request::Help => "help",
        Request::Current => "current",
        Request::Cuts => "cuts",
        Request::Claims => "claims",
        Request::Claim { .. } => "claim",
        Request::Release { .. } => "release",
        Request::ScopedCut { .. } => "scoped_cut",
        Request::Lanes => "lanes",
        Request::Admit { .. } => "admit",
        Request::Backport { .. } => "backport",
        Request::BackportContinue { .. } => "backport_continue",
    }
}

/// Where the description of a request's method stands in the schema.
pub open spec fn place_of(req: Request) -> int {
    match req {
        Request::Status => 0,
        Request::Snapshot => 1,
        Request::NamedCut { .. } => 2,
        Request::Log => 3,
        Request::OpLog => 4,
        Request::Diff { .. } => 5,
        Request::Restore { .. } => 6,
        Request::Undo => 7,
        Request::Cat { .. } => 8,
        Request::Ls { .. } => 9,
        Request::Help => 10,
        Request::Current => 11,
        Request::Cuts => 12,
        Request::Claims => 13,
        Request::Claim { .. } => 14,
        Request::Release { .. } => 15,
        Request::ScopedCut { .. } => 16,
        Request::Lanes => 17,
        Request::Admit { .. } => 18,
        Request::Backport { .. } => 19,
        Request::BackportContinue { .. } => 20,
    }
}

/// Every request is described: the schema holds its method.
pub proof fn lemma_every_request_is_described(req: Request)
    ensures
        0 <= place_of(req) < schema::schema().len(),
        schema::schema()[place_of(req)].method == method_of(req),
{
}

/// How many times the engine is asked at most from a state on.
pub open spec fn questions_left(state: State) -> nat {
    match state {
        State::DiffFrom { .. } => 3,
        State::DiffTo { .. } => 2,
        State::RestoreTarget => 6,
        State::Restored => 5,
        State::RestoredOp { .. } => 4,
        State::RestoredView { .. } => 3,
        State::RestoredCopy { .. } => 2,
        State::Undone => 4,
        State::UndoneOp { .. } => 3,
        State::UndoneView { .. } => 2,
        State::CatId => 2,
        State::LsTree => 2,
        State::CurrentOp => 5,
        State::CurrentView { .. } => 4,
        State::CurrentCopy { .. } => 3,
        State::CurrentBase { .. } => 2,
        State::ClaimBefore { .. } => 3,
        State::ClaimMade { .. } => 2,
        State::Released => 2,
        State::ScopedBase { .. } => 2,
        State::AdmitCut { .. } => 2,
        State::BackportSource { .. } => 3,
        State::Backport { .. } => 2,
        _ => 1,
    }
}

/// A request comes to an end: each question brings it nearer, and no request
/// takes more than six.
pub proof fn lemma_requests_end(req: Request, opening: Step, state: State, reply: Reply, step: Step)
    requires
        opens(req, opening),
        follows(state, reply, step),
    ensures
        opening matches Step::Ask(_, first) ==> questions_left(first) <= 6,
        step matches Step::Ask(_, next) ==> questions_left(next) < questions_left(state),
{
}

/// An error of the engine ends a request with that error, whatever the state.
pub proof fn lemma_errors_end_requests(state: State, error: Error, step: Step)
    requires
        follows(state, Reply::Failed(error), step),
    ensures
        step == Step::Done(Err(error)),
{
}

/// Whether a call of the engine changes the repository.
pub open spec fn changes(action: Action) -> bool {
    match action {
        Action::Snapshot => true,
        Action::NamedCut { .. } => true,
        Action::Restore(_) => true,
        Action::Undo => true,
        Action::Claim { .. } => true,
        Action::Release { .. } => true,
        Action::ScopedCut { .. } => true,
        Action::Admit { .. } => true,
        Action::Backport { .. } => true,
        Action::ContinueBackport { .. } => true,
        _ => false,
    }
}

/// Whether a request only looks at the repository.
pub open spec fn looks(req: Request) -> bool {
    match req {
        Request::Status => true,
        Request::Log => true,
        Request::OpLog => true,
        Request::Diff { .. } => true,
        Request::Cat { .. } => true,
        Request::Ls { .. } => true,
        Request::Help => true,
        Request::Current => true,
        Request::Cuts => true,
        Request::Claims => true,
        Request::Lanes => true,
        _ => false,
    }
}

/// Whether a state belongs to a request that only looks at the repository.
pub open spec fn looking(state: State) -> bool {
    match state {
        State::Status => true,
        State::Log => true,
        State::OpLog => true,
        State::DiffFrom { .. } => true,
        State::DiffTo { .. } => true,
        State::Diff { .. } => true,
        State::DiffStat { .. } => true,
        State::DiffPatch { .. } => true,
        State::CatId => true,
        State::CatObject { .. } => true,
        State::LsTree => true,
        State::LsEntries => true,
        State::CurrentOp => true,
        State::CurrentView { .. } => true,
        State::CurrentCopy { .. } => true,
        State::CurrentBase { .. } => true,
        State::CurrentStatus { .. } => true,
        State::Cuts => true,
        State::Claims => true,
        State::Lanes => true,
        _ => false,
    }
}

/// A request that only looks at the repository never asks the engine to change
/// it: neither with its first question nor with any later one.
pub proof fn lemma_looking_changes_nothing(
    req: Request,
    opening: Step,
    state: State,
    reply: Reply,
    step: Step,
)
    requires
        looks(req),
        opens(req, opening),
        looking(state),
        follows(state, reply, step),
    ensures
        opening matches Step::Ask(action, first) ==> !changes(action) && looking(first),
        step matches Step::Ask(action, next) ==> !changes(action) && looking(next),
{
}

/// A named cut that was made is in the log, and no e-mail address is told.
///
/// The engine is asked for a cut with the message and the author of the request.
/// Where the log that it gives afterwards begins with that cut, so does the log
/// that is answered: under the id of the first answer, with the message and the
/// author's name. The e-mail address stands in neither answer, unless a message or
/// an author's name holds it.
pub proof fn lemma_named_cut_is_logged(
    message: String,
    author_name: String,
    author_email: String,
    id: ObjectId,
    snaps: Vec<Snapshot>,
    made: Step,
    logged: Step,
)
    requires
        follows(State::NamedCut, Reply::Id(id), made),
        follows(State::Log, Reply::Snapshots(snaps), logged),
        snaps@.len() > 0,
        api::snapshot_id(snaps@[0]@) == id@,
        snaps@[0]@.message == message@,
        snaps@[0]@.author.name == author_name@,
        api::is_no_hex(author_email@),
        forall|i: int|
            0 <= i < snaps@.len() ==> object::is_id(api::snapshot_id((#[trigger] snaps@[i])@))
                && object::is_id(snaps@[i]@.change_id) && !text::occurs_in(
                snaps@[i]@.message,
                author_email@,
            ) && !text::occurs_in(snaps@[i]@.author.name, author_email@),
    ensures
        first_step(Request::NamedCut { message, author_name, author_email }) == Step::Ask(
            Action::NamedCut { message, author_name, author_email },
            State::NamedCut,
        ),
        first_step(Request::Log) == Step::Ask(Action::Log, State::Log),
        response_of(made) matches Some(Response::NamedCut { cut, cut_short }) && response_of(
            logged,
        ) matches Some(Response::Log { cuts }) && {
            &&& cuts@.len() == snaps@.len()
            &&& cuts@[0].id@ == cut@
            &&& cuts@[0].message@ == message@
            &&& cuts@[0].author_name@ == author_name@
            &&& !text::occurs_in(cut@, author_email@)
            &&& !text::occurs_in(cut_short@, author_email@)
            &&& forall|i: int|
                0 <= i < cuts@.len() ==> !api::summary_holds(#[trigger] cuts@[i], author_email@)
        },
{
    api::lemma_not_in_id(id@, author_email@);
    if let Some(Response::Log { cuts }) = response_of(logged) {
        assert(api::is_cut_summary(cuts@[0], snaps@[0]@));
        assert forall|i: int| 0 <= i < cuts@.len() implies !api::summary_holds(
            #[trigger] cuts@[i],
            author_email@,
        ) by {
            assert(api::is_cut_summary(cuts@[i], snaps@[i]@));
            api::lemma_summary_holds_no_email(cuts@[i], snaps@[i]@, author_email@);
        }
    }
}

/// A response is handed on as it is, and an error becomes an error response with its
/// message.
pub proof fn law_answers(r: Response, response: Response, error: Error)
    ensures
        answers(r, Ok(response)) ==> r == response,
        answers(r, Err(error)) ==> (r matches Response::Error { message } && (match error {
            Error::InvalidArgument(s) => message@ == "invalid argument: "@ + s@,
            Error::Corruption(s) => message@ == "corrupt object: "@ + s@,
            Error::PrefixNotFound(s) => message@ == "no object matches id prefix: "@ + s@,
            Error::InvalidObjectId(s) => message@ == "invalid object id: "@ + s@,
            Error::ObjectNotFound(id) => message@ == "object not found: "@ + crate::hash::hex_text(id@),
            Error::Io(_) => exists|rest: Seq<char>| message@ == #[trigger] ("io error: "@ + rest),
            _ => true,
        })),
{
    if answers(r, Err(error)) {
        if let Response::Error { message } = r {
            text::law_begins_with(message@, "io error: "@);
        }
    }
}

/// A line holds the request that is left of it without the white space round it; a line of
/// white space holds none.
pub proof fn law_request_line(
    before: Seq<char>,
    request: Seq<char>,
    after: Seq<char>,
    r: Option<String>,
)
    requires
        text::all_white(before),
        text::all_white(after),
        request.len() > 0 ==> !text::white(request[0]) && !text::white(request.last()),
    ensures
        holds_request(before + request + after, r) ==> (r is Some <==> request.len() > 0),
        holds_request(before + request + after, r) && r is Some ==> r->Some_0@ == request,
{
    text::lemma_trimmed_is(before, request, after);
}

/// The fields of a request: the name of each, its type, and whether it has to be given.
pub open spec fn fields_of(req: Request) -> Seq<(Seq<char>, Seq<char>, bool)> {
    let author = seq![
        ("author_name"@, "string"@, true),
        ("author_email"@, "string"@, true),
    ];
    match req {
        Request::NamedCut { .. } => seq![("message"@, "string"@, true)] + author,
        Request::Diff { .. } => seq![
            ("from"@, "string?"@, false),
            ("to"@, "string?"@, false),
            ("stat"@, "bool"@, false),
            ("patch"@, "bool"@, false),
        ],
        Request::Restore { .. } => seq![("target"@, "string"@, true)],
        Request::Cat { .. } => seq![("id"@, "string"@, true)],
        Request::Ls { .. } => seq![("tree"@, "string?"@, false)],
        Request::Claim { .. } => seq![
            ("path"@, "string"@, true),
            ("holder"@, "string"@, true),
            ("note"@, "string"@, false),
        ],
        Request::Release { .. } => seq![("path"@, "string"@, true), ("holder"@, "string"@, true)],
        Request::ScopedCut { .. } => seq![
            ("paths"@, "[string]"@, true),
            ("message"@, "string"@, true),
        ] + author + seq![("base"@, "string?"@, false)],
        Request::Admit { .. } => seq![
            ("cut"@, "string"@, true),
            ("lane"@, "string"@, true),
            ("reason"@, "string"@, false),
        ],
        Request::Backport { .. } => seq![
            ("source"@, "string"@, true),
            ("target_lane"@, "string"@, true),
            ("message"@, "string?"@, false),
            ("reason"@, "string"@, false),
        ] + author + seq![("admit"@, "bool"@, false)],
        Request::BackportContinue { .. } => author + seq![("admit"@, "bool"@, false)],
        _ => seq![],
    }
}

/// The parameters that a method is described with are the fields of its request, in order, with
/// their types, and are required exactly where the request cannot do without them.
pub proof fn law_parameters(req: Request)
    ensures
        ({
            let params = schema::schema()[place_of(req)].params;
            let fields = fields_of(req);
            &&& params.len() == fields.len()
            &&& forall|i: int|
                0 <= i < params.len() ==> (#[trigger] params[i]).name == fields[i].0 && params[i].ty
                    == fields[i].1 && params[i].required == fields[i].2
        }),
{
}

} // verus!
