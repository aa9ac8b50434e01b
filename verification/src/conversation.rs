//! What a whole request comes to.
//!
//! [`run`](crate::dispatch::run) opens a request and
//! [`resume`](crate::dispatch::resume) carries it on. The laws here follow a
//! request from its fields to the questions that the engine is asked, and from the
//! engine's replies to the texts of the response.
use vstd::prelude::*;

use crate::dispatch;
use crate::encoding;
use crate::hash;
use crate::schema;
use crate::text;
use crate::api::{
    AdmissionData, BackportData, BackportProvenanceData, CutSummary, DiffTarget, OpSummary, Request,
    Response,
};
use crate::claims::{Claim, ClaimV};
use crate::diff::TreeDiff;
use crate::dispatch::Step;
use crate::encoding::Encode;
use crate::engine::{
    Action, AdmissionOutcome, BackportOutcome, BackportProvenance, BackportRecord, Lane, Reply,
    ScopedCutOutcome, Status,
};
use crate::error::Error;
use crate::hash::{ObjectId, TypeTag};
use crate::linediff::{FilePatch, FilePatchV};
use crate::object::{Op, OpV, Snapshot, SnapshotV, TreeEntry};

verus! {

// ── texts of a response ──────────────────────────────────────────────────────

/// The value of a lowercase hex digit, or -1.
pub open spec fn nibble(c: char) -> int {
    if '0' <= c <= '9' {
        c as int - '0' as int
    } else if 'a' <= c <= 'f' {
        c as int - 'a' as int + 10
    } else {
        -1
    }
}

/// Whether the text is two lowercase hex digits for each of the bytes, the high
/// one first.
pub open spec fn spells(text: Seq<char>, bytes: Seq<u8>) -> bool {
    &&& text.len() == 2 * bytes.len()
    &&& forall|k: int|
        0 <= k < bytes.len() ==> nibble(text[2 * k]) >= 0 && nibble(text[2 * k + 1]) >= 0 && 16
            * nibble(text[2 * k]) + nibble(text[2 * k + 1]) == #[trigger] bytes[k]
}

/// Whether a text and its short form, the first twelve characters, spell an id.
pub open spec fn spells_both(full: String, short: String, id: Seq<u8>) -> bool {
    &&& spells(full@, id)
    &&& short@ == full@.take(12)
}

/// Whether each text spells the id at its place.
pub open spec fn spell_all(texts: Seq<String>, ids: Seq<Seq<u8>>) -> bool {
    &&& texts.len() == ids.len()
    &&& forall|i: int| 0 <= i < texts.len() ==> spells((#[trigger] texts[i])@, ids[i])
}

/// Whether a text is a path with forward slashes only.
pub open spec fn same_path(text: Seq<char>, path: Seq<char>) -> bool {
    &&& text.len() == path.len()
    &&& forall|k: int|
        0 <= k < path.len() ==> #[trigger] text[k] == (if path[k] == '\\' {
            '/'
        } else {
            path[k]
        })
}

/// Whether each text is the path at its place.
pub open spec fn same_paths(texts: Seq<String>, paths: Seq<Seq<char>>) -> bool {
    &&& texts.len() == paths.len()
    &&& forall|i: int| 0 <= i < texts.len() ==> same_path((#[trigger] texts[i])@, paths[i])
}

/// The hex form of bytes spells them.
pub proof fn lemma_hex_spells(bytes: Seq<u8>)
    ensures
        spells(hash::hex_text(bytes), bytes),
{
    let digits = hash::hex_text(bytes);
    assert forall|k: int| 0 <= k < bytes.len() implies nibble(digits[2 * k]) >= 0 && nibble(
        digits[2 * k + 1],
    ) >= 0 && 16 * nibble(digits[2 * k]) + nibble(digits[2 * k + 1]) == #[trigger] bytes[k] by {
        let b = bytes[k] as int;
        assert((2 * k) / 2 == k && (2 * k) % 2 == 0);
        assert((2 * k + 1) / 2 == k && (2 * k + 1) % 2 == 1);
        assert(0 <= b / 16 < 16 && 0 <= b % 16 < 16);
        assert(b == 16 * (b / 16) + b % 16);
    }
}

proof fn lemma_names_spell(full: String, short: String, id: Seq<u8>)
    requires
        crate::api::names_id(full, short, id),
    ensures
        spells_both(full, short, id),
{
    lemma_hex_spells(id);
}

proof fn lemma_all_spell(texts: Seq<String>, ids: Seq<Seq<u8>>)
    requires
        crate::api::name_ids(texts, ids),
    ensures
        spell_all(texts, ids),
{
    assert(text::texts(texts).len() == texts.len());
    assert forall|i: int| 0 <= i < texts.len() implies spells((#[trigger] texts[i])@, ids[i]) by {
        lemma_hex_spells(ids[i]);
        assert(text::texts(texts)[i] == texts[i]@);
    }
}

proof fn lemma_slashed_paths(texts: Seq<String>, paths: Seq<Seq<char>>)
    requires
        text::texts(texts) == paths.map_values(|p: Seq<char>| crate::api::slashed(p)),
    ensures
        same_paths(texts, paths),
{
    assert(text::texts(texts).len() == texts.len());
    assert forall|i: int| 0 <= i < texts.len() implies same_path(
        (#[trigger] texts[i])@,
        paths[i],
    ) by {
        assert(text::texts(texts)[i] == texts[i]@);
    }
}

/// The id of an object: the digest of its tag byte and its bytes.
pub open spec fn digest_of(tag: u8, bytes: Seq<u8>) -> Seq<u8> {
    hash::blake3_digest(seq![tag] + bytes)
}

/// Whether a summary tells of a cut: its ids, its message, its author's name, its
/// time and its parents.
pub open spec fn tells_cut(data: CutSummary, snap: SnapshotV) -> bool {
    &&& spells_both(data.id, data.id_short, digest_of(0x04, Snapshot::format(snap)))
    &&& spells_both(data.change_id, data.change_id_short, snap.change_id)
    &&& data.message@ == snap.message
    &&& data.author_name@ == snap.author.name
    &&& data.timestamp == snap.timestamp.unix_secs
    &&& spell_all(data.parents@, snap.parents)
}

/// Whether there is a summary exactly where there is a cut, and it tells of it.
pub open spec fn tells_optional_cut(data: Option<CutSummary>, snap: Option<Snapshot>) -> bool {
    match snap {
        Some(snap) => data is Some && tells_cut(data->Some_0, snap@),
        None => data is None,
    }
}

/// Whether a summary tells of an op: its id, what it did, the command, when it
/// began and its parents.
pub open spec fn tells_op(data: OpSummary, op: OpV) -> bool {
    &&& spells_both(data.id, data.id_short, digest_of(0x05, Op::format(op)))
    &&& data.description@ == op.description
    &&& data.command@.len() == op.metadata.command.len()
    &&& forall|i: int|
        0 <= i < data.command@.len() ==> (#[trigger] data.command@[i])@ == op.metadata.command[i]
    &&& data.timestamp == op.metadata.start.unix_secs
    &&& spell_all(data.parents@, op.parents)
}

proof fn lemma_summary_tells(data: CutSummary, snap: SnapshotV)
    requires
        crate::api::is_cut_summary(data, snap),
    ensures
        tells_cut(data, snap),
{
    lemma_names_spell(data.id, data.id_short, crate::api::snapshot_id(snap));
    lemma_names_spell(data.change_id, data.change_id_short, snap.change_id);
    lemma_all_spell(data.parents@, snap.parents);
}

proof fn lemma_optional_tells(data: Option<CutSummary>, snap: Option<Snapshot>)
    requires
        crate::api::is_optional_cut(data, snap),
    ensures
        tells_optional_cut(data, snap),
{
    if snap is Some {
        lemma_summary_tells(data->Some_0, snap->Some_0@);
    }
}

/// Whether each summary tells of the cut at its place.
pub open spec fn tell_cuts(data: Seq<CutSummary>, snaps: Seq<Snapshot>) -> bool {
    &&& data.len() == snaps.len()
    &&& forall|i: int| 0 <= i < data.len() ==> tells_cut(#[trigger] data[i], snaps[i]@)
}

proof fn lemma_summaries_tell(data: Seq<CutSummary>, snaps: Seq<Snapshot>)
    requires
        crate::api::are_cut_summaries(data, snaps),
    ensures
        tell_cuts(data, snaps),
{
    assert forall|i: int| 0 <= i < data.len() implies tells_cut(#[trigger] data[i], snaps[i]@) by {
        lemma_summary_tells(data[i], snaps[i]@);
    }
}

// ── looking ──────────────────────────────────────────────────────────────────

/// `status` asks for the status, and answers with its paths, kind by kind; it is
/// clean exactly where there are none.
pub proof fn law_status(s0: Step, status: Status, s1: Step)
    requires
        dispatch::opens(Request::Status, s0),
    ensures
        s0 matches Step::Ask(Action::Status, _),
        dispatch::follows(s0->Ask_1, Reply::Status(status), s1) ==> (s1 matches Step::Done(
            Ok(Response::Status { data }),
        ) && {
            &&& same_paths(data.added@, encoding::views(status.added@))
            &&& same_paths(data.modified@, encoding::views(status.modified@))
            &&& same_paths(data.deleted@, encoding::views(status.deleted@))
            &&& data.clean <==> status.added@.len() == 0 && status.modified@.len() == 0
                && status.deleted@.len() == 0
        }),
{
    if dispatch::follows(s0->Ask_1, Reply::Status(status), s1) {
        if let Step::Done(Ok(Response::Status { data })) = s1 {
            lemma_slashed_paths(data.added@, encoding::views(status.added@));
            lemma_slashed_paths(data.modified@, encoding::views(status.modified@));
            lemma_slashed_paths(data.deleted@, encoding::views(status.deleted@));
        }
    }
}

/// `log` asks for the cuts of the lineage and `cuts` for all cuts; each answers
/// with what it was given, cut by cut and in that order.
pub proof fn law_log(s0: Step, t0: Step, snaps: Vec<Snapshot>, s1: Step, t1: Step)
    requires
        dispatch::opens(Request::Log, s0),
        dispatch::opens(Request::Cuts, t0),
    ensures
        s0 matches Step::Ask(Action::Log, _),
        t0 matches Step::Ask(Action::AllCuts, _),
        dispatch::follows(s0->Ask_1, Reply::Snapshots(snaps), s1) ==> (s1 matches Step::Done(
            Ok(Response::Log { cuts }),
        ) && tell_cuts(cuts@, snaps@)),
        dispatch::follows(t0->Ask_1, Reply::Snapshots(snaps), t1) ==> (t1 matches Step::Done(
            Ok(Response::Cuts { cuts }),
        ) && tell_cuts(cuts@, snaps@)),
{
    if dispatch::follows(s0->Ask_1, Reply::Snapshots(snaps), s1) {
        if let Step::Done(Ok(Response::Log { cuts })) = s1 {
            lemma_summaries_tell(cuts@, snaps@);
        }
    }
    if dispatch::follows(t0->Ask_1, Reply::Snapshots(snaps), t1) {
        if let Step::Done(Ok(Response::Cuts { cuts })) = t1 {
            lemma_summaries_tell(cuts@, snaps@);
        }
    }
}

/// `op_log` asks for the op-log, and answers with it, op by op and in that order.
pub proof fn law_op_log(s0: Step, list: Vec<Op>, s1: Step)
    requires
        dispatch::opens(Request::OpLog, s0),
    ensures
        s0 matches Step::Ask(Action::OpLog, _),
        dispatch::follows(s0->Ask_1, Reply::Ops(list), s1) ==> (s1 matches Step::Done(
            Ok(Response::OpLog { ops }),
        ) && {
            &&& ops@.len() == list@.len()
            &&& forall|i: int|
                0 <= i < ops@.len() ==> tells_op(#[trigger] ops@[i], list@[i].model())
        }),
{
    if dispatch::follows(s0->Ask_1, Reply::Ops(list), s1) {
        if let Step::Done(Ok(Response::OpLog { ops })) = s1 {
            assert forall|i: int| 0 <= i < ops@.len() implies tells_op(
                #[trigger] ops@[i],
                list@[i].model(),
            ) by {
                let data = ops@[i];
                let op = list@[i].model();
                assert(crate::api::is_op_summary(data, op));
                lemma_names_spell(data.id, data.id_short, crate::api::op_id(op));
                lemma_all_spell(data.parents@, op.parents);
                assert(text::texts(data.command@).len() == data.command@.len());
                assert forall|k: int| 0 <= k < data.command@.len() implies (
                #[trigger] data.command@[k])@ == op.metadata.command[k] by {
                    assert(text::texts(data.command@)[k] == data.command@[k]@);
                }
            }
        }
    }
}

/// `cat` resolves what it was given, asks for that object, and answers with its
/// id, the name of its kind and its length.
pub proof fn law_cat(given: String, s0: Step, id: ObjectId, s1: Step, tag: TypeTag, size: usize, s2: Step)
    requires
        dispatch::opens(Request::Cat { id: given }, s0),
    ensures
        s0 matches Step::Ask(Action::Resolve(asked), _) && asked == given,
        dispatch::follows(s0->Ask_1, Reply::Id(id), s1) ==> {
            &&& s1 matches Step::Ask(Action::Cat(asked), _) && asked == id
            &&& dispatch::follows(s1->Ask_1, Reply::Object { tag, size }, s2) ==> (
            s2 matches Step::Done(Ok(Response::Cat { object })) && {
                &&& spells_both(object.id, object.id_short, id@)
                &&& object.size == size
                &&& tag is Blob ==> object.kind@ == "blob"@
                &&& tag is Chunk ==> object.kind@ == "chunk"@
                &&& tag is Tree ==> object.kind@ == "tree"@
                &&& tag is Snapshot ==> object.kind@ == "snapshot"@
                &&& tag is Op ==> object.kind@ == "op"@
                &&& tag is View ==> object.kind@ == "view"@
            })
        },
{
    lemma_hex_spells(id@);
}

/// `ls` lists the tree it was given, once resolved, or the live working tree where
/// it was given none, and answers with the entries in their order.
pub proof fn law_ls(tree: Option<String>, s0: Step, id: ObjectId, s1: Step, list: Vec<TreeEntry>, s2: Step)
    requires
        dispatch::opens(Request::Ls { tree }, s0),
    ensures
        tree is Some ==> (s0 matches Step::Ask(Action::Resolve(asked), _) && asked == tree->Some_0),
        tree is None ==> (s0 matches Step::Ask(Action::LiveTree, _)),
        s0 is Ask,
        dispatch::follows(s0->Ask_1, Reply::Id(id), s1) ==> {
            &&& s1 matches Step::Ask(Action::ListTree(asked), _) && asked == id
            &&& dispatch::follows(s1->Ask_1, Reply::Entries(list), s2) ==> (s2 matches Step::Done(
                Ok(Response::Ls { entries }),
            ) && {
                &&& entries@.len() == list@.len()
                &&& forall|i: int|
                    0 <= i < entries@.len() ==> {
                        let entry = list@[i]@;
                        &&& (#[trigger] entries@[i]).name@ == entry.name
                        &&& entries@[i].mode == entry.mode
                        &&& spells_both(entries@[i].id, entries@[i].id_short, entry.id)
                        &&& entry.kind is Blob ==> entries@[i].kind@ == "blob"@
                        &&& entry.kind is Tree ==> entries@[i].kind@ == "tree"@
                        &&& entry.kind is Symlink ==> entries@[i].kind@ == "symlink"@
                    }
            })
        },
{
    if dispatch::follows(s0->Ask_1, Reply::Id(id), s1) && dispatch::follows(
        s1->Ask_1,
        Reply::Entries(list),
        s2,
    ) {
        if let Step::Done(Ok(Response::Ls { entries })) = s2 {
            assert forall|i: int| 0 <= i < entries@.len() implies spells_both(
                (#[trigger] entries@[i]).id,
                entries@[i].id_short,
                list@[i]@.id,
            ) by {
                assert(crate::api::is_entry_data(entries@[i], list@[i]));
                lemma_hex_spells(list@[i]@.id);
            }
            assert forall|i: int| 0 <= i < entries@.len() implies {
                let entry = list@[i]@;
                &&& (#[trigger] entries@[i]).name@ == entry.name
                &&& entries@[i].mode == entry.mode
                &&& spells_both(entries@[i].id, entries@[i].id_short, entry.id)
                &&& entry.kind is Blob ==> entries@[i].kind@ == "blob"@
                &&& entry.kind is Tree ==> entries@[i].kind@ == "tree"@
                &&& entry.kind is Symlink ==> entries@[i].kind@ == "symlink"@
            } by {
                assert(crate::api::is_entry_data(entries@[i], list@[i]));
            }
        }
    }
}

/// `help` asks nothing and answers with the description of the API.
pub proof fn law_help(s0: Step)
    requires
        dispatch::opens(Request::Help, s0),
    ensures
        s0 matches Step::Done(Ok(Response::Help { methods })) && encoding::views(methods@)
            == schema::schema(),
{
}

/// `current` asks in turn for the op, its view, the working copy, the cut below it
/// and the status, and answers with all of them. It comes from a restore exactly
/// where the second word of the op's command is `restore`.
pub proof fn law_current(
    s0: Step,
    op: Op,
    s1: Step,
    view: crate::object::View,
    s2: Step,
    copy: Snapshot,
    s3: Step,
    base: Option<Snapshot>,
    s4: Step,
    status: Status,
    s5: Step,
)
    requires
        dispatch::opens(Request::Current, s0),
    ensures
        s0 matches Step::Ask(Action::CurrentOp, _),
        dispatch::follows(s0->Ask_1, Reply::Op(op), s1) ==> {
            &&& s1 matches Step::Ask(Action::CurrentView, _)
            &&& dispatch::follows(s1->Ask_1, Reply::View(view), s2) ==> {
                &&& s2 matches Step::Ask(Action::WorkingCopy, _)
                &&& dispatch::follows(s2->Ask_1, Reply::Snapshot(copy), s3) ==> {
                    &&& s3 matches Step::Ask(Action::BaseCut, _)
                    &&& dispatch::follows(s3->Ask_1, Reply::Cut(base), s4) ==> {
                        &&& s4 matches Step::Ask(Action::Status, _)
                        &&& dispatch::follows(s4->Ask_1, Reply::Status(status), s5) ==> (
                        s5 matches Step::Done(Ok(Response::Current { data })) && {
                            let o = op.model();
                            &&& spells_both(data.op, data.op_short, digest_of(0x05, Op::format(o)))
                            &&& data.operation@ == o.description
                            &&& data.from_restore <==> o.metadata.command.len() > 1
                                && o.metadata.command[1] == "restore"@
                            &&& spells(
                                data.view@,
                                digest_of(0x06, crate::object::View::format(view@)),
                            )
                            &&& spells_both(
                                data.working_copy,
                                data.working_copy_short,
                                digest_of(0x04, Snapshot::format(copy@)),
                            )
                            &&& spells_both(data.change_id, data.change_id_short, copy@.change_id)
                            &&& tells_optional_cut(data.base_cut, base)
                            &&& spell_all(data.heads@, view@.heads)
                            &&& data.clean <==> status.added@.len() == 0 && status.modified@.len()
                                == 0 && status.deleted@.len() == 0
                        })
                    }
                }
            }
        },
{
    if s5 matches Step::Done(Ok(Response::Current { data })) && dispatch::is_current_data(
        data,
        op.model(),
        view@,
        copy@,
        base,
        status.clean(),
    ) {
        if let Step::Done(Ok(Response::Current { data })) = s5 {
            lemma_names_spell(data.op, data.op_short, crate::api::op_id(op.model()));
            lemma_hex_spells(crate::api::view_id(view@));
            lemma_names_spell(
                data.working_copy,
                data.working_copy_short,
                crate::api::snapshot_id(copy@),
            );
            lemma_names_spell(data.change_id, data.change_id_short, copy@.change_id);
            lemma_optional_tells(data.base_cut, base);
            lemma_all_spell(data.heads@, view@.heads);
        }
    }
}

// ── snapshots and cuts ───────────────────────────────────────────────────────

/// `snapshot` asks for a snapshot and answers with its id.
pub proof fn law_snapshot(s0: Step, id: ObjectId, s1: Step)
    requires
        dispatch::opens(Request::Snapshot, s0),
    ensures
        s0 matches Step::Ask(Action::Snapshot, _),
        dispatch::follows(s0->Ask_1, Reply::Id(id), s1) ==> (s1 matches Step::Done(
            Ok(Response::Snapshot { snapshot, snapshot_short }),
        ) && spells_both(snapshot, snapshot_short, id@)),
{
    lemma_hex_spells(id@);
}

/// `named_cut` asks for a cut with the message and the author of the request, and
/// answers with its id.
pub proof fn law_named_cut(
    message: String,
    author_name: String,
    author_email: String,
    s0: Step,
    id: ObjectId,
    s1: Step,
)
    requires
        dispatch::opens(Request::NamedCut { message, author_name, author_email }, s0),
    ensures
        s0 matches Step::Ask(
            Action::NamedCut { message: m, author_name: n, author_email: e },
            _,
        ) && m == message && n == author_name && e == author_email,
        dispatch::follows(s0->Ask_1, Reply::Id(id), s1) ==> (s1 matches Step::Done(
            Ok(Response::NamedCut { cut, cut_short }),
        ) && spells_both(cut, cut_short, id@)),
{
    lemma_hex_spells(id@);
}

/// Whether a step asks for a scoped cut of these paths, with this message and this
/// author, on top of this base.
pub open spec fn asks_scoped_cut(
    step: Step,
    paths: Vec<String>,
    message: String,
    author_name: String,
    author_email: String,
    base: Option<ObjectId>,
) -> bool {
    step matches Step::Ask(
        Action::ScopedCut { paths: p, message: m, author_name: n, author_email: e, base: b },
        _,
    ) && p == paths && m == message && n == author_name && e == author_email && b == base
}

/// Whether a step answers with a scoped cut: its id, the op that recorded it, its
/// base, and the paths inside and outside.
pub open spec fn answers_scoped_cut(step: Step, outcome: ScopedCutOutcome) -> bool {
    step matches Step::Done(Ok(Response::ScopedCut { data })) && {
        &&& spells_both(data.cut, data.cut_short, outcome.cut@)
        &&& spells_both(data.op, data.op_short, outcome.op@)
        &&& match outcome.base {
            Some(id) => data.base is Some && spells(data.base->Some_0@, id@),
            None => data.base is None,
        }
        &&& data.captured@ == outcome.captured@
        &&& data.outside_changes@ == outcome.outside_changes@
    }
}

/// `scoped_cut` asks for a cut of the paths of the request, with its message and
/// its author, on top of what the base of the request was resolved to; of none
/// exactly where the request names none. It answers with what was cut.
pub proof fn law_scoped_cut(
    paths: Vec<String>,
    message: String,
    author_name: String,
    author_email: String,
    base: Option<String>,
    s0: Step,
    id: ObjectId,
    s1: Step,
    outcome: ScopedCutOutcome,
    s2: Step,
)
    requires
        dispatch::opens(
            Request::ScopedCut { paths, message, author_name, author_email, base },
            s0,
        ),
    ensures
        base is None ==> {
            &&& asks_scoped_cut(s0, paths, message, author_name, author_email, None)
            &&& dispatch::follows(s0->Ask_1, Reply::Scoped(outcome), s1) ==> answers_scoped_cut(
                s1,
                outcome,
            )
        },
        base is Some ==> {
            &&& s0 matches Step::Ask(Action::Resolve(asked), _) && asked == base->Some_0
            &&& dispatch::follows(s0->Ask_1, Reply::Id(id), s1) ==> {
                &&& asks_scoped_cut(s1, paths, message, author_name, author_email, Some(id))
                &&& dispatch::follows(s1->Ask_1, Reply::Scoped(outcome), s2)
                    ==> answers_scoped_cut(s2, outcome)
            }
        },
{
    lemma_hex_spells(outcome.cut@);
    lemma_hex_spells(outcome.op@);
    if outcome.base is Some {
        lemma_hex_spells(outcome.base->Some_0@);
    }
}

// ── diffs ────────────────────────────────────────────────────────────────────

/// Whether a step asks for the diff from `old_side` to `new_side`: line by line where
/// line counts or hunks are wanted, file by file otherwise.
pub open spec fn asks_diff(
    step: Step,
    old_side: Option<ObjectId>,
    new_side: Option<ObjectId>,
    stat: bool,
    patch: bool,
) -> bool {
    if stat || patch {
        step matches Step::Ask(Action::DiffPatch { from, to }, _) && from == old_side && to
            == new_side
    } else {
        step matches Step::Ask(Action::Diff { from, to }, _) && from == old_side && to == new_side
    }
}

/// A diff is asked for from what `from` was resolved to, as the old side, to what
/// `to` was resolved to, as the new side. A side that the request does not name is
/// left to the engine.
pub proof fn law_diff_sides(
    from: Option<String>,
    to: Option<String>,
    stat: bool,
    patch: bool,
    s0: Step,
    a: ObjectId,
    s1: Step,
    b: ObjectId,
    s2: Step,
)
    requires
        dispatch::opens(Request::Diff { from, to, stat, patch }, s0),
    ensures
        from is None && to is None ==> asks_diff(s0, None, None, stat, patch),
        from is Some && to is None ==> {
            &&& s0 matches Step::Ask(Action::Resolve(asked), _) && asked == from->Some_0
            &&& dispatch::follows(s0->Ask_1, Reply::Id(a), s1) ==> asks_diff(
                s1,
                Some(a),
                None,
                stat,
                patch,
            )
        },
        from is None && to is Some ==> {
            &&& s0 matches Step::Ask(Action::Resolve(asked), _) && asked == to->Some_0
            &&& dispatch::follows(s0->Ask_1, Reply::Id(b), s1) ==> asks_diff(
                s1,
                None,
                Some(b),
                stat,
                patch,
            )
        },
        from is Some && to is Some ==> {
            &&& s0 matches Step::Ask(Action::Resolve(asked), _) && asked == from->Some_0
            &&& dispatch::follows(s0->Ask_1, Reply::Id(a), s1) ==> {
                &&& s1 matches Step::Ask(Action::Resolve(asked), _) && asked == to->Some_0
                &&& dispatch::follows(s1->Ask_1, Reply::Id(b), s2) ==> asks_diff(
                    s2,
                    Some(a),
                    Some(b),
                    stat,
                    patch,
                )
            }
        },
{
}

/// Whether a step is the last question of a diff request: both sides are settled.
pub open spec fn settled(
    from: Option<String>,
    to: Option<String>,
    s0: Step,
    a: ObjectId,
    s1: Step,
    b: ObjectId,
    last: Step,
) -> bool {
    match (from, to) {
        (None, None) => last == s0,
        (Some(_), None) => dispatch::follows(s0->Ask_1, Reply::Id(a), last),
        (None, Some(_)) => dispatch::follows(s0->Ask_1, Reply::Id(b), last),
        (Some(_), Some(_)) => dispatch::follows(s0->Ask_1, Reply::Id(a), s1) && dispatch::follows(
            s1->Ask_1,
            Reply::Id(b),
            last,
        ),
    }
}

/// The new side is called a snapshot where the request names one, and the live
/// working copy where it names none.
pub open spec fn right_kind(kind: DiffTarget, to: Option<String>) -> bool {
    match to {
        Some(_) => kind is Snapshot,
        None => kind is LiveWorkingCopy,
    }
}

/// A file-level diff is answered with the added, removed and modified paths that
/// the engine gave, each under its own name.
pub proof fn law_diff_answer(
    from: Option<String>,
    to: Option<String>,
    s0: Step,
    a: ObjectId,
    s1: Step,
    b: ObjectId,
    last: Step,
    diff: TreeDiff,
    end: Step,
)
    requires
        dispatch::opens(Request::Diff { from, to, stat: false, patch: false }, s0),
        settled(from, to, s0, a, s1, b, last),
    ensures
        last matches Step::Ask(Action::Diff { .. }, _),
        dispatch::follows(last->Ask_1, Reply::Diff(diff), end) ==> (end matches Step::Done(
            Ok(Response::Diff { data, to_kind }),
        ) && {
            &&& same_paths(data.added@, diff@.added)
            &&& same_paths(data.removed@, diff@.removed)
            &&& same_paths(data.modified@, diff@.modified)
            &&& right_kind(to_kind, to)
        }),
{
    if dispatch::follows(last->Ask_1, Reply::Diff(diff), end) {
        if let Step::Done(Ok(Response::Diff { data, to_kind })) = end {
            lemma_slashed_paths(data.added@, diff@.added);
            lemma_slashed_paths(data.removed@, diff@.removed);
            lemma_slashed_paths(data.modified@, diff@.modified);
        }
    }
}

/// The sum of a count over the patches.
pub open spec fn summed(files: Seq<FilePatchV>, count: spec_fn(FilePatchV) -> nat) -> nat
    decreases files.len(),
{
    if files.len() == 0 {
        0
    } else {
        count(files[0]) + summed(files.skip(1), count)
    }
}

proof fn lemma_summed_last(files: Seq<FilePatchV>, count: spec_fn(FilePatchV) -> nat)
    requires
        files.len() > 0,
    ensures
        summed(files, count) == summed(files.drop_last(), count) + count(files.last()),
    decreases files.len(),
{
    if files.len() == 1 {
        assert(files.skip(1) =~= files.drop_last());
        assert(files.drop_last().len() == 0);
    } else {
        lemma_summed_last(files.skip(1), count);
        assert(files.skip(1).drop_last() =~= files.drop_last().skip(1));
    }
}

proof fn lemma_totals_are_sums(files: Seq<FilePatchV>)
    ensures
        dispatch::total_added(files) == summed(files, |p: FilePatchV| p.added_lines),
        dispatch::total_removed(files) == summed(files, |p: FilePatchV| p.removed_lines),
    decreases files.len(),
{
    if files.len() > 0 {
        lemma_totals_are_sums(files.drop_last());
        lemma_summed_last(files, |p: FilePatchV| p.added_lines);
        lemma_summed_last(files, |p: FilePatchV| p.removed_lines);
    }
}

/// With `patch` a diff is answered with the patches that the engine gave; with
/// `stat` alone, with the path, the change and the line counts of each, and the
/// sums of the counts.
pub proof fn law_line_diff_answer(
    from: Option<String>,
    to: Option<String>,
    stat: bool,
    patch: bool,
    s0: Step,
    a: ObjectId,
    s1: Step,
    b: ObjectId,
    last: Step,
    patches: Vec<FilePatch>,
    end: Step,
)
    requires
        stat || patch,
        dispatch::opens(Request::Diff { from, to, stat, patch }, s0),
        settled(from, to, s0, a, s1, b, last),
    ensures
        last matches Step::Ask(Action::DiffPatch { .. }, _),
        dispatch::follows(last->Ask_1, Reply::Patches(patches), end) && patch ==> (
        end matches Step::Done(Ok(Response::DiffPatch { files, to_kind })) && files == patches
            && right_kind(to_kind, to)),
        dispatch::follows(last->Ask_1, Reply::Patches(patches), end) && !patch ==> (
        end matches Step::Done(
            Ok(Response::DiffStat { files, total_added, total_removed, to_kind }),
        ) && {
            let given = encoding::views(patches@);
            &&& files@.len() == given.len()
            &&& forall|i: int|
                0 <= i < files@.len() ==> {
                    &&& (#[trigger] files@[i]).path@ == given[i].path
                    &&& files@[i].change@ == given[i].change
                    &&& files@[i].binary == given[i].binary
                    &&& files@[i].added_lines == given[i].added_lines
                    &&& files@[i].removed_lines == given[i].removed_lines
                }
            &&& total_added == summed(given, |p: FilePatchV| p.added_lines)
            &&& total_removed == summed(given, |p: FilePatchV| p.removed_lines)
            &&& right_kind(to_kind, to)
        }),
{
    lemma_totals_are_sums(encoding::views(patches@));
    if dispatch::follows(last->Ask_1, Reply::Patches(patches), end) && !patch {
        if let Step::Done(Ok(Response::DiffStat { files, total_added, total_removed, to_kind })) =
            end {
            let given = encoding::views(patches@);
            let stats = encoding::views(files@);
            assert(stats.len() == given.len());
            assert forall|i: int| 0 <= i < files@.len() implies {
                &&& (#[trigger] files@[i]).path@ == given[i].path
                &&& files@[i].change@ == given[i].change
                &&& files@[i].binary == given[i].binary
                &&& files@[i].added_lines == given[i].added_lines
                &&& files@[i].removed_lines == given[i].removed_lines
            } by {
                assert(stats[i] == files@[i]@);
                assert(stats[i] == crate::linediff::stat_of(given[i]));
            }
        }
    }
}

// ── going back ───────────────────────────────────────────────────────────────

/// Whether a text names the first parent of an op; none exactly where it has none.
pub open spec fn names_first_parent(name: Option<String>, op: OpV) -> bool {
    if op.parents.len() == 0 {
        name is None
    } else {
        name is Some && spells(name->Some_0@, op.parents[0])
    }
}

/// Whether a step answers a restore that was recorded as the op `id`.
pub open spec fn answers_restore_of(
    step: Step,
    id: ObjectId,
    op: OpV,
    copy: SnapshotV,
    cut: Option<Snapshot>,
) -> bool {
    step matches Step::Done(
        Ok(
            Response::Restored {
                op: o,
                op_short,
                working_copy,
                working_copy_short,
                restored_cut,
                previous_op,
                hint,
            },
        ),
    ) && {
        &&& hint@
            == "run `tack undo` to return to the pre-restore state (it is itself recorded as an op)"@
        &&& spells_both(o, op_short, id@)
        &&& spells_both(
            working_copy,
            working_copy_short,
            digest_of(0x04, Snapshot::format(copy)),
        )
        &&& tells_optional_cut(restored_cut, cut)
        &&& names_first_parent(previous_op, op)
    }
}

/// A restore resolves its target and restores that. It is answered with the op that
/// recorded it, that op's first parent as the op before, and the working copy of
/// its view. A working copy with a message is itself the restored cut; one without
/// is reported by the cut below it.
pub proof fn law_restore(
    target: String,
    s0: Step,
    id: ObjectId,
    s1: Step,
    new_op: ObjectId,
    s2: Step,
    op: Op,
    s3: Step,
    view: crate::object::View,
    s4: Step,
    copy: Snapshot,
    s5: Step,
    cut: Option<Snapshot>,
    s6: Step,
)
    requires
        dispatch::opens(Request::Restore { target }, s0),
    ensures
        s0 matches Step::Ask(Action::Resolve(asked), _) && asked == target,
        dispatch::follows(s0->Ask_1, Reply::Id(id), s1) ==> {
            &&& s1 matches Step::Ask(Action::Restore(asked), _) && asked == id
            &&& dispatch::follows(s1->Ask_1, Reply::Id(new_op), s2) ==> {
                &&& s2 matches Step::Ask(Action::GetOp(asked), _) && asked == new_op
                &&& dispatch::follows(s2->Ask_1, Reply::Op(op), s3) ==> {
                    &&& s3 matches Step::Ask(Action::GetView(asked), _) && asked@
                        == op.model().view
                    &&& dispatch::follows(s3->Ask_1, Reply::View(view), s4) ==> {
                        &&& s4 matches Step::Ask(Action::GetSnapshot(asked), _) && asked@
                            == view@.working_copy
                        &&& dispatch::follows(s4->Ask_1, Reply::Snapshot(copy), s5) ==> {
                            &&& copy@.message.len() > 0 ==> answers_restore_of(
                                s5,
                                new_op,
                                op.model(),
                                copy@,
                                Some(copy),
                            )
                            &&& copy@.message.len() == 0 ==> {
                                &&& s5 matches Step::Ask(Action::BaseCut, _)
                                &&& dispatch::follows(s5->Ask_1, Reply::Cut(cut), s6)
                                    ==> answers_restore_of(s6, new_op, op.model(), copy@, cut)
                            }
                        }
                    }
                }
            }
        },
{
    lemma_hex_spells(new_op@);
    lemma_hex_spells(crate::api::snapshot_id(copy@));
    if op.model().parents.len() > 0 {
        lemma_hex_spells(op.model().parents[0]);
    }
    if let Step::Done(Ok(Response::Restored { restored_cut, .. })) = s5 {
        if crate::api::is_optional_cut(restored_cut, Some(copy)) {
            lemma_optional_tells(restored_cut, Some(copy));
        }
    }
    if let Step::Done(Ok(Response::Restored { restored_cut, .. })) = s6 {
        if crate::api::is_optional_cut(restored_cut, cut) {
            lemma_optional_tells(restored_cut, cut);
        }
    }
}

/// An undo is answered with the op that recorded it, that op's first parent as the
/// op that was undone, none exactly where it has no parent, and the working copy of
/// its view.
pub proof fn law_undo(
    s0: Step,
    new_op: ObjectId,
    s1: Step,
    op: Op,
    s2: Step,
    view: crate::object::View,
    s3: Step,
    copy: Snapshot,
    s4: Step,
)
    requires
        dispatch::opens(Request::Undo, s0),
    ensures
        s0 matches Step::Ask(Action::Undo, _),
        dispatch::follows(s0->Ask_1, Reply::Id(new_op), s1) ==> {
            &&& s1 matches Step::Ask(Action::GetOp(asked), _) && asked == new_op
            &&& dispatch::follows(s1->Ask_1, Reply::Op(op), s2) ==> {
                &&& s2 matches Step::Ask(Action::GetView(asked), _) && asked@ == op.model().view
                &&& dispatch::follows(s2->Ask_1, Reply::View(view), s3) ==> {
                    &&& s3 matches Step::Ask(Action::GetSnapshot(asked), _) && asked@
                        == view@.working_copy
                    &&& dispatch::follows(s3->Ask_1, Reply::Snapshot(copy), s4) ==> (
                    s4 matches Step::Done(
                        Ok(
                            Response::Undone {
                                op: o,
                                op_short,
                                undone_op,
                                working_copy,
                                working_copy_short,
                            },
                        ),
                    ) && {
                        &&& spells_both(o, op_short, new_op@)
                        &&& names_first_parent(undone_op, op.model())
                        &&& spells_both(
                            working_copy,
                            working_copy_short,
                            digest_of(0x04, Snapshot::format(copy@)),
                        )
                    })
                }
            }
        },
{
    lemma_hex_spells(new_op@);
    lemma_hex_spells(crate::api::snapshot_id(copy@));
    if op.model().parents.len() > 0 {
        lemma_hex_spells(op.model().parents[0]);
    }
}

// ── claims ───────────────────────────────────────────────────────────────────

/// `claims` asks for the claims and answers with them; `release` first asks for the
/// release of the path by the holder.
pub proof fn law_claims_and_release(
    path: String,
    holder: String,
    s0: Step,
    t0: Step,
    op: ObjectId,
    t1: Step,
    held: Vec<Claim>,
    s1: Step,
    t2: Step,
)
    requires
        dispatch::opens(Request::Claims, s0),
        dispatch::opens(Request::Release { path, holder }, t0),
    ensures
        s0 matches Step::Ask(Action::Claims, _),
        dispatch::follows(s0->Ask_1, Reply::Claims(held), s1) ==> (s1 matches Step::Done(
            Ok(Response::Claims { claims }),
        ) && claims == held),
        t0 matches Step::Ask(Action::Release { path: p, holder: h }, _) && p == path && h
            == holder,
        dispatch::follows(t0->Ask_1, Reply::Id(op), t1) ==> {
            &&& t1 matches Step::Ask(Action::Claims, _)
            &&& dispatch::follows(t1->Ask_1, Reply::Claims(held), t2) ==> (t2 matches Step::Done(
                Ok(Response::Claims { claims }),
            ) && claims == held)
        },
{
}

/// A claim looks at the claims that are held, then records the path, the holder and
/// the note of the request, and looks at the claims again. It is answered with a
/// claim that is held then, on that path by that holder, with the op that recorded
/// it, and with those claims held before that are in conflict with it. Where no such
/// claim is held, it fails.
pub proof fn law_claim(
    path: String,
    holder: String,
    note: String,
    s0: Step,
    before: Vec<Claim>,
    s1: Step,
    op: ObjectId,
    s2: Step,
    after: Vec<Claim>,
    s3: Step,
)
    requires
        dispatch::opens(Request::Claim { path, holder, note }, s0),
    ensures
        s0 matches Step::Ask(Action::Claims, _),
        dispatch::follows(s0->Ask_1, Reply::Claims(before), s1) ==> {
            &&& s1 matches Step::Ask(Action::Claim { path: p, holder: h, note: n }, _) && p@ == path@
                && h@ == holder@ && n@ == note@
            &&& dispatch::follows(s1->Ask_1, Reply::Id(op), s2) ==> {
                &&& s2 matches Step::Ask(Action::Claims, _)
                &&& dispatch::follows(s2->Ask_1, Reply::Claims(after), s3) ==> {
                    let wanted = |c: ClaimV|
                        c.path == crate::ignore::normal_path(path@) && c.holder == text::trimmed(
                            holder@,
                        );
                    match s3 {
                        Step::Done(
                            Ok(Response::Claimed { claim, conflicts, op: o, op_short }),
                        ) => {
                            &&& wanted(claim@)
                            &&& encoding::views(after@).contains(claim@)
                            &&& spells_both(o, op_short, op@)
                            &&& encoding::views(conflicts@) == encoding::views(before@).filter(
                                crate::claims::in_conflict(path@, holder@),
                            )
                        },
                        Step::Done(Err(e)) => e is Corruption && forall|i: int|
                            0 <= i < after@.len() ==> !wanted((#[trigger] after@[i])@),
                        _ => false,
                    }
                }
            }
        },
{
    let key = dispatch::recorded_key(path@, holder@);
    lemma_claim_with(encoding::views(after@), key);
    lemma_hex_spells(op@);
    assert forall|i: int| 0 <= i < after@.len() implies encoding::views(after@)[i] == (
    #[trigger] after@[i])@ by {}
}

proof fn lemma_claim_with(claims: Seq<ClaimV>, key: (Seq<char>, Seq<char>))
    ensures
        match dispatch::claim_with(claims, key) {
            Some(c) => claims.contains(c) && c.path == key.0 && c.holder == key.1,
            None => forall|i: int|
                0 <= i < claims.len() ==> !((#[trigger] claims[i]).path == key.0 && claims[i].holder
                    == key.1),
        },
    decreases claims.len(),
{
    if claims.len() > 0 {
        let rest = claims.skip(1);
        lemma_claim_with(rest, key);
        if claims[0].path == key.0 && claims[0].holder == key.1 {
            assert(claims.contains(claims[0]));
        } else {
            match dispatch::claim_with(rest, key) {
                Some(c) => {
                    let k = choose|k: int| 0 <= k < rest.len() && rest[k] == c;
                    assert(claims[k + 1] == c);
                },
                None => {
                    assert forall|i: int| 0 <= i < claims.len() implies !((
                    #[trigger] claims[i]).path == key.0 && claims[i].holder == key.1) by {
                        if i > 0 {
                            assert(rest[i - 1] == claims[i]);
                        }
                    }
                },
            }
        }
    }
}

// ── lanes and backports ──────────────────────────────────────────────────────

/// Whether the data tell of an admission: the lane, the cut, the op and the reason.
pub open spec fn tells_admission(data: AdmissionData, outcome: AdmissionOutcome) -> bool {
    &&& data.lane@ == outcome.lane@
    &&& spells_both(data.cut, data.cut_short, outcome.cut@)
    &&& spells_both(data.op, data.op_short, outcome.op@)
    &&& data.reason@ == outcome.reason@
}

/// `lanes` asks for the lanes and answers with them, lane by lane.
pub proof fn law_lanes(s0: Step, list: Vec<Lane>, s1: Step)
    requires
        dispatch::opens(Request::Lanes, s0),
    ensures
        s0 matches Step::Ask(Action::Lanes, _),
        dispatch::follows(s0->Ask_1, Reply::Lanes(list), s1) ==> (s1 matches Step::Done(
            Ok(Response::Lanes { lanes }),
        ) && {
            &&& lanes@.len() == list@.len()
            &&& forall|i: int|
                0 <= i < lanes@.len() ==> {
                    &&& (#[trigger] lanes@[i]).name@ == list@[i].name@
                    &&& spells_both(lanes@[i].cut, lanes@[i].cut_short, list@[i].cut@)
                    &&& spells_both(
                        lanes@[i].admission,
                        lanes@[i].admission_short,
                        list@[i].admission@,
                    )
                    &&& lanes@[i].reason@ == list@[i].reason@
                    &&& lanes@[i].timestamp == list@[i].timestamp
                }
        }),
{
    if dispatch::follows(s0->Ask_1, Reply::Lanes(list), s1) {
        if let Step::Done(Ok(Response::Lanes { lanes })) = s1 {
            assert forall|i: int| 0 <= i < lanes@.len() implies {
                &&& (#[trigger] lanes@[i]).name@ == list@[i].name@
                &&& spells_both(lanes@[i].cut, lanes@[i].cut_short, list@[i].cut@)
                &&& spells_both(
                    lanes@[i].admission,
                    lanes@[i].admission_short,
                    list@[i].admission@,
                )
                &&& lanes@[i].reason@ == list@[i].reason@
                &&& lanes@[i].timestamp == list@[i].timestamp
            } by {
                assert(crate::api::is_lane_data(lanes@[i], list@[i]));
                lemma_hex_spells(list@[i].cut@);
                lemma_hex_spells(list@[i].admission@);
            }
        }
    }
}

/// An admission resolves the cut of the request and asks for its admission to the
/// lane, for the reason, of the request; it is answered with what was admitted.
pub proof fn law_admit(
    cut: String,
    lane: String,
    reason: String,
    s0: Step,
    id: ObjectId,
    s1: Step,
    outcome: AdmissionOutcome,
    s2: Step,
)
    requires
        dispatch::opens(Request::Admit { cut, lane, reason }, s0),
    ensures
        s0 matches Step::Ask(Action::Resolve(asked), _) && asked == cut,
        dispatch::follows(s0->Ask_1, Reply::Id(id), s1) ==> {
            &&& s1 matches Step::Ask(Action::Admit { cut: c, lane: l, reason: r }, _) && c == id && l
                == lane && r == reason
            &&& dispatch::follows(s1->Ask_1, Reply::Admission(outcome), s2) ==> (
            s2 matches Step::Done(Ok(Response::Admitted { data })) && tells_admission(
                data,
                outcome,
            ))
        },
{
    lemma_hex_spells(outcome.cut@);
    lemma_hex_spells(outcome.op@);
}

/// Whether the data tell where a backport comes from and goes to.
pub open spec fn tells_provenance(data: BackportProvenanceData, p: BackportProvenance) -> bool {
    &&& spells_both(data.source_cut, data.source_cut_short, p.source_cut@)
    &&& spells_both(data.source_change_id, data.source_change_id_short, p.source_change_id@)
    &&& match p.source_admission {
        Some(source) => data.source_admission is Some && data.source_admission->Some_0.lane@
            == source.lane@ && spells_both(
            data.source_admission->Some_0.op,
            data.source_admission->Some_0.op_short,
            source.op@,
        ),
        None => data.source_admission is None,
    }
    &&& data.target_lane@ == p.target_lane@
    &&& spells_both(data.target_base, data.target_base_short, p.target_base@)
    &&& data.reason@ == p.reason@
}

/// Whether the data tell of a backport that led to a cut.
pub open spec fn tells_record(data: BackportData, record: BackportRecord) -> bool {
    &&& tells_provenance(data.provenance, record.provenance)
    &&& data.cut is Some && data.cut_short is Some && spells_both(
        data.cut->Some_0,
        data.cut_short->Some_0,
        record.result_cut@,
    )
    &&& data.op is Some && data.op_short is Some && spells_both(
        data.op->Some_0,
        data.op_short->Some_0,
        record.op@,
    )
    &&& data.method@ == record.method@
    &&& data.conflicts@.len() == 0
}

/// Whether the data tell of the result of a backport.
pub open spec fn tells_backport(data: BackportData, outcome: BackportOutcome) -> bool {
    match outcome {
        BackportOutcome::Created(record) => data.outcome@ == "created"@ && tells_record(
            data,
            record,
        ),
        BackportOutcome::AlreadyPorted(record) => data.outcome@ == "already_ported"@
            && tells_record(data, record),
        BackportOutcome::Settlement(settlement) => {
            &&& data.outcome@ == "settlement"@
            &&& tells_provenance(data.provenance, settlement.provenance)
            &&& data.cut is None
            &&& data.cut_short is None
            &&& data.op is Some && data.op_short is Some && spells_both(
                data.op->Some_0,
                data.op_short->Some_0,
                settlement.op@,
            )
            &&& data.method@ == "settlement"@
            &&& data.conflicts@ == settlement.conflicts@
        },
    }
}

proof fn lemma_provenance_tells(data: BackportProvenanceData, p: BackportProvenance)
    requires
        crate::api::is_provenance_data(data, p),
    ensures
        tells_provenance(data, p),
{
    lemma_hex_spells(p.source_cut@);
    lemma_hex_spells(p.source_change_id@);
    lemma_hex_spells(p.target_base@);
    if p.source_admission is Some {
        lemma_hex_spells(p.source_admission->Some_0.op@);
    }
}

proof fn lemma_backport_tells(
    data: BackportData,
    outcome: BackportOutcome,
    admission: Option<AdmissionData>,
)
    requires
        crate::api::is_backport_data(data, outcome, admission),
    ensures
        tells_backport(data, outcome),
        data.admission == admission,
{
    match outcome {
        BackportOutcome::Created(record) => {
            lemma_provenance_tells(data.provenance, record.provenance);
            lemma_hex_spells(record.result_cut@);
            lemma_hex_spells(record.op@);
        },
        BackportOutcome::AlreadyPorted(record) => {
            lemma_provenance_tells(data.provenance, record.provenance);
            lemma_hex_spells(record.result_cut@);
            lemma_hex_spells(record.op@);
        },
        BackportOutcome::Settlement(settlement) => {
            lemma_provenance_tells(data.provenance, settlement.provenance);
            lemma_hex_spells(settlement.op@);
        },
    }
}

/// Whether a step goes on from the result of a backport. Where a cut was created and
/// is to be admitted, its admission to the target lane is asked for, for `why`;
/// otherwise the result is answered, without an admission.
pub open spec fn goes_on(step: Step, outcome: BackportOutcome, also_admit: bool, why: Seq<char>) -> bool {
    if also_admit && outcome is Created {
        step matches Step::Ask(Action::Admit { cut, lane, reason }, _) && {
            let record = outcome->Created_0;
            &&& cut@ == record.result_cut@
            &&& lane@ == record.provenance.target_lane@
            &&& reason@ == why
        }
    } else {
        step matches Step::Done(Ok(Response::Backport { data })) && tells_backport(data, outcome)
            && data.admission is None
    }
}

/// Whether a step answers a backport with the admission of its cut.
pub open spec fn answers_with_admission(
    step: Step,
    outcome: BackportOutcome,
    admission: AdmissionOutcome,
) -> bool {
    step matches Step::Done(Ok(Response::Backport { data })) && tells_backport(data, outcome)
        && data.admission is Some && tells_admission(data.admission->Some_0, admission)
}

/// A backport resolves the source of the request and asks for its backport, to the
/// lane, with the message, for the reason and by the author of the request. The cut
/// that comes of it is admitted where that was asked for, and for the same reason.
pub proof fn law_backport(
    source: String,
    target_lane: String,
    message: Option<String>,
    reason: String,
    author_name: String,
    author_email: String,
    also_admit: bool,
    s0: Step,
    id: ObjectId,
    s1: Step,
    outcome: BackportOutcome,
    s2: Step,
    admission: AdmissionOutcome,
    s3: Step,
)
    requires
        dispatch::opens(
            Request::Backport {
                source,
                target_lane,
                message,
                reason,
                author_name,
                author_email,
                also_admit,
            },
            s0,
        ),
    ensures
        s0 matches Step::Ask(Action::Resolve(asked), _) && asked == source,
        dispatch::follows(s0->Ask_1, Reply::Id(id), s1) ==> {
            &&& s1 matches Step::Ask(
                Action::Backport {
                    source: a,
                    target_lane: b,
                    message: c,
                    reason: d,
                    author_name: e,
                    author_email: f,
                },
                _,
            ) && a == id && b == target_lane && c == message && d == reason && e == author_name && f
                == author_email
            &&& dispatch::follows(s1->Ask_1, Reply::Backport(outcome), s2) ==> {
                &&& goes_on(s2, outcome, also_admit, reason@)
                &&& s2 is Ask && dispatch::follows(s2->Ask_1, Reply::Admission(admission), s3)
                    ==> answers_with_admission(s3, outcome, admission)
            }
        },
{
    lemma_hex_spells(admission.cut@);
    lemma_hex_spells(admission.op@);
    lemma_any_backport_tells(s2, outcome);
    lemma_any_backport_tells(s3, outcome);
}

proof fn lemma_any_backport_tells(step: Step, outcome: BackportOutcome)
    ensures
        step matches Step::Done(Ok(Response::Backport { data })) ==> (crate::api::is_backport_data(
            data,
            outcome,
            data.admission,
        ) ==> tells_backport(data, outcome)),
{
    if let Step::Done(Ok(Response::Backport { data })) = step {
        if crate::api::is_backport_data(data, outcome, data.admission) {
            lemma_backport_tells(data, outcome, data.admission);
        }
    }
}

/// Finishing a backport asks for that, by the author of the request; the cut that
/// comes of it is admitted where that was asked for, for the reason of the backport.
pub proof fn law_backport_continue(
    author_name: String,
    author_email: String,
    also_admit: bool,
    s0: Step,
    outcome: BackportOutcome,
    s1: Step,
    admission: AdmissionOutcome,
    s2: Step,
)
    requires
        dispatch::opens(Request::BackportContinue { author_name, author_email, also_admit }, s0),
    ensures
        s0 matches Step::Ask(Action::ContinueBackport { author_name: n, author_email: e }, _) && n
            == author_name && e == author_email,
        dispatch::follows(s0->Ask_1, Reply::Backport(outcome), s1) ==> {
            &&& goes_on(
                s1,
                outcome,
                also_admit,
                match outcome {
                    BackportOutcome::Created(record) => record.provenance.reason@,
                    _ => seq![],
                },
            )
            &&& s1 is Ask && dispatch::follows(s1->Ask_1, Reply::Admission(admission), s2)
                ==> answers_with_admission(s2, outcome, admission)
        },
{
    lemma_hex_spells(admission.cut@);
    lemma_hex_spells(admission.op@);
    lemma_any_backport_tells(s1, outcome);
    lemma_any_backport_tells(s2, outcome);
}

// ── failures ─────────────────────────────────────────────────────────────────

/// An error of the engine ends a request with that error, whatever was asked.
pub proof fn law_errors_are_passed_on(state: crate::dispatch::State, error: Error, step: Step)
    requires
        dispatch::follows(state, Reply::Failed(error), step),
    ensures
        step matches Step::Done(Err(e)) && e == error,
{
}

} // verus!
