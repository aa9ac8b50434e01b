//! What the commands show, line by line.
//!
//! The laws here say of each command which lines a person sees for a response, and
//! what request its arguments make.
use vstd::prelude::*;
use vstd::utf8::*;

use crate::author;
use crate::commands;
use crate::output;
use crate::text;
use crate::api::{
    AdmissionData, BackportData, CurrentData, CutSummary, DiffData, LaneData, ObjectInfo, OpSummary,
    Request, Response, ScopedCutData, StatusData, TreeEntryData,
};
use crate::author::AuthorEnv;
use crate::claims::Claim;
use crate::linediff::{DiffLine, FilePatch, FileStat, Hunk};
use crate::output::OutputFormat;
use crate::commands::Rendered;
use crate::schema::{MethodInfo, ParamInfo};

verus! {

// ── lines ────────────────────────────────────────────────────────────────────

/// The lines, each with a line break behind it.
pub open spec fn text_lines(lines: Seq<Seq<char>>) -> Seq<char>
    decreases lines.len(),
{
    if lines.len() == 0 {
        seq![]
    } else {
        lines[0] + seq!['\n'] + text_lines(lines.skip(1))
    }
}

/// Each of the texts with the prefix before it.
pub open spec fn each_behind(prefix: Seq<char>, items: Seq<String>) -> Seq<Seq<char>> {
    Seq::new(items.len(), |i: int| prefix + items[i]@)
}

proof fn lemma_lines_join(a: Seq<Seq<char>>, b: Seq<Seq<char>>)
    ensures
        text_lines(a + b) == text_lines(a) + text_lines(b),
    decreases a.len(),
{
    if a.len() == 0 {
        assert(a + b =~= b);
        assert(text_lines(a) + text_lines(b) =~= text_lines(b));
    } else {
        assert((a + b).skip(1) =~= a.skip(1) + b);
        lemma_lines_join(a.skip(1), b);
        assert(text_lines(a + b) =~= text_lines(a) + text_lines(b));
    }
}

proof fn lemma_one_line(line: Seq<char>)
    ensures
        text_lines(seq![line]) == output::line(line),
{
    assert(seq![line].skip(1) =~= seq![]);
    assert(text_lines(seq![line].skip(1)) =~= seq![]);
    assert(text_lines(seq![line]) =~= output::line(line));
}

proof fn lemma_last_line(lines: Seq<Seq<char>>)
    requires
        lines.len() > 0,
    ensures
        text_lines(lines) == text_lines(lines.drop_last()) + output::line(lines.last()),
{
    lemma_lines_join(lines.drop_last(), seq![lines.last()]);
    assert(lines.drop_last() + seq![lines.last()] =~= lines);
    lemma_one_line(lines.last());
}

proof fn lemma_prefixed(prefix: Seq<char>, items: Seq<String>)
    ensures
        output::prefixed_lines(prefix, text::texts(items)) == text_lines(each_behind(prefix, items)),
    decreases items.len(),
{
    let lines = each_behind(prefix, items);
    if items.len() > 0 {
        let rest = items.drop_last();
        lemma_prefixed(prefix, rest);
        lemma_last_line(lines);
        assert(lines.drop_last() =~= each_behind(prefix, rest));
        assert(text::texts(items).drop_last() =~= text::texts(rest));
        assert(text::texts(items).last() == items.last()@);
    } else {
        assert(text::texts(items).len() == 0);
    }
}

proof fn lemma_blocks<T>(items: Seq<T>, block: spec_fn(T) -> Seq<char>, show: spec_fn(T) -> Seq<char>)
    requires
        forall|x: T| #[trigger] block(x) == output::line(show(x)),
    ensures
        commands::blocks(items, block) == text_lines(items.map_values(show)),
    decreases items.len(),
{
    let lines = items.map_values(show);
    if items.len() > 0 {
        lemma_blocks(items.drop_last(), block, show);
        lemma_last_line(lines);
        assert(lines.drop_last() =~= items.drop_last().map_values(show));
        assert(block(items.last()) == output::line(show(items.last())));
    }
}

/// What a person sees, or why the command fails: the text where there is one, the
/// message of an error response, and otherwise that the response is unexpected.
/// With `--json` the response itself is printed.
pub proof fn law_shown(r: Rendered, response: Response, text: Option<Seq<char>>)
    ensures
        commands::shows(r, OutputFormat::Json, response, text) ==> r is Json,
        commands::shows(r, OutputFormat::Human, response, text) ==> match text {
            Some(t) => r matches Rendered::Text(s) && s@ == t,
            None => match response {
                Response::Error { message } => r matches Rendered::Failed(m) && m@ == message@,
                _ => r is Unexpected,
            },
        },
{
}

/// The short form of an id in ASCII is its first twelve characters; a shorter text
/// stays as it is.
pub proof fn law_short_id(id: Seq<char>)
    requires
        forall|k: int| 0 <= k < id.len() ==> '\0' <= #[trigger] id[k] <= '\u{7f}',
    ensures
        id.len() >= 12 ==> commands::short_id(id) == id.take(12),
        id.len() < 12 ==> commands::short_id(id) == id,
{
    broadcast use vstd::utf8::group_utf8_lib;

    assert(is_ascii_chars(id));
    is_ascii_chars_encode_utf8(id);
    let bytes = encode_utf8(id);
    if id.len() >= 12 {
        let start = id.take(12);
        assert(is_ascii_chars(start));
        is_ascii_chars_encode_utf8(start);
        assert(encode_utf8(start) =~= bytes.subrange(0, 12));
        encode_utf8_decode_utf8(start);
        assert(is_char_boundary(bytes, 12)) by {
            if id.len() > 12 {
                assert('\0' <= id[12] <= '\u{7f}');
                assert(bytes[12] == id[12] as u8);
                assert(is_leading_byte_width_1(bytes[12]));
            }
        }
    }
}

// ── looking ──────────────────────────────────────────────────────────────────

/// `tack status` shows one line, that all is clean, or one for each path: `A` for an
/// added one, `M` for a modified one, `D` for a deleted one.
pub proof fn law_status_screen(data: StatusData)
    ensures
        commands::status_shown(Response::Status { data }) == Some(commands::status_text(data)),
        data.clean ==> commands::status_text(data) == text_lines(seq!["working copy is clean"@]),
        !data.clean ==> commands::status_text(data) == text_lines(
            each_behind("A  "@, data.added@) + each_behind("M  "@, data.modified@) + each_behind(
                "D  "@,
                data.deleted@,
            ),
        ),
{
    lemma_one_line("working copy is clean"@);
    lemma_prefixed("A  "@, data.added@);
    lemma_prefixed("M  "@, data.modified@);
    lemma_prefixed("D  "@, data.deleted@);
    let a = each_behind("A  "@, data.added@);
    let m = each_behind("M  "@, data.modified@);
    lemma_lines_join(a, m);
    lemma_lines_join(a + m, each_behind("D  "@, data.deleted@));
}

/// The line of a cut: its short id, its message, and who made it when.
pub open spec fn cut_shown(cut: CutSummary) -> Seq<char> {
    commands::short_id(cut.id@) + " "@ + cut.message@ + " ("@ + cut.author_name@ + ", "@
        + text::signed_text(cut.timestamp as int) + ")"@
}

/// `tack log` and `tack cuts` show a line for each cut, in the order of the answer.
pub proof fn law_log_screen(cuts: Seq<CutSummary>, response: Response)
    ensures
        response matches Response::Log { cuts: list } ==> commands::log_shown(response) == Some(
            commands::cuts_text(list@),
        ),
        response matches Response::Cuts { cuts: list } ==> commands::log_shown(response) == Some(
            commands::cuts_text(list@),
        ),
        commands::history_request(true) is Cuts,
        commands::history_request(false) is Log,
        cuts.len() == 0 ==> commands::cuts_text(cuts) == text_lines(seq!["no named cuts yet"@]),
        cuts.len() > 0 ==> commands::cuts_text(cuts) == text_lines(
            cuts.map_values(|cut: CutSummary| cut_shown(cut)),
        ),
{
    lemma_one_line("no named cuts yet"@);
    lemma_blocks(cuts, commands::cut_line(), |cut: CutSummary| cut_shown(cut));
}

/// The line of an op: its short id, what it did, and when.
pub open spec fn op_shown(op: OpSummary) -> Seq<char> {
    commands::short_id(op.id@) + " "@ + op.description@ + " ("@ + text::signed_text(
        op.timestamp as int,
    ) + ")"@
}

/// `tack op log` shows a line for each op, in the order of the answer.
pub proof fn law_op_log_screen(response: Response)
    ensures
        response matches Response::OpLog { ops } ==> commands::op_log_shown(response) == Some(
            text_lines(ops@.map_values(|op: OpSummary| op_shown(op))),
        ),
{
    if let Response::OpLog { ops } = response {
        lemma_blocks(ops@, commands::op_line(), |op: OpSummary| op_shown(op));
    }
}

/// `tack cat` shows the short id, the kind and the length of an object.
pub proof fn law_cat_screen(object: ObjectInfo)
    ensures
        commands::cat_shown(Response::Cat { object }) == Some(commands::object_text(object)),
        commands::object_text(object) == text_lines(
            seq![
                commands::short_id(object.id@) + " "@ + object.kind@ + " "@ + text::decimal_text(
                    object.size as nat,
                ) + " bytes"@,
            ],
        ),
{
    lemma_one_line(
        commands::short_id(object.id@) + " "@ + object.kind@ + " "@ + text::decimal_text(
            object.size as nat,
        ) + " bytes"@,
    );
}

/// `tack ls` shows a line for each entry: its kind, its short id and its name.
pub proof fn law_ls_screen(response: Response)
    ensures
        response matches Response::Ls { entries } ==> commands::ls_shown(response) == Some(
            text_lines(
                entries@.map_values(
                    |e: TreeEntryData|
                        text::padded(e.kind@, 8) + " "@ + commands::short_id(e.id@) + " "@ + e.name@,
                ),
            ),
        ),
{
    if let Response::Ls { entries } = response {
        lemma_blocks(
            entries@,
            commands::entry_line(),
            |e: TreeEntryData|
                text::padded(e.kind@, 8) + " "@ + commands::short_id(e.id@) + " "@ + e.name@,
        );
    }
}

/// `tack current` shows the op, the working copy and whether it is clean, and the
/// cut below it; a last line says where the state came from a restore.
pub proof fn law_current_screen(data: CurrentData)
    ensures
        commands::current_shown(Response::Current { data }) == Some(commands::current_text(data)),
        commands::current_text(data) == text_lines(
            seq![
                "op       "@ + commands::short_id(data.op@) + " "@ + data.operation@,
                "working  "@ + commands::short_id(data.working_copy@) + " ("@ + (if data.clean {
                    "clean"@
                } else {
                    "dirty"@
                }) + ")"@,
                if data.base_cut is Some {
                    "base cut "@ + commands::short_id(data.base_cut->Some_0.id@) + " "@
                        + data.base_cut->Some_0.message@
                } else {
                    "base cut (none)"@
                },
            ] + (if data.from_restore {
                seq!["note     current state came from a restore (`tack undo` to step back)"@]
            } else {
                seq![]
            }),
        ),
{
    let a = "op       "@ + commands::short_id(data.op@) + " "@ + data.operation@;
    let b = "working  "@ + commands::short_id(data.working_copy@) + " ("@ + (if data.clean {
        "clean"@
    } else {
        "dirty"@
    }) + ")"@;
    let c = if data.base_cut is Some {
        "base cut "@ + commands::short_id(data.base_cut->Some_0.id@) + " "@
            + data.base_cut->Some_0.message@
    } else {
        "base cut (none)"@
    };
    let d = "note     current state came from a restore (`tack undo` to step back)"@;
    lemma_three_lines(a, b, c);
    lemma_one_line(d);
    lemma_lines_join(seq![a, b, c], seq![d]);
    let none: Seq<Seq<char>> = seq![];
    assert(seq![a, b, c] + none =~= seq![a, b, c]);
    assert(commands::current_text(data) =~= text_lines(
        seq![a, b, c] + (if data.from_restore {
            seq![d]
        } else {
            none
        }),
    ));
}

proof fn lemma_two_lines(a: Seq<char>, b: Seq<char>)
    ensures
        text_lines(seq![a, b]) == output::line(a) + output::line(b),
{
    lemma_one_line(a);
    lemma_one_line(b);
    lemma_lines_join(seq![a], seq![b]);
    assert(seq![a] + seq![b] =~= seq![a, b]);
}

proof fn lemma_three_lines(a: Seq<char>, b: Seq<char>, c: Seq<char>)
    ensures
        text_lines(seq![a, b, c]) == output::line(a) + output::line(b) + output::line(c),
{
    lemma_two_lines(a, b);
    lemma_one_line(c);
    lemma_lines_join(seq![a, b], seq![c]);
    assert(seq![a, b] + seq![c] =~= seq![a, b, c]);
}

// ── cuts ─────────────────────────────────────────────────────────────────────

/// `tack snap` shows the short id of the snapshot or the cut.
pub proof fn law_snap_screen(response: Response)
    ensures
        response matches Response::NamedCut { cut, .. } ==> commands::snap_text(response) == Some(
            text_lines(seq!["created cut "@ + commands::short_id(cut@)]),
        ),
        response matches Response::Snapshot { snapshot, .. } ==> commands::snap_text(response)
            == Some(text_lines(seq!["snapshot "@ + commands::short_id(snapshot@)])),
{
    if let Response::NamedCut { cut, .. } = response {
        lemma_one_line("created cut "@ + commands::short_id(cut@));
    }
    if let Response::Snapshot { snapshot, .. } = response {
        lemma_one_line("snapshot "@ + commands::short_id(snapshot@));
    }
}

/// For a scoped cut it shows how many paths were captured and how many were left
/// outside, and each of them.
pub proof fn law_scoped_screen(data: ScopedCutData)
    ensures
        commands::snap_text(Response::ScopedCut { data }) == Some(
            text_lines(
                seq![
                    "scoped cut "@ + commands::short_id(data.cut@) + " ("@ + text::decimal_text(
                        data.captured@.len(),
                    ) + " captured, "@ + text::decimal_text(data.outside_changes@.len())
                        + " uncaptured outside scope)"@,
                ] + each_behind("  captured "@, data.captured@) + each_behind(
                    "  outside  "@,
                    data.outside_changes@,
                ),
            ),
        ),
{
    let head = "scoped cut "@ + commands::short_id(data.cut@) + " ("@ + text::decimal_text(
        data.captured@.len(),
    ) + " captured, "@ + text::decimal_text(data.outside_changes@.len())
        + " uncaptured outside scope)"@;
    let c = each_behind("  captured "@, data.captured@);
    let o = each_behind("  outside  "@, data.outside_changes@);
    lemma_one_line(head);
    lemma_prefixed("  captured "@, data.captured@);
    lemma_prefixed("  outside  "@, data.outside_changes@);
    lemma_lines_join(seq![head], c);
    lemma_lines_join(seq![head] + c, o);
}

/// `tack snap` makes a scoped cut of the paths of `--only`, on the base of `--base`;
/// without paths, a named cut with the message; without either, a snapshot. The
/// author is that of the environment. Paths without a message are refused.
pub proof fn law_snap_request(
    r: Result<Request, String>,
    message: Option<String>,
    only: Vec<String>,
    base: Option<String>,
    env: AuthorEnv,
)
    requires
        commands::snaps(r, message, only, base, env),
    ensures
        only@.len() > 0 && message is Some ==> (r matches Ok(
            Request::ScopedCut { paths, message: m, author_name, author_email, base: b },
        ) && paths == only && m == message->Some_0 && author_name@ == env.name() && author_email@
            == env.email(env.name()) && b == base),
        only@.len() > 0 && message is None ==> (r matches Err(e) && e@
            == commands::SCOPED_NEEDS_MESSAGE@),
        only@.len() == 0 && message is Some ==> (r matches Ok(
            Request::NamedCut { message: m, author_name, author_email },
        ) && m == message->Some_0 && author_name@ == env.name() && author_email@ == env.email(
            env.name(),
        )),
        only@.len() == 0 && message is None ==> (r matches Ok(Request::Snapshot)),
{
}

// ── diffs ────────────────────────────────────────────────────────────────────

/// `tack diff` shows a line for each path: `+` for an added one, `-` for a removed
/// one, `~` for a modified one.
pub proof fn law_diff_screen(data: DiffData)
    ensures
        commands::diff_text(data) == text_lines(
            each_behind("+ "@, data.added@) + each_behind("- "@, data.removed@) + each_behind(
                "~ "@,
                data.modified@,
            ),
        ),
{
    lemma_prefixed("+ "@, data.added@);
    lemma_prefixed("- "@, data.removed@);
    lemma_prefixed("~ "@, data.modified@);
    let a = each_behind("+ "@, data.added@);
    let r = each_behind("- "@, data.removed@);
    lemma_lines_join(a, r);
    lemma_lines_join(a + r, each_behind("~ "@, data.modified@));
}

/// The line of a file: its added and removed lines, or that it is binary.
pub open spec fn stat_shown(file: FileStat) -> Seq<char> {
    if file.binary {
        "    bin       "@ + file.path@
    } else {
        "  +"@ + text::padded(text::decimal_text(file.added_lines as nat), 5) + " -"@
            + text::padded(text::decimal_text(file.removed_lines as nat), 5) + " "@ + file.path@
    }
}

/// `tack diff --stat` shows a line for each file and one for the totals.
pub proof fn law_stat_screen(files: Seq<FileStat>, added: usize, removed: usize)
    ensures
        commands::stat_text(files, added, removed) == text_lines(
            files.map_values(|file: FileStat| stat_shown(file)).push(
                "total +"@ + text::decimal_text(added as nat) + " -"@ + text::decimal_text(
                    removed as nat,
                ),
            ),
        ),
{
    let show = |file: FileStat| stat_shown(file);
    let total = "total +"@ + text::decimal_text(added as nat) + " -"@ + text::decimal_text(
        removed as nat,
    );
    lemma_blocks(files, commands::stat_line(), show);
    lemma_one_line(total);
    lemma_lines_join(files.map_values(show), seq![total]);
    assert(files.map_values(show) + seq![total] =~= files.map_values(show).push(total));
}

/// The line of a hunk line: `+`, `-` or a space, and its content.
pub open spec fn line_shown(l: DiffLine) -> Seq<char> {
    (if l.tag@ == "insert"@ {
        "+"@
    } else if l.tag@ == "delete"@ {
        "-"@
    } else {
        " "@
    }) + l.content@
}

/// The lines of a hunk: its place on both sides, and its lines.
pub open spec fn hunk_shown(hunk: Hunk) -> Seq<Seq<char>> {
    seq![
        "@@ -"@ + text::decimal_text(hunk.old_start as nat) + ","@ + text::decimal_text(
            hunk.old_lines as nat,
        ) + " +"@ + text::decimal_text(hunk.new_start as nat) + ","@ + text::decimal_text(
            hunk.new_lines as nat,
        ) + " @@"@,
    ] + hunk.lines@.map_values(|l: DiffLine| line_shown(l))
}

/// A hunk is shown with its `@@` line and each of its lines.
pub proof fn law_hunk_screen(hunk: Hunk)
    ensures
        commands::hunk_block()(hunk) == text_lines(hunk_shown(hunk)),
{
    let show = |l: DiffLine| line_shown(l);
    let head = hunk_shown(hunk)[0];
    lemma_blocks(hunk.lines@, commands::hunk_line(), show);
    lemma_one_line(head);
    lemma_lines_join(seq![head], hunk.lines@.map_values(show));
}

/// A file is shown with its path and what became of it, and then its hunks, one
/// after the other, or that it is binary.
pub proof fn law_patch_screen(file: FilePatch)
    ensures
        ({
            let head = "--- "@ + file.path@ + " ("@ + file.change@ + ")"@;
            &&& file.binary ==> commands::patch_block()(file) == text_lines(
                seq![head, "binary files differ"@],
            )
            &&& !file.binary ==> commands::patch_block()(file) == text_lines(seq![head])
                + commands::blocks(file.hunks@, commands::hunk_block())
        }),
{
    let head = "--- "@ + file.path@ + " ("@ + file.change@ + ")"@;
    lemma_one_line(head);
    lemma_two_lines(head, "binary files differ"@);
}

/// Blocks are shown one after the other.
pub proof fn law_blocks<T>(a: Seq<T>, x: T, block: spec_fn(T) -> Seq<char>)
    ensures
        commands::blocks(a.push(x), block) == commands::blocks(a, block) + block(x),
        commands::blocks(Seq::<T>::empty(), block) == Seq::<char>::empty(),
{
    assert(a.push(x).drop_last() =~= a);
}

/// `tack diff` shows paths, line counts or hunks, as the response has them.
pub proof fn law_any_diff_screen(response: Response)
    ensures
        response matches Response::Diff { data, .. } ==> commands::any_diff_text(response) == Some(
            commands::diff_text(data),
        ),
        response matches Response::DiffStat { files, total_added, total_removed, .. }
            ==> commands::any_diff_text(response) == Some(
            commands::stat_text(files@, total_added, total_removed),
        ),
        response matches Response::DiffPatch { files, .. } ==> commands::any_diff_text(response)
            == Some(commands::blocks(files@, commands::patch_block())),
{
}

// ── going back ───────────────────────────────────────────────────────────────

/// `tack restore` shows what was restored, the op that recorded it, and the op before
/// it with the way back.
pub proof fn law_restore_screen(response: Response)
    ensures
        response matches Response::Restored { op, restored_cut, previous_op, .. }
            ==> commands::restore_shown(response) == Some(
            text_lines(
                seq![
                    "restored to "@ + (if restored_cut is Some {
                        commands::short_id(restored_cut->Some_0.id@) + " "@
                            + restored_cut->Some_0.message@
                    } else {
                        "an unnamed snapshot"@
                    }),
                    "  new op "@ + commands::short_id(op@),
                ] + (if previous_op is Some {
                    seq![
                        "  was at "@ + commands::short_id(previous_op->Some_0@)
                            + " — run `tack undo` to return"@,
                    ]
                } else {
                    seq![]
                }),
            ),
        ),
{
    if let Response::Restored { op, restored_cut, previous_op, .. } = response {
        let first = "restored to "@ + (if restored_cut is Some {
            commands::short_id(restored_cut->Some_0.id@) + " "@ + restored_cut->Some_0.message@
        } else {
            "an unnamed snapshot"@
        });
        let second = "  new op "@ + commands::short_id(op@);
        lemma_two_lines(first, second);
        if previous_op is Some {
            let third = "  was at "@ + commands::short_id(previous_op->Some_0@)
                + " — run `tack undo` to return"@;
            lemma_three_lines(first, second, third);
            assert(seq![first, second] + seq![third] =~= seq![first, second, third]);
        } else {
            let none: Seq<char> = seq![];
            let no_lines: Seq<Seq<char>> = seq![];
            assert(output::line(first) + output::line(second) + none =~= output::line(first)
                + output::line(second));
            assert(seq![first, second] + no_lines =~= seq![first, second]);
        }
    }
}

/// `tack undo` shows the op that recorded it, the op that it reversed, and the
/// working copy.
pub proof fn law_undo_screen(response: Response)
    ensures
        response matches Response::Undone { op, undone_op, working_copy, .. }
            ==> commands::undo_shown(response) == Some(
            text_lines(
                seq!["undone (new op "@ + commands::short_id(op@) + ")"@] + (if undone_op is Some {
                    seq!["  reversed op "@ + commands::short_id(undone_op->Some_0@)]
                } else {
                    seq![]
                }) + seq!["  working copy now "@ + commands::short_id(working_copy@)],
            ),
        ),
{
    if let Response::Undone { op, undone_op, working_copy, .. } = response {
        let first = "undone (new op "@ + commands::short_id(op@) + ")"@;
        let last = "  working copy now "@ + commands::short_id(working_copy@);
        lemma_two_lines(first, last);
        if undone_op is Some {
            let mid = "  reversed op "@ + commands::short_id(undone_op->Some_0@);
            lemma_three_lines(first, mid, last);
            assert(seq![first] + seq![mid] + seq![last] =~= seq![first, mid, last]);
        } else {
            let none: Seq<char> = seq![];
            let no_lines: Seq<Seq<char>> = seq![];
            assert(output::line(first) + none =~= output::line(first));
            assert(seq![first] + no_lines + seq![last] =~= seq![first, last]);
        }
    }
}

// ── claims ───────────────────────────────────────────────────────────────────

/// The line of a claim: its path, its holder, and its note where it has one.
pub open spec fn claim_shown(claim: Claim) -> Seq<char> {
    if claim.note@.len() == 0 {
        claim.path@ + " ["@ + claim.holder@ + "]"@
    } else {
        claim.path@ + " ["@ + claim.holder@ + "]"@ + (" — "@ + claim.note@)
    }
}

/// `tack claims` shows a line for each claim.
pub proof fn law_claims_screen(claims: Seq<Claim>, response: Response)
    ensures
        response matches Response::Claims { claims: list } ==> commands::claims_shown(response) == Some(
            commands::claims_text(list@),
        ),
        response matches Response::Claims { claims: list } ==> commands::release_shown(response) == Some(
            text_lines(
                seq!["released; "@ + text::decimal_text(list@.len()) + " claim(s) remaining"@],
            ),
        ),
        claims.len() == 0 ==> commands::claims_text(claims) == text_lines(
            seq!["no active claims"@],
        ),
        claims.len() > 0 ==> commands::claims_text(claims) == text_lines(
            claims.map_values(|claim: Claim| claim_shown(claim)),
        ),
{
    lemma_one_line("no active claims"@);
    if let Response::Claims { claims: list } = response {
        lemma_one_line("released; "@ + text::decimal_text(list@.len()) + " claim(s) remaining"@);
    }
    let none: Seq<char> = seq![];
    assert forall|claim: Claim| #[trigger]
        commands::claim_line()(claim) == output::line(claim_shown(claim)) by {
        let start = claim.path@ + " ["@ + claim.holder@ + "]"@;
        assert(start + none =~= start);
    }
    lemma_blocks(claims, commands::claim_line(), |claim: Claim| claim_shown(claim));
}

/// `tack claim` shows the claim that was made and a line for each conflict.
pub proof fn law_claim_screen(response: Response)
    ensures
        response matches Response::Claimed { claim, conflicts, .. } ==> commands::claim_shown(response)
            == Some(
            text_lines(
                seq!["claimed "@ + claim.path@ + " ["@ + claim.holder@ + "]"@]
                    + conflicts@.map_values(
                    |c: Claim| "  conflict: "@ + c.path@ + " also held by "@ + c.holder@,
                ),
            ),
        ),
{
    if let Response::Claimed { claim, conflicts, .. } = response {
        let head = "claimed "@ + claim.path@ + " ["@ + claim.holder@ + "]"@;
        let show = |c: Claim| "  conflict: "@ + c.path@ + " also held by "@ + c.holder@;
        lemma_one_line(head);
        lemma_blocks(conflicts@, commands::conflict_line(), show);
        lemma_lines_join(seq![head], conflicts@.map_values(show));
    }
}

/// A claim and a release are made by the one who is named, and otherwise by the author; a
/// note or a reason that is left out is empty.
pub proof fn law_claim_requests(
    r: Request,
    path: String,
    holder: Option<String>,
    note: Option<String>,
    lane: String,
    env: AuthorEnv,
)
    ensures
        commands::claims_path(r, path, holder, note, env) ==> (r matches Request::Claim {
            path: p,
            holder: h,
            note: n,
        } && p == path && (holder is Some ==> h@ == holder->Some_0@) && (holder is None ==> h@
            == env.name()) && (note is Some ==> n@ == note->Some_0@) && (note is None ==> n@.len()
            == 0)),
        commands::releases_path(r, path, holder, env) ==> (r matches Request::Release {
            path: p,
            holder: h,
        } && p == path && (holder is Some ==> h@ == holder->Some_0@) && (holder is None ==> h@
            == env.name())),
        commands::admits(r, path, lane, note) ==> (r matches Request::Admit {
            cut: c,
            lane: l,
            reason: why,
        } && c == path && l == lane && (note is Some ==> why@ == note->Some_0@) && (note is None
            ==> why@.len() == 0)),
{
}

// ── lanes and backports ──────────────────────────────────────────────────────

/// `tack lanes` shows a line for each lane: its name, its cut and the op that
/// admitted it.
pub proof fn law_lanes_screen(lanes: Seq<LaneData>, response: Response)
    ensures
        response matches Response::Lanes { lanes: list } ==> commands::lanes_shown(response) == Some(
            commands::lanes_text(list@),
        ),
        lanes.len() == 0 ==> commands::lanes_text(lanes) == text_lines(seq!["no lanes"@]),
        lanes.len() > 0 ==> commands::lanes_text(lanes) == text_lines(
            lanes.map_values(
                |lane: LaneData|
                    lane.name@ + " "@ + commands::short_id(lane.cut@) + " (admitted by "@
                        + commands::short_id(lane.admission@) + ")"@,
            ),
        ),
{
    lemma_one_line("no lanes"@);
    lemma_blocks(
        lanes,
        commands::lane_line(),
        |lane: LaneData|
            lane.name@ + " "@ + commands::short_id(lane.cut@) + " (admitted by "@
                + commands::short_id(lane.admission@) + ")"@,
    );
}

/// `tack admit` shows the cut, the lane and the op.
pub proof fn law_admission_screen(data: AdmissionData)
    ensures
        commands::admission_shown(Response::Admitted { data }) == Some(
            commands::admission_text(data),
        ),
        commands::admission_text(data) == text_lines(
            seq![
                "admitted "@ + commands::short_id(data.cut@) + " to "@ + data.lane@ + " (op "@
                    + commands::short_id(data.op@) + ")"@,
            ],
        ),
{
    lemma_one_line(
        "admitted "@ + commands::short_id(data.cut@) + " to "@ + data.lane@ + " (op "@
            + commands::short_id(data.op@) + ")"@,
    );
}

/// `tack backport` shows what came of it, from which cut and to which lane: the cut
/// that was created, the one that was there, or the conflicts to settle. Where the cut
/// was admitted, a last line says so.
pub proof fn law_backport_screen(data: BackportData)
    ensures
        commands::backport_shown(Response::Backport { data }) == Some(commands::backport_text(data)),
        ({
            let source = commands::short_id(data.provenance.source_cut@);
            let lane = data.provenance.target_lane@;
            let text = commands::backport_text(data);
            let start = commands::outcome_text(data);
            &&& data.admission is None ==> text == start
            &&& data.admission is Some ==> text == start + text_lines(
                seq![
                    "admitted to "@ + data.admission->Some_0.lane@ + " (op "@ + commands::short_id(
                        data.admission->Some_0.op@,
                    ) + ")"@,
                ],
            )
            &&& data.outcome@ == "created"@ && data.cut is Some ==> start == text_lines(
                seq![
                    "backport "@ + source + " to "@ + lane + " created "@ + commands::short_id(
                        data.cut->Some_0@,
                    ) + " ("@ + data.method@ + ")"@,
                ],
            )
            &&& data.outcome@ == "already_ported"@ && data.cut is Some ==> start == text_lines(
                seq![
                    "already backported "@ + source + " to "@ + lane + " as "@ + commands::short_id(
                        data.cut->Some_0@,
                    ),
                ],
            )
            &&& data.outcome@ == "settlement"@ ==> start == text_lines(
                seq!["backport "@ + source + " to "@ + lane + " needs settlement"@] + each_behind(
                    "  conflict "@,
                    data.conflicts@,
                ) + seq!["resolve the working copy, then run `tack backport --continue`"@],
            )
        }),
{
    let source = commands::short_id(data.provenance.source_cut@);
    let lane = data.provenance.target_lane@;
    reveal_strlit("created");
    reveal_strlit("already_ported");
    reveal_strlit("settlement");
    assert("created"@.len() == 7 && "already_ported"@.len() == 14 && "settlement"@.len() == 10);
    if data.admission is Some {
        lemma_one_line(
            "admitted to "@ + data.admission->Some_0.lane@ + " (op "@ + commands::short_id(
                data.admission->Some_0.op@,
            ) + ")"@,
        );
    }
    if data.cut is Some {
        let cut = commands::short_id(data.cut->Some_0@);
        lemma_one_line(
            "backport "@ + source + " to "@ + lane + " created "@ + cut + " ("@ + data.method@
                + ")"@,
        );
        lemma_one_line("already backported "@ + source + " to "@ + lane + " as "@ + cut);
    }
    let head = "backport "@ + source + " to "@ + lane + " needs settlement"@;
    let last = "resolve the working copy, then run `tack backport --continue`"@;
    lemma_one_line(head);
    lemma_one_line(last);
    lemma_prefixed("  conflict "@, data.conflicts@);
    let mid = each_behind("  conflict "@, data.conflicts@);
    lemma_lines_join(seq![head], mid);
    lemma_lines_join(seq![head] + mid, seq![last]);
}

/// `tack backport` needs a source and a lane, and hands on the message, the reason
/// and whether to admit; `--continue` takes none of these. The author is that of the
/// environment.
pub proof fn law_backport_request(
    r: Result<Request, String>,
    source: Option<String>,
    lane: Option<String>,
    message: Option<String>,
    reason: Option<String>,
    go_on: bool,
    also_admit: bool,
    env: AuthorEnv,
)
    requires
        commands::backports(r, source, lane, message, reason, go_on, also_admit, env),
    ensures
        go_on && (source is Some || lane is Some || message is Some || reason is Some) ==> (
        r matches Err(e) && e@ == commands::CONTINUE_TAKES_NOTHING@),
        !go_on && source is None ==> (r matches Err(e) && e@ == commands::BACKPORT_NEEDS_SOURCE@),
        !go_on && source is Some && lane is None ==> (r matches Err(e) && e@
            == commands::BACKPORT_NEEDS_LANE@),
        go_on && source is None && lane is None && message is None && reason is None ==> (
        r matches Ok(Request::BackportContinue { author_name, author_email, also_admit: a })
            && author_name@ == env.name() && author_email@ == env.email(env.name()) && a
            == also_admit),
        !go_on && source is Some && lane is Some ==> (r matches Ok(
            Request::Backport {
                source: s,
                target_lane: t,
                message: m,
                reason: why,
                author_name,
                author_email,
                also_admit: a,
            },
        ) && s == source->Some_0 && t == lane->Some_0 && m == message && (reason is Some ==> why@
            == reason->Some_0@) && (reason is None ==> why@.len() == 0) && author_name@
            == env.name() && author_email@ == env.email(env.name()) && a == also_admit),
{
}

// ── the description of the API ───────────────────────────────────────────────

/// The line of a parameter: its name, its type, its description, and whether it is
/// required.
pub open spec fn param_shown(p: ParamInfo) -> Seq<char> {
    "    "@ + text::padded(p.name@, 14) + " "@ + text::padded(p.ty@, 9) + " "@ + p.description@ + (
    if p.required {
        " [required]"@
    } else {
        " [optional]"@
    })
}

/// `tack schema` shows of each method its name and what it does, a line for each
/// parameter, and what it returns.
pub proof fn law_schema_screen(method: MethodInfo)
    ensures
        commands::method_block()(method) == text_lines(
            seq![text::padded(method.method@, 11) + " "@ + method.summary@]
                + method.params@.map_values(|p: ParamInfo| param_shown(p)) + seq![
                "    -> "@ + method.returns@,
            ],
        ),
{
    reveal_strlit(" [required]");
    reveal_strlit(" [optional]");
    reveal_strlit(" [");
    reveal_strlit("]");
    reveal_strlit("required");
    reveal_strlit("optional");
    let head = text::padded(method.method@, 11) + " "@ + method.summary@;
    let last = "    -> "@ + method.returns@;
    let show = |p: ParamInfo| param_shown(p);
    assert forall|p: ParamInfo| #[trigger]
        commands::param_line()(p) == output::line(show(p)) by {
        let start = "    "@ + text::padded(p.name@, 14) + " "@ + text::padded(p.ty@, 9) + " "@
            + p.description@;
        if p.required {
            assert(start + " ["@ + "required"@ + "]"@ =~= start + " [required]"@);
        } else {
            assert(start + " ["@ + "optional"@ + "]"@ =~= start + " [optional]"@);
        }
    }
    lemma_blocks(method.params@, commands::param_line(), show);
    let mid = method.params@.map_values(show);
    lemma_one_line(head);
    lemma_one_line(last);
    lemma_lines_join(seq![head], mid);
    lemma_lines_join(seq![head] + mid, seq![last]);
}

// ── the author ───────────────────────────────────────────────────────────────

/// Whether a variable is set to more than white space.
pub open spec fn is_given(value: Option<String>) -> bool {
    value is Some && exists|k: int|
        0 <= k < value->Some_0@.len() && !text::white(#[trigger] value->Some_0@[k])
}

proof fn lemma_says(value: Option<String>)
    ensures
        author::says(value) == is_given(value),
{
    if value is Some {
        let s = value->Some_0@;
        text::law_trimmed(s);
        let core = text::trimmed(s);
        let (before, after) = choose|before: Seq<char>, after: Seq<char>|
            text::all_white(before) && text::all_white(after) && s == #[trigger] ((before + core)
                + after);
        if core.len() > 0 {
            assert(s[before.len() as int] == core[0]);
        } else if is_given(value) {
            let k = choose|k: int| 0 <= k < s.len() && !text::white(#[trigger] s[k]);
            if k < before.len() {
                assert(before[k] == s[k]);
            } else {
                assert(after[k - before.len()] == s[k]);
            }
        }
    }
}

/// The author is who the environment names: `TACK_AUTHOR_NAME` before `USERNAME`
/// before `USER`, and `tack` where none says anything. The address is
/// `TACK_AUTHOR_EMAIL`, and otherwise the name at `COMPUTERNAME`, `HOSTNAME` or
/// `localhost`.
pub proof fn law_author(env: AuthorEnv, name: Seq<char>)
    ensures
        is_given(env.author_name) ==> env.name() == env.author_name->Some_0@,
        !is_given(env.author_name) && is_given(env.username) ==> env.name()
            == env.username->Some_0@,
        !is_given(env.author_name) && !is_given(env.username) && is_given(env.user) ==> env.name()
            == env.user->Some_0@,
        !is_given(env.author_name) && !is_given(env.username) && !is_given(env.user) ==> env.name()
            == "tack"@,
        is_given(env.author_email) ==> env.email(name) == env.author_email->Some_0@,
        !is_given(env.author_email) && is_given(env.computer_name) ==> env.email(name) == name
            + "@"@ + env.computer_name->Some_0@,
        !is_given(env.author_email) && !is_given(env.computer_name) && is_given(env.hostname)
            ==> env.email(name) == name + "@"@ + env.hostname->Some_0@,
        !is_given(env.author_email) && !is_given(env.computer_name) && !is_given(env.hostname)
            ==> env.email(name) == name + "@"@ + "localhost"@,
{
    lemma_says(env.author_name);
    lemma_says(env.username);
    lemma_says(env.user);
    lemma_says(env.author_email);
    lemma_says(env.computer_name);
    lemma_says(env.hostname);
    reveal_with_fuel(author::first_said, 4);
    let all = seq![env.author_name, env.username, env.user];
    assert(all.skip(1) =~= seq![env.username, env.user]);
    assert(all.skip(1).skip(1) =~= seq![env.user]);
    assert(all.skip(1).skip(1).skip(1) =~= seq![]);
    let hosts = seq![env.computer_name, env.hostname];
    assert(hosts.skip(1) =~= seq![env.hostname]);
    assert(hosts.skip(1).skip(1) =~= seq![]);
    assert(seq![env.author_email].skip(1) =~= seq![]);
}

} // verus!
