use tack::api::{
    AdmissionData, BackportData, BackportProvenanceData, CurrentData, CutSummary, DiffData,
    DiffTarget, LaneData, ObjectInfo, OpSummary, Request, Response, ScopedCutData, StatusData,
    TreeEntryData,
};
use tack::author::AuthorEnv;
use tack::claims::Claim;
use tack::commands::{
    admission, admission_request, backport, backport_request, cat, claim, claim_request, claims,
    current, cuts, diff, init, lanes, log, log_request, ls, mount, op_log, release, release_request,
    restore, schema, short, snap, snap_request, status, undo, watch, Rendered,
};
use tack::linediff::{DiffLine, FilePatch, FileStat, Hunk};
use tack::output::OutputFormat;

const HUMAN: OutputFormat = OutputFormat::Human;

fn text(rendered: Rendered) -> String {
    match rendered {
        Rendered::Text(text) => text,
        other => panic!("expected text, got {other:?}"),
    }
}

fn env() -> AuthorEnv {
    AuthorEnv {
        author_name: Some("Alice".to_owned()),
        author_email: None,
        username: None,
        user: None,
        computer_name: None,
        hostname: Some("box".to_owned()),
    }
}

fn hex(digit: &str) -> String {
    digit.repeat(64)
}

fn cut_summary(message: &str) -> CutSummary {
    CutSummary {
        id: hex("a"),
        id_short: "a".repeat(12),
        change_id: hex("b"),
        change_id_short: "b".repeat(12),
        message: message.to_owned(),
        author_name: "Alice".to_owned(),
        timestamp: -5,
        parents: vec![],
    }
}

#[test]
fn short_is_the_first_12_bytes() {
    assert_eq!(short("0123456789abcdef"), "0123456789ab");
    assert_eq!(short("0123"), "0123");
    // Twelve bytes that end inside a character: the whole id.
    assert_eq!(short("0123456789aéx"), "0123456789aéx");
}

#[test]
fn json_shows_the_response_itself() {
    let response = Response::Log { cuts: vec![] };
    assert!(matches!(log(&response, OutputFormat::Json), Rendered::Json));
    assert!(matches!(init("/x", OutputFormat::Json), Rendered::Json));
}

#[test]
fn errors_are_surfaced() {
    let response = Response::Error { message: "no such thing".to_owned() };
    assert!(matches!(status(&response, HUMAN), Rendered::Failed(m) if m == "no such thing"));
    assert!(matches!(status(&Response::Acknowledged, HUMAN), Rendered::Unexpected));
}

#[test]
fn init_watch_and_mount_name_the_directory() {
    assert_eq!(text(init("/x", HUMAN)), "initialized empty tack repository in /x\n");
    assert_eq!(text(watch("/x", HUMAN)), "watching /x (read EOF on stdin or Ctrl-C to stop)\n");
    assert_eq!(text(mount("/x", HUMAN)), "mounted /x (read EOF on stdin or Ctrl-C to unmount)\n");
}

#[test]
fn status_lists_paths_by_kind() {
    let clean = Response::Status {
        data: StatusData { added: vec![], modified: vec![], deleted: vec![], clean: true },
    };
    assert_eq!(text(status(&clean, HUMAN)), "working copy is clean\n");
    let dirty = Response::Status {
        data: StatusData {
            added: vec!["a".to_owned(), "b".to_owned()],
            modified: vec!["m".to_owned()],
            deleted: vec!["d".to_owned()],
            clean: false,
        },
    };
    assert_eq!(text(status(&dirty, HUMAN)), "A  a\nA  b\nM  m\nD  d\n");
}

#[test]
fn snap_requests() {
    assert_eq!(snap_request(None, vec![], None, &env()), Ok(Request::Snapshot));
    assert_eq!(
        snap_request(Some("m".to_owned()), vec![], None, &env()),
        Ok(Request::NamedCut {
            message: "m".to_owned(),
            author_name: "Alice".to_owned(),
            author_email: "Alice@box".to_owned(),
        })
    );
    assert_eq!(
        snap_request(Some("m".to_owned()), vec!["src".to_owned()], Some("ab".to_owned()), &env()),
        Ok(Request::ScopedCut {
            paths: vec!["src".to_owned()],
            message: "m".to_owned(),
            author_name: "Alice".to_owned(),
            author_email: "Alice@box".to_owned(),
            base: Some("ab".to_owned()),
        })
    );
    assert_eq!(
        snap_request(None, vec!["src".to_owned()], None, &env()),
        Err("`tack snap --only <path>` requires a message (-m/--message)".to_owned())
    );
}

#[test]
fn snap_shows_what_was_made() {
    let named = Response::NamedCut { cut: hex("a"), cut_short: String::new() };
    assert_eq!(text(snap(&named, HUMAN)), "created cut aaaaaaaaaaaa\n");
    let plain = Response::Snapshot { snapshot: hex("b"), snapshot_short: String::new() };
    assert_eq!(text(snap(&plain, HUMAN)), "snapshot bbbbbbbbbbbb\n");
    let scoped = Response::ScopedCut {
        data: ScopedCutData {
            cut: hex("c"),
            cut_short: String::new(),
            op: hex("d"),
            op_short: String::new(),
            base: None,
            captured: vec!["src/a".to_owned()],
            outside_changes: vec!["x".to_owned(), "y".to_owned()],
        },
    };
    assert_eq!(
        text(snap(&scoped, HUMAN)),
        "scoped cut cccccccccccc (1 captured, 2 uncaptured outside scope)\n  captured src/a\n  outside  x\n  outside  y\n"
    );
}

#[test]
fn log_and_cuts_list_cuts() {
    assert_eq!(log_request(true), Request::Cuts);
    assert_eq!(log_request(false), Request::Log);
    assert_eq!(text(log(&Response::Log { cuts: vec![] }, HUMAN)), "no named cuts yet\n");
    let response = Response::Cuts { cuts: vec![cut_summary("one"), cut_summary("two")] };
    let expected = "aaaaaaaaaaaa one (Alice, -5)\naaaaaaaaaaaa two (Alice, -5)\n";
    assert_eq!(text(log(&response, HUMAN)), expected);
    assert_eq!(text(cuts(&response, HUMAN)), expected);
}

#[test]
fn lanes_and_admissions() {
    assert_eq!(text(lanes(&Response::Lanes { lanes: vec![] }, HUMAN)), "no lanes\n");
    let lane = LaneData {
        name: "team/main".to_owned(),
        cut: hex("a"),
        cut_short: String::new(),
        admission: hex("b"),
        admission_short: String::new(),
        reason: String::new(),
        timestamp: 0,
    };
    assert_eq!(
        text(lanes(&Response::Lanes { lanes: vec![lane] }, HUMAN)),
        "team/main aaaaaaaaaaaa (admitted by bbbbbbbbbbbb)\n"
    );
    assert_eq!(
        admission_request("ab".to_owned(), "l".to_owned(), None),
        Request::Admit { cut: "ab".to_owned(), lane: "l".to_owned(), reason: String::new() }
    );
    let admitted = Response::Admitted { data: admission_data() };
    assert_eq!(
        text(admission(&admitted, HUMAN)),
        "admitted aaaaaaaaaaaa to release/1 (op cccccccccccc)\n"
    );
}

fn admission_data() -> AdmissionData {
    AdmissionData {
        lane: "release/1".to_owned(),
        cut: hex("a"),
        cut_short: String::new(),
        op: hex("c"),
        op_short: String::new(),
        reason: String::new(),
    }
}

#[test]
fn backport_requests() {
    let some = |s: &str| Some(s.to_owned());
    assert_eq!(
        backport_request(some("s"), None, None, None, true, false, &env()),
        Err("`tack backport --continue` does not take source, --to, -m, or --reason".to_owned())
    );
    assert_eq!(
        backport_request(None, None, None, None, true, true, &env()),
        Ok(Request::BackportContinue {
            author_name: "Alice".to_owned(),
            author_email: "Alice@box".to_owned(),
            also_admit: true,
        })
    );
    assert_eq!(
        backport_request(None, some("l"), None, None, false, false, &env()),
        Err("`tack backport` requires a source cut".to_owned())
    );
    assert_eq!(
        backport_request(some("s"), None, None, None, false, false, &env()),
        Err("`tack backport` requires --to <lane>".to_owned())
    );
    assert_eq!(
        backport_request(some("s"), some("l"), some("m"), None, false, false, &env()),
        Ok(Request::Backport {
            source: "s".to_owned(),
            target_lane: "l".to_owned(),
            message: some("m"),
            reason: String::new(),
            author_name: "Alice".to_owned(),
            author_email: "Alice@box".to_owned(),
            also_admit: false,
        })
    );
}

fn backport_data(outcome: &str, cut: Option<String>) -> BackportData {
    BackportData {
        outcome: outcome.to_owned(),
        provenance: BackportProvenanceData {
            source_cut: hex("1"),
            source_cut_short: String::new(),
            source_change_id: hex("2"),
            source_change_id_short: String::new(),
            source_admission: None,
            target_lane: "release/1".to_owned(),
            target_base: hex("3"),
            target_base_short: String::new(),
            reason: String::new(),
        },
        cut,
        cut_short: None,
        op: None,
        op_short: None,
        method: "clean".to_owned(),
        conflicts: vec!["a.txt".to_owned()],
        admission: None,
    }
}

fn show_backport(data: BackportData) -> String {
    text(backport(&Response::Backport { data }, HUMAN))
}

#[test]
fn backports_are_shown_by_outcome() {
    let mut created = backport_data("created", Some(hex("4")));
    created.admission = Some(admission_data());
    assert_eq!(
        show_backport(created),
        "backport 111111111111 to release/1 created 444444444444 (clean)\nadmitted to release/1 (op cccccccccccc)\n"
    );
    assert_eq!(
        show_backport(backport_data("created", None)),
        "backport 111111111111 to release/1 created <none> (clean)\n"
    );
    assert_eq!(
        show_backport(backport_data("already_ported", Some(hex("4")))),
        "already backported 111111111111 to release/1 as 444444444444\n"
    );
    assert_eq!(
        show_backport(backport_data("settlement", None)),
        "backport 111111111111 to release/1 needs settlement\n  conflict a.txt\nresolve the working copy, then run `tack backport --continue`\n"
    );
    assert_eq!(show_backport(backport_data("odd", None)), "backport outcome odd\n");
}

#[test]
fn op_log_lists_ops() {
    let op = OpSummary {
        id: hex("a"),
        id_short: String::new(),
        description: "init".to_owned(),
        command: vec![],
        timestamp: 12,
        parents: vec![],
    };
    assert_eq!(text(op_log(&Response::OpLog { ops: vec![op] }, HUMAN)), "aaaaaaaaaaaa init (12)\n");
}

#[test]
fn diffs_are_shown_three_ways() {
    let to_kind = DiffTarget::Snapshot;
    let files = Response::Diff {
        data: DiffData {
            added: vec!["a".to_owned()],
            removed: vec!["r".to_owned()],
            modified: vec!["m".to_owned()],
        },
        to_kind,
    };
    assert_eq!(text(diff(&files, HUMAN)), "+ a\n- r\n~ m\n");

    let stat = |path: &str, binary: bool| FileStat {
        path: path.to_owned(),
        change: "modified".to_owned(),
        binary,
        added_lines: 12,
        removed_lines: 3,
    };
    let counts = Response::DiffStat {
        files: vec![stat("t", false), stat("b", true)],
        total_added: 24,
        total_removed: 6,
        to_kind,
    };
    assert_eq!(
        text(diff(&counts, HUMAN)),
        "  +12    -3     t\n    bin       b\ntotal +24 -6\n"
    );

    let line = |tag: &str, content: &str| DiffLine { tag: tag.to_owned(), content: content.to_owned() };
    let patch = FilePatch {
        path: "t".to_owned(),
        change: "modified".to_owned(),
        binary: false,
        added_lines: 1,
        removed_lines: 1,
        hunks: vec![Hunk {
            old_start: 1,
            old_lines: 2,
            new_start: 1,
            new_lines: 2,
            lines: vec![line("context", "a"), line("delete", "b"), line("insert", "c")],
        }],
    };
    let binary = FilePatch {
        path: "b".to_owned(),
        change: "added".to_owned(),
        binary: true,
        added_lines: 0,
        removed_lines: 0,
        hunks: vec![],
    };
    let patches = Response::DiffPatch { files: vec![patch, binary], to_kind };
    assert_eq!(
        text(diff(&patches, HUMAN)),
        "--- t (modified)\n@@ -1,2 +1,2 @@\n a\n-b\n+c\n--- b (added)\nbinary files differ\n"
    );
}

#[test]
fn restore_and_undo_say_how_to_get_back() {
    let restored = |restored_cut: Option<CutSummary>, previous_op: Option<String>| Response::Restored {
        op: hex("a"),
        op_short: String::new(),
        working_copy: hex("b"),
        working_copy_short: String::new(),
        restored_cut,
        previous_op,
        hint: String::new(),
    };
    assert_eq!(
        text(restore(&restored(Some(cut_summary("v1")), Some(hex("c"))), HUMAN)),
        "restored to aaaaaaaaaaaa v1\n  new op aaaaaaaaaaaa\n  was at cccccccccccc — run `tack undo` to return\n"
    );
    assert_eq!(
        text(restore(&restored(None, None), HUMAN)),
        "restored to an unnamed snapshot\n  new op aaaaaaaaaaaa\n"
    );
    let undone = Response::Undone {
        op: hex("a"),
        op_short: String::new(),
        undone_op: Some(hex("b")),
        working_copy: hex("c"),
        working_copy_short: String::new(),
    };
    assert_eq!(
        text(undo(&undone, HUMAN)),
        "undone (new op aaaaaaaaaaaa)\n  reversed op bbbbbbbbbbbb\n  working copy now cccccccccccc\n"
    );
}

#[test]
fn cat_and_ls() {
    let object = ObjectInfo {
        id: hex("a"),
        id_short: String::new(),
        kind: "blob".to_owned(),
        size: 10,
    };
    assert_eq!(text(cat(&Response::Cat { object }, HUMAN)), "aaaaaaaaaaaa blob 10 bytes\n");
    let entry = TreeEntryData {
        name: "x.txt".to_owned(),
        kind: "blob".to_owned(),
        mode: 0o100_644,
        id: hex("b"),
        id_short: String::new(),
    };
    assert_eq!(
        text(ls(&Response::Ls { entries: vec![entry] }, HUMAN)),
        "blob     bbbbbbbbbbbb x.txt\n"
    );
}

#[test]
fn schema_lists_methods_and_parameters() {
    let (response, rendered) = schema(HUMAN);
    assert!(matches!(response, Response::Help { methods } if methods.len() == 21));
    let shown = text(rendered);
    assert!(shown.starts_with("status      "));
    assert!(shown.contains("\n    -> "));
    assert!(shown.contains("[required]") && shown.contains("[optional]"));
}

#[test]
fn current_shows_the_state() {
    let mut data = CurrentData {
        op: hex("a"),
        op_short: String::new(),
        operation: "init".to_owned(),
        from_restore: false,
        view: hex("b"),
        working_copy: hex("c"),
        working_copy_short: String::new(),
        change_id: hex("d"),
        change_id_short: String::new(),
        base_cut: None,
        heads: vec![],
        clean: true,
    };
    let shown = |data: CurrentData| text(current(&Response::Current { data }, HUMAN));
    let plain = "op       aaaaaaaaaaaa init\nworking  cccccccccccc (clean)\nbase cut (none)\n";
    assert_eq!(shown(data), plain);
    data = CurrentData {
        op: hex("a"),
        op_short: String::new(),
        operation: "restore".to_owned(),
        from_restore: true,
        view: hex("b"),
        working_copy: hex("c"),
        working_copy_short: String::new(),
        change_id: hex("d"),
        change_id_short: String::new(),
        base_cut: Some(cut_summary("v1")),
        heads: vec![],
        clean: false,
    };
    assert_eq!(
        shown(data),
        "op       aaaaaaaaaaaa restore\nworking  cccccccccccc (dirty)\nbase cut aaaaaaaaaaaa v1\nnote     current state came from a restore (`tack undo` to step back)\n"
    );
}

fn a_claim(path: &str, holder: &str, note: &str) -> Claim {
    Claim { path: path.to_owned(), holder: holder.to_owned(), note: note.to_owned(), timestamp: 1 }
}

#[test]
fn claims_are_shown() {
    assert_eq!(text(claims(&Response::Claims { claims: vec![] }, HUMAN)), "no active claims\n");
    let held = Response::Claims { claims: vec![a_claim("a", "al", "wip"), a_claim("b", "bo", "")] };
    assert_eq!(text(claims(&held, HUMAN)), "a [al] — wip\nb [bo]\n");
    assert_eq!(text(release(&held, HUMAN)), "released; 2 claim(s) remaining\n");
    let claimed = Response::Claimed {
        claim: a_claim("a", "al", ""),
        conflicts: vec![a_claim("a/b", "bo", "")],
        op: hex("a"),
        op_short: String::new(),
    };
    assert_eq!(text(claim(&claimed, HUMAN)), "claimed a [al]\n  conflict: a/b also held by bo\n");
}

#[test]
fn claims_are_made_for_the_author_by_default() {
    assert_eq!(
        claim_request("a".to_owned(), None, None, &env()),
        Request::Claim { path: "a".to_owned(), holder: "Alice".to_owned(), note: String::new() }
    );
    assert_eq!(
        release_request("a".to_owned(), Some("bo".to_owned()), &env()),
        Request::Release { path: "a".to_owned(), holder: "bo".to_owned() }
    );
}
