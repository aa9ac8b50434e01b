use tack::api::{DiffTarget, Request, Response};
use tack::dispatch::{handle, is_countable, resume, run, State, Step};
use tack::engine::{
    Action, AdmissionOutcome, BackportOutcome, BackportProvenance, BackportRecord,
    BackportSettlement, Lane, Reply, SourceAdmission,
};
use tack::error::Error;
use tack::hash::ObjectId;
use tack::object::{Identity, Snapshot, Timestamp};
use tack::linediff::FilePatch;

fn id(byte: u8) -> ObjectId {
    ObjectId::from_bytes([byte; 32])
}

fn provenance() -> BackportProvenance {
    BackportProvenance {
        source_cut: id(1),
        source_change_id: id(2),
        source_admission: Some(SourceAdmission { lane: "team/main".to_owned(), op: id(3) }),
        target_lane: "release/1".to_owned(),
        target_base: id(4),
        reason: "from the record".to_owned(),
    }
}

fn created() -> BackportOutcome {
    BackportOutcome::Created(BackportRecord {
        provenance: provenance(),
        result_cut: id(5),
        op: id(6),
        method: "clean".to_owned(),
    })
}

fn admission() -> AdmissionOutcome {
    AdmissionOutcome { lane: "release/1".to_owned(), cut: id(5), op: id(7), reason: "why".to_owned() }
}

/// The state of a step that asks.
fn asked(step: Step) -> (Action, State) {
    match step {
        Step::Ask(action, state) => (action, state),
        Step::Done(outcome) => panic!("expected a question, got {outcome:?}"),
    }
}

fn response(step: Step) -> Response {
    match step {
        Step::Done(outcome) => handle(outcome),
        Step::Ask(action, _) => panic!("expected a response, got {action:?}"),
    }
}

#[test]
fn an_error_ends_the_request() {
    let (action, state) = asked(run(Request::Undo));
    assert!(matches!(action, Action::Undo));
    let reply = Reply::Failed(Error::Corruption("nothing to undo".to_owned()));
    assert_eq!(
        response(resume(state, reply)),
        Response::Error { message: "corrupt object: nothing to undo".to_owned() }
    );
}

#[test]
fn a_reply_to_another_question_is_an_error() {
    let (_, state) = asked(run(Request::Status));
    assert_eq!(
        response(resume(state, Reply::Lanes(Vec::new()))),
        Response::Error { message: "corrupt object: unexpected reply from the engine".to_owned() }
    );
}

#[test]
fn a_claim_that_is_not_in_the_log_is_an_error() {
    let (_, state) = asked(run(Request::Claim {
        path: "a".to_owned(),
        holder: "h".to_owned(),
        note: String::new(),
    }));
    let (action, state) = asked(resume(state, Reply::Claims(Vec::new())));
    assert!(matches!(action, Action::Claim { .. }));
    let (_, state) = asked(resume(state, Reply::Id(id(1))));
    assert_eq!(
        response(resume(state, Reply::Claims(Vec::new()))),
        Response::Error { message: "corrupt object: claim was not recorded".to_owned() }
    );
}

#[test]
fn both_sides_of_a_diff_are_resolved() {
    let (action, state) = asked(run(Request::Diff {
        from: Some("aa".to_owned()),
        to: Some("bb".to_owned()),
        stat: true,
        patch: false,
    }));
    assert!(matches!(action, Action::Resolve(p) if p == "aa"));
    let (action, state) = asked(resume(state, Reply::Id(id(1))));
    assert!(matches!(action, Action::Resolve(p) if p == "bb"));
    let (action, state) = asked(resume(state, Reply::Id(id(2))));
    assert!(matches!(
        action,
        Action::DiffPatch { from: Some(a), to: Some(b) } if a == id(1) && b == id(2)
    ));
    let patch = |name: &str, added: usize, removed: usize| FilePatch {
        path: name.to_owned(),
        change: "modified".to_owned(),
        binary: false,
        added_lines: added,
        removed_lines: removed,
        hunks: Vec::new(),
    };
    let reply = Reply::Patches(vec![patch("a", 2, 1), patch("b", 3, 4)]);
    assert!(is_countable(&reply));
    let Response::DiffStat { files, total_added, total_removed, to_kind } =
        response(resume(state, reply))
    else {
        panic!("expected DiffStat");
    };
    assert_eq!(files.len(), 2);
    assert_eq!(files[1].path, "b");
    assert_eq!((total_added, total_removed), (5, 5));
    assert_eq!(to_kind, DiffTarget::Snapshot);
}

#[test]
fn counts_that_do_not_fit_are_told() {
    let patch = || FilePatch {
        path: "a".to_owned(),
        change: "modified".to_owned(),
        binary: false,
        added_lines: usize::MAX,
        removed_lines: 0,
        hunks: Vec::new(),
    };
    assert!(is_countable(&Reply::Patches(vec![patch()])));
    assert!(!is_countable(&Reply::Patches(vec![patch(), patch()])));
    assert!(is_countable(&Reply::Lanes(Vec::new())));
}

#[test]
fn lanes_are_described() {
    let (_, state) = asked(run(Request::Lanes));
    let lane = Lane {
        name: "team/main".to_owned(),
        cut: id(1),
        admission: id(2),
        reason: "seed".to_owned(),
        timestamp: 5,
    };
    let Response::Lanes { lanes } = response(resume(state, Reply::Lanes(vec![lane]))) else {
        panic!("expected Lanes");
    };
    assert_eq!(lanes[0].name, "team/main");
    assert_eq!(lanes[0].cut, "01".repeat(32));
    assert_eq!(lanes[0].admission_short, "020202020202");
    assert_eq!(lanes[0].timestamp, 5);
}

#[test]
fn an_admission_resolves_its_cut() {
    let (action, state) = asked(run(Request::Admit {
        cut: "ab".to_owned(),
        lane: "team/main".to_owned(),
        reason: "seed".to_owned(),
    }));
    assert!(matches!(action, Action::Resolve(p) if p == "ab"));
    let (action, state) = asked(resume(state, Reply::Id(id(5))));
    assert!(matches!(
        action,
        Action::Admit { cut, lane, reason } if cut == id(5) && lane == "team/main" && reason == "seed"
    ));
    let Response::Admitted { data } = response(resume(state, Reply::Admission(admission()))) else {
        panic!("expected Admitted");
    };
    assert_eq!(data.lane, "release/1");
    assert_eq!(data.op, "07".repeat(32));
    assert_eq!(data.reason, "why");
}

fn start_backport(also_admit: bool) -> State {
    let (_, state) = asked(run(Request::Backport {
        source: "cd".to_owned(),
        target_lane: "release/1".to_owned(),
        message: None,
        reason: "customer".to_owned(),
        author_name: "Alice".to_owned(),
        author_email: "alice@example.com".to_owned(),
        also_admit,
    }));
    let (action, state) = asked(resume(state, Reply::Id(id(1))));
    assert!(matches!(action, Action::Backport { source, .. } if source == id(1)));
    state
}

#[test]
fn a_created_backport_is_admitted_with_its_own_reason() {
    let state = start_backport(true);
    let (action, state) = asked(resume(state, Reply::Backport(created())));
    assert!(matches!(
        action,
        Action::Admit { cut, lane, reason }
            if cut == id(5) && lane == "release/1" && reason == "customer"
    ));
    let Response::Backport { data } = response(resume(state, Reply::Admission(admission()))) else {
        panic!("expected Backport");
    };
    assert_eq!(data.outcome, "created");
    assert_eq!(data.cut, Some("05".repeat(32)));
    assert_eq!(data.method, "clean");
    assert_eq!(data.provenance.source_admission.map(|a| a.lane), Some("team/main".to_owned()));
    assert_eq!(data.admission.map(|a| a.op), Some("07".repeat(32)));
}

#[test]
fn a_continued_backport_is_admitted_with_the_reason_of_the_record() {
    let (_, state) = asked(run(Request::BackportContinue {
        author_name: "Alice".to_owned(),
        author_email: "alice@example.com".to_owned(),
        also_admit: true,
    }));
    let (action, _) = asked(resume(state, Reply::Backport(created())));
    assert!(matches!(action, Action::Admit { reason, .. } if reason == "from the record"));
}

#[test]
fn only_created_backports_are_admitted() {
    let BackportOutcome::Created(record) = created() else { unreachable!() };
    let Response::Backport { data } =
        response(resume(start_backport(true), Reply::Backport(BackportOutcome::AlreadyPorted(record))))
    else {
        panic!("expected Backport");
    };
    assert_eq!(data.outcome, "already_ported");
    assert_eq!(data.admission, None);

    let settlement = BackportOutcome::Settlement(BackportSettlement {
        provenance: provenance(),
        op: id(6),
        conflicts: vec!["a.txt".to_owned()],
    });
    let Response::Backport { data } =
        response(resume(start_backport(true), Reply::Backport(settlement)))
    else {
        panic!("expected Backport");
    };
    assert_eq!(data.outcome, "settlement");
    assert_eq!(data.method, "settlement");
    assert_eq!(data.cut, None);
    assert_eq!(data.op, Some("06".repeat(32)));
    assert_eq!(data.conflicts, vec!["a.txt"]);

    let Response::Backport { data } =
        response(resume(start_backport(false), Reply::Backport(created())))
    else {
        panic!("expected Backport");
    };
    assert_eq!(data.admission, None);
}

#[test]
fn io_errors_keep_the_words_of_the_system() {
    let io = std::io::Error::new(std::io::ErrorKind::NotFound, "gone");
    let Response::Error { message } = handle(Err(Error::Io(io))) else {
        panic!("expected Error");
    };
    assert_eq!(message, "io error: gone");
}

#[test]
fn looking_asks_only_to_look() {
    assert!(matches!(asked(run(Request::Status)).0, Action::Status));
    assert!(matches!(asked(run(Request::Claims)).0, Action::Claims));
    let (action, state) = asked(run(Request::Cat { id: "ab".to_owned() }));
    assert!(matches!(&action, Action::Resolve(prefix) if prefix == "ab"));
    let (action, _) = asked(resume(state, Reply::Id(id(7))));
    assert!(matches!(action, Action::Cat(found) if found == id(7)));
}

#[test]
fn a_named_cut_is_logged_without_the_email() {
    let request = Request::NamedCut {
        message: "fix".to_owned(),
        author_name: "Ann".to_owned(),
        author_email: "ann@x".to_owned(),
    };
    let (action, state) = asked(run(request));
    let Action::NamedCut { message, author_name, author_email } = action else {
        panic!("a cut is asked for")
    };
    let by = || Identity::new(&author_name, &author_email);
    let snap =
        Snapshot::new(id(1), vec![id(2)], id(3), by(), by(), &message, Timestamp::new(5, 0));
    let made = response(resume(state, Reply::Id(snap.id())));
    let Response::NamedCut { cut, .. } = &made else { panic!("a named cut") };
    let cut = cut.clone();
    let (_, state) = asked(run(Request::Log));
    let logged = response(resume(state, Reply::Snapshots(vec![snap])));
    let Response::Log { cuts } = &logged else { panic!("a log") };
    assert_eq!(cuts[0].id, cut);
    assert_eq!(cuts[0].message, "fix");
    assert_eq!(cuts[0].author_name, "Ann");
    assert!(!format!("{made:?}{logged:?}").contains("ann@x"));
}
