use std::collections::{BTreeMap, HashSet};

use tack::api::{
    ids_to_strings, paths_to_strings, CutSummary, DiffTarget, Request, Response, StatusData,
};
use tack::blob::{read_blob, store_file_bytes};
use tack::claims::{claim_command, current_claims, release_command};
use tack::diff::{diff_trees, RepoPath};
use tack::dispatch::{handle, invalid_request, is_countable, method_name, request_line, resume, run, Step};
use tack::engine::{Action, Reply, ScopedCutOutcome, Status};
use tack::error::Error;
use tack::hash::{hash_object, ObjectId, TypeTag};
use tack::linediff::tree_patch;
use tack::object::{tree_entry, EntryKind, Identity, Op, Snapshot, Timestamp, Tree, View};
use tack::oplog::{append_op, current_op, op_log, set_op_head};
use tack::store::ObjectStore;
use tack::tree::list_tree;

/// Builds a tree of the given files, directories and all.
fn tree_of(store: &mut ObjectStore, files: &[(&str, &[u8])]) -> ObjectId {
    let mut entries = Vec::new();
    let mut done: Vec<&str> = Vec::new();
    for (path, content) in files {
        match path.split_once('/') {
            None => {
                let id = store_file_bytes(store, content);
                entries.push(tree_entry(path, 0o100_644, EntryKind::Blob, id).expect("valid name"));
            }
            Some((dir, _)) => {
                if done.contains(&dir) {
                    continue;
                }
                done.push(dir);
                let below: Vec<(&str, &[u8])> = files
                    .iter()
                    .filter_map(|(p, c)| match p.split_once('/') {
                        Some((d, rest)) if d == dir => Some((rest, *c)),
                        _ => None,
                    })
                    .collect();
                let id = tree_of(store, &below);
                entries.push(tree_entry(dir, 0o040_000, EntryKind::Tree, id).expect("valid name"));
            }
        }
    }
    let tree = Tree::new(entries).expect("valid tree");
    store.put_tree(&tree)
}

/// A repository in memory: what the requests are carried out on.
struct Repo {
    store: ObjectStore,
    op_head: Option<String>,
    files: BTreeMap<String, Vec<u8>>,
    cuts: Vec<ObjectId>,
    clock: i64,
}

impl Repo {
    fn init() -> Self {
        let mut repo = Repo {
            store: ObjectStore::new(),
            op_head: None,
            files: BTreeMap::new(),
            cuts: Vec::new(),
            clock: 0,
        };
        let root = repo.live_tree();
        let first = repo.snapshot_of(root, Vec::new(), "", "tack", "tack@localhost");
        repo.record(first, "init", vec!["tack".to_owned(), "init".to_owned()]);
        repo
    }

    fn write_file(&mut self, path: &str, content: &[u8]) {
        self.files.insert(path.to_owned(), content.to_vec());
    }

    fn live_tree(&mut self) -> ObjectId {
        let files = self.files.clone();
        let listed: Vec<(&str, &[u8])> =
            files.iter().map(|(p, c)| (p.as_str(), c.as_slice())).collect();
        tree_of(&mut self.store, &listed)
    }

    fn now(&mut self) -> Timestamp {
        self.clock += 1;
        Timestamp::new(self.clock, 0)
    }

    fn snapshot_of(
        &mut self,
        tree: ObjectId,
        parents: Vec<ObjectId>,
        message: &str,
        name: &str,
        email: &str,
    ) -> ObjectId {
        let now = self.now();
        let change = hash_object(TypeTag::Chunk, &self.clock.to_le_bytes());
        let author = Identity::new(name, email);
        let committer = Identity::new(name, email);
        let snap = Snapshot::new(tree, parents, change, author, committer, message, now);
        self.store.put_snapshot(&snap)
    }

    /// Records an op whose view has the given working copy.
    fn record(&mut self, working_copy: ObjectId, description: &str, command: Vec<String>) -> ObjectId {
        let parents = match current_op(&self.store, self.op_head.as_deref()) {
            Ok(op) => vec![op.id()],
            Err(_) => Vec::new(),
        };
        let view = View::new(working_copy, Vec::new(), Vec::new(), vec![working_copy]);
        let view_id = self.store.put_view(&view);
        let now = self.now();
        let id = append_op(
            &mut self.store,
            parents,
            view_id,
            now,
            "host",
            "user",
            description,
            command,
        );
        self.op_head = Some(set_op_head(id));
        id
    }

    fn op(&self) -> Op {
        current_op(&self.store, self.op_head.as_deref()).expect("head op")
    }

    fn view(&self) -> View {
        self.store.get_view(&self.op().view()).expect("view")
    }

    fn working_copy(&self) -> Snapshot {
        self.store.get_snapshot(&self.view().working_copy()).expect("working copy")
    }

    /// The parents that a new snapshot has.
    fn next_parents(&self) -> Vec<ObjectId> {
        let wc = self.working_copy();
        if wc.message().is_empty() {
            wc.parents().to_vec()
        } else {
            vec![wc.id()]
        }
    }

    /// The named cuts from the working copy on, newest-first.
    fn lineage(&self) -> Vec<Snapshot> {
        let mut out = Vec::new();
        let mut next = Some(self.working_copy());
        while let Some(snap) = next {
            next = snap.parents().first().map(|p| self.store.get_snapshot(p).expect("parent"));
            if !snap.message().is_empty() {
                out.push(snap);
            }
        }
        out
    }

    fn ops(&self) -> Vec<Op> {
        op_log(&self.store, self.op_head.as_deref()).expect("log")
    }

    fn check_out(&mut self, tree: &ObjectId, prefix: &str) {
        for entry in list_tree(&self.store, tree).expect("tree") {
            let path = format!("{prefix}{}", entry.name());
            if entry.kind().is_tree() {
                self.check_out(&entry.id(), &format!("{path}/"));
            } else {
                let content = read_blob(&self.store, &entry.id()).expect("blob");
                self.files.insert(path, content);
            }
        }
    }

    fn move_to(&mut self, snapshot: ObjectId) {
        let tree = self.store.get_snapshot(&snapshot).expect("snapshot").root_tree();
        self.files.clear();
        self.check_out(&tree, "");
    }

    fn sides(&mut self, from: Option<ObjectId>, to: Option<ObjectId>) -> (ObjectId, ObjectId) {
        let old = match from {
            Some(id) => self.store.get_snapshot(&id).expect("from").root_tree(),
            None => match self.lineage().first() {
                Some(cut) => cut.root_tree(),
                None => tree_of(&mut self.store, &[]),
            },
        };
        let new = match to {
            Some(id) => self.store.get_snapshot(&id).expect("to").root_tree(),
            None => self.live_tree(),
        };
        (old, new)
    }

    fn status(&mut self) -> Status {
        let recorded = self.working_copy().root_tree();
        let live = self.live_tree();
        let diff = diff_trees(&self.store, &recorded, &live).expect("diff");
        let copy = |paths: &[RepoPath]| paths.iter().map(|p| RepoPath::new(p.as_str())).collect();
        Status {
            added: copy(diff.added()),
            modified: copy(diff.modified()),
            deleted: copy(diff.removed()),
        }
    }

    fn ask(&mut self, action: Action) -> Reply {
        match action {
            Action::Resolve(prefix) => match ObjectId::from_str(&prefix) {
                Ok(id) if self.store.contains(&id) => Reply::Id(id),
                Ok(_) => Reply::Failed(Error::PrefixNotFound(prefix)),
                Err(e) => Reply::Failed(e),
            },
            Action::Status => Reply::Status(self.status()),
            Action::Snapshot => {
                let tree = self.live_tree();
                let parents = self.next_parents();
                let id = self.snapshot_of(tree, parents, "", "tack", "tack@localhost");
                self.record(id, "snapshot working copy", vec!["tack".to_owned(), "snap".to_owned()]);
                Reply::Id(id)
            }
            Action::NamedCut { message, author_name, author_email } => {
                let tree = self.live_tree();
                let parents = self.next_parents();
                let id = self.snapshot_of(tree, parents, &message, &author_name, &author_email);
                self.record(id, "named cut", vec!["tack".to_owned(), "snap".to_owned()]);
                self.cuts.push(id);
                Reply::Id(id)
            }
            Action::Log => Reply::Snapshots(self.lineage()),
            Action::OpLog => Reply::Ops(self.ops()),
            Action::Diff { from, to } => {
                let (old, new) = self.sides(from, to);
                Reply::Diff(diff_trees(&self.store, &old, &new).expect("diff"))
            }
            Action::DiffPatch { from, to } => {
                let (old, new) = self.sides(from, to);
                Reply::Patches(tree_patch(&self.store, &old, &new).expect("patch"))
            }
            Action::Restore(id) => {
                self.move_to(id);
                let command = vec!["tack".to_owned(), "restore".to_owned(), "--to".to_owned(), id.to_hex()];
                Reply::Id(self.record(id, "restore", command))
            }
            Action::Undo => {
                let parent = self.op().parents()[0];
                let view = self.store.get_op(&parent).expect("op").view();
                let copy = self.store.get_view(&view).expect("view").working_copy();
                self.move_to(copy);
                Reply::Id(self.record(copy, "undo", vec!["tack".to_owned(), "undo".to_owned()]))
            }
            Action::Cat(id) => match self.store.get(&id) {
                Ok((tag, bytes)) => Reply::Object { tag, size: bytes.len() },
                Err(e) => Reply::Failed(e),
            },
            Action::LiveTree => Reply::Id(self.live_tree()),
            Action::ListTree(id) => match list_tree(&self.store, &id) {
                Ok(entries) => Reply::Entries(entries),
                Err(e) => Reply::Failed(e),
            },
            Action::CurrentOp => Reply::Op(self.op()),
            Action::CurrentView => Reply::View(self.view()),
            Action::WorkingCopy => Reply::Snapshot(self.working_copy()),
            Action::BaseCut => Reply::Cut(self.lineage().into_iter().next()),
            Action::AllCuts => Reply::Snapshots(
                self.cuts.iter().rev().map(|id| self.store.get_snapshot(id).expect("cut")).collect(),
            ),
            Action::Claims => Reply::Claims(current_claims(&self.ops())),
            Action::Claim { path, holder, note } => {
                let copy = self.view().working_copy();
                Reply::Id(self.record(copy, "claim", claim_command(&path, &holder, &note)))
            }
            Action::Release { path, holder } => {
                let copy = self.view().working_copy();
                Reply::Id(self.record(copy, "release", release_command(&path, &holder)))
            }
            Action::ScopedCut { paths, message, author_name, author_email, base } => {
                let (old, new) = self.sides(base, None);
                let diff = diff_trees(&self.store, &old, &new).expect("diff");
                let within = |p: &str| paths.iter().any(|s| p.starts_with(&format!("{s}/")));
                let changed: Vec<String> = diff
                    .added()
                    .iter()
                    .chain(diff.modified())
                    .map(|p| p.as_str().to_owned())
                    .collect();
                let (captured, outside_changes) = changed.into_iter().partition(|p| within(p));
                let parents = self.next_parents();
                let cut = self.snapshot_of(new, parents, &message, &author_name, &author_email);
                let copy = self.view().working_copy();
                let op = self.record(copy, "scoped cut", vec!["tack".to_owned(), "snap".to_owned()]);
                Reply::Scoped(ScopedCutOutcome { cut, op, base, captured, outside_changes })
            }
            Action::GetOp(id) => self.store.get_op(&id).map_or_else(Reply::Failed, Reply::Op),
            Action::GetView(id) => self.store.get_view(&id).map_or_else(Reply::Failed, Reply::View),
            Action::GetSnapshot(id) => {
                self.store.get_snapshot(&id).map_or_else(Reply::Failed, Reply::Snapshot)
            }
            other => Reply::Failed(Error::InvalidArgument(format!("not kept here: {other:?}"))),
        }
    }
}

/// Carries out a request.
fn answer(repo: &mut Repo, req: Request) -> Response {
    let mut step = run(req);
    loop {
        match step {
            Step::Ask(action, state) => {
                let reply = repo.ask(action);
                assert!(is_countable(&reply));
                step = resume(state, reply);
            }
            Step::Done(outcome) => return handle(outcome),
        }
    }
}

fn alice() -> (String, String) {
    ("Alice".to_owned(), "alice@example.com".to_owned())
}

/// A named-cut request with a pinned author, giving the closed cut's id.
fn cut(repo: &mut Repo, message: &str) -> String {
    match answer(
        repo,
        Request::NamedCut {
            message: message.to_owned(),
            author_name: "Alice".to_owned(),
            author_email: "alice@example.com".to_owned(),
        },
    ) {
        Response::NamedCut { cut, .. } => cut,
        other => panic!("expected NamedCut, got {other:?}"),
    }
}

#[test]
fn handle_status_snapshot_cut_log_against_real_repo() {
    let mut repo = Repo::init();

    // Status on a clean repo: no changes.
    let Response::Status { data } = answer(&mut repo, Request::Status) else {
        panic!("expected Status response");
    };
    assert!(data.clean, "fresh repo should be clean");

    // Write a file → Status reports it as added.
    repo.write_file("hello.txt", b"world");
    let Response::Status { data } = answer(&mut repo, Request::Status) else {
        panic!("expected Status response");
    };
    assert_eq!(data.added, vec!["hello.txt"], "new file must show as added");

    // Snapshot gives a hex id.
    let Response::Snapshot { snapshot, .. } = answer(&mut repo, Request::Snapshot) else {
        panic!("expected Snapshot response");
    };
    assert_eq!(snapshot.len(), 64, "snapshot id should be 64 hex chars");

    // NamedCut closes a cut.
    let (name, email) = alice();
    let cut_req = Request::NamedCut {
        message: "first cut".to_owned(),
        author_name: name,
        author_email: email,
    };
    let Response::NamedCut { cut, .. } = answer(&mut repo, cut_req) else {
        panic!("expected NamedCut response");
    };
    assert_eq!(cut.len(), 64);

    // Log shows the cut, newest-first, with the author name (no e-mail).
    let Response::Log { cuts } = answer(&mut repo, Request::Log) else {
        panic!("expected Log response");
    };
    assert_eq!(cuts.len(), 1, "one named cut expected");
    assert_eq!(cuts[0].message, "first cut");
    assert_eq!(cuts[0].author_name, "Alice");
    assert_eq!(cuts[0].id, cut, "log entry id must match the closed cut");
}

#[test]
fn handle_maps_errors_to_error_response() {
    let mut repo = Repo::init();
    // A non-hex prefix is rejected → Error response.
    let resp = answer(&mut repo, Request::Cat { id: "zz".to_owned() });
    assert!(matches!(resp, Response::Error { .. }), "expected Error, got {resp:?}");
    assert_eq!(resp, Response::Error { message: "invalid object id: zz".to_owned() });
}

#[test]
fn handle_ls_lists_root_tree_entries() {
    let mut repo = Repo::init();
    repo.write_file("a.txt", b"x");
    repo.write_file("b.txt", b"y");
    let _ = answer(&mut repo, Request::Snapshot);

    let Response::Ls { entries } = answer(&mut repo, Request::Ls { tree: None }) else {
        panic!("expected Ls response");
    };
    let names: Vec<&str> = entries.iter().map(|e| e.name.as_str()).collect();
    assert!(names.contains(&"a.txt") && names.contains(&"b.txt"));
    assert!(entries.iter().all(|e| e.kind == "blob"));
}

/// A default `ls` reflects the **live** working copy, so a file added on disk
/// shows up *without* a snapshot first.
#[test]
fn handle_ls_default_reflects_dirty_disk() {
    let mut repo = Repo::init();
    repo.write_file("a.txt", b"x");
    let _ = answer(&mut repo, Request::Snapshot);

    // Add a file on disk only — deliberately NO snapshot.
    repo.write_file("b.txt", b"y");
    let Response::Ls { entries } = answer(&mut repo, Request::Ls { tree: None }) else {
        panic!("expected Ls response");
    };
    let names: Vec<&str> = entries.iter().map(|e| e.name.as_str()).collect();
    assert!(names.contains(&"b.txt"), "ls must list the un-snapshotted file, got {names:?}");
}

#[test]
fn cat_reports_tag_and_size() {
    let mut repo = Repo::init();
    let id = repo.store.put(TypeTag::Chunk, b"hello".to_vec());
    let Response::Cat { object } = answer(&mut repo, Request::Cat { id: id.to_hex() }) else {
        panic!("expected Cat");
    };
    assert_eq!(object.id, id.to_hex());
    assert_eq!(object.id_short, id.short());
    assert_eq!(object.kind, "chunk");
    assert_eq!(object.size, 5);
}

// ── lines of input ───────────────────────────────────────────────────────────

#[test]
fn blank_lines_hold_no_request() {
    assert_eq!(request_line("  \t\n"), None);
    assert_eq!(request_line(" {\"method\":\"status\"}\n"), Some("{\"method\":\"status\"}".to_owned()));
}

#[test]
fn a_bad_line_gets_an_error_response() {
    assert_eq!(
        invalid_request("expected value at line 1 column 1"),
        Response::Error {
            message: "invalid request: expected value at line 1 column 1".to_owned()
        }
    );
}

// ── help / current / cuts / claims / scoped_cut / diffs ──────────────────────

#[test]
fn help_describes_every_dispatched_method() {
    let mut repo = Repo::init();
    let Response::Help { methods } = answer(&mut repo, Request::Help) else {
        panic!("expected Help");
    };
    let names: HashSet<&str> = methods.iter().map(|m| m.method.as_str()).collect();
    for expected in [
        "status",
        "snapshot",
        "named_cut",
        "log",
        "op_log",
        "diff",
        "restore",
        "undo",
        "cat",
        "ls",
        "help",
        "current",
        "cuts",
        "claims",
        "claim",
        "release",
        "scoped_cut",
        "lanes",
        "admit",
        "backport",
        "backport_continue",
    ] {
        assert!(names.contains(expected), "help is missing method {expected}");
    }
    assert_eq!(names.len(), 21, "help must describe exactly the dispatched methods");
    // Self-description must not leak any PII either.
    let text = format!("{methods:?}");
    assert!(!text.contains('@'), "help payload must not contain an e-mail: {text}");
    assert!(names.contains(method_name(&Request::Undo)));
    assert!(names.contains(method_name(&Request::Ls { tree: None })));
}

#[test]
fn current_reports_base_cut_clean_and_restore_flag() {
    let mut repo = Repo::init();
    repo.write_file("a.txt", b"one");
    let cut1 = cut(&mut repo, "c1");

    let Response::Current { data } = answer(&mut repo, Request::Current) else {
        panic!("expected Current");
    };
    assert!(!data.from_restore, "fresh state is not a restore");
    assert!(data.clean, "after a cut the working copy is clean");
    assert_eq!(data.base_cut.as_ref().map(|c| c.id.clone()), Some(cut1.clone()));

    repo.write_file("b.txt", b"two");
    let _ = cut(&mut repo, "c2");
    let _ = answer(&mut repo, Request::Restore { target: cut1 });
    let Response::Current { data } = answer(&mut repo, Request::Current) else {
        panic!("expected Current");
    };
    assert!(data.from_restore, "after a restore from_restore must be true");
    let text = format!("{data:?}");
    assert!(!text.contains('@'), "current payload must not carry an e-mail: {text}");
}

#[test]
fn cuts_surfaces_off_lineage_cut_that_log_hides() {
    let mut repo = Repo::init();
    repo.write_file("a.txt", b"one");
    let cut1 = cut(&mut repo, "c1");
    repo.write_file("b.txt", b"two");
    let _ = cut(&mut repo, "c2");
    let _ = answer(&mut repo, Request::Restore { target: cut1 });

    let Response::Cuts { cuts } = answer(&mut repo, Request::Cuts) else {
        panic!("expected Cuts");
    };
    let msgs: Vec<&str> = cuts.iter().map(|c| c.message.as_str()).collect();
    assert!(msgs.contains(&"c1") && msgs.contains(&"c2"), "cuts must show both lineages: {msgs:?}");

    let Response::Log { cuts } = answer(&mut repo, Request::Log) else {
        panic!("expected Log");
    };
    let log_msgs: Vec<&str> = cuts.iter().map(|c| c.message.as_str()).collect();
    assert!(!log_msgs.contains(&"c2"), "log follows the restored lineage: {log_msgs:?}");
}

#[test]
fn diff_patch_and_stat_report_line_level_changes() {
    let mut repo = Repo::init();
    repo.write_file("a.txt", b"l1\nl2\n");
    let _ = cut(&mut repo, "base");
    repo.write_file("a.txt", b"l1\nCHANGED\n");
    let _ = answer(&mut repo, Request::Snapshot);

    let Response::DiffPatch { files, to_kind } = answer(
        &mut repo,
        Request::Diff { from: None, to: None, stat: false, patch: true },
    ) else {
        panic!("expected DiffPatch");
    };
    assert_eq!(files.len(), 1);
    assert_eq!(files[0].path, "a.txt");
    assert!(files[0].added_lines >= 1 && files[0].removed_lines >= 1, "{files:?}");
    assert!(!files[0].hunks.is_empty(), "a text change must produce hunks");
    // Default `to` → the live working copy, reported for self-explanatory logs.
    assert_eq!(to_kind, DiffTarget::LiveWorkingCopy);

    let Response::DiffStat { files, total_added, total_removed, to_kind } = answer(
        &mut repo,
        Request::Diff { from: None, to: None, stat: true, patch: false },
    ) else {
        panic!("expected DiffStat");
    };
    assert_eq!(files.len(), 1);
    assert!(total_added >= 1 && total_removed >= 1);
    assert_eq!(to_kind, DiffTarget::LiveWorkingCopy);

    // Default (no flags) must remain the file-level summary (back-compat).
    let resp = answer(&mut repo, Request::Diff { from: None, to: None, stat: false, patch: false });
    assert!(matches!(resp, Response::Diff { .. }), "default diff must stay file-level: {resp:?}");
}

#[test]
fn patch_wins_over_stat() {
    let mut repo = Repo::init();
    let resp = answer(&mut repo, Request::Diff { from: None, to: None, stat: true, patch: true });
    assert_eq!(
        resp,
        Response::DiffPatch { files: Vec::new(), to_kind: DiffTarget::LiveWorkingCopy }
    );
}

/// An explicit `to` snapshot id classifies the diff as one against a snapshot.
#[test]
fn diff_to_kind_distinguishes_snapshot_from_live_working_copy() {
    let mut repo = Repo::init();
    repo.write_file("a.txt", b"one\n");
    let cut = cut(&mut repo, "base");

    let resp = answer(
        &mut repo,
        Request::Diff { from: None, to: Some(cut), stat: false, patch: false },
    );
    let Response::Diff { to_kind, .. } = resp else { panic!("expected Diff: {resp:?}") };
    assert_eq!(to_kind, DiffTarget::Snapshot);
}

#[test]
fn claim_reports_conflicts_and_release_returns_remaining() {
    let mut repo = Repo::init();

    let Response::Claimed { claim, conflicts, .. } = answer(
        &mut repo,
        Request::Claim {
            path: "src/x.rs".to_owned(),
            holder: "alice".to_owned(),
            note: "wip".to_owned(),
        },
    ) else {
        panic!("expected Claimed");
    };
    assert_eq!(claim.path, "src/x.rs");
    assert_eq!(claim.holder, "alice");
    assert!(conflicts.is_empty(), "no prior claim → no conflict");

    // A different holder on the same path is an advisory conflict.
    let Response::Claimed { conflicts, .. } = answer(
        &mut repo,
        Request::Claim {
            path: "src/x.rs".to_owned(),
            holder: "bob".to_owned(),
            note: String::new(),
        },
    ) else {
        panic!("expected Claimed");
    };
    assert_eq!(conflicts.len(), 1, "bob's claim overlaps alice's");
    assert_eq!(conflicts[0].holder, "alice");

    let Response::Claims { claims } = answer(
        &mut repo,
        Request::Release { path: "src/x.rs".to_owned(), holder: "alice".to_owned() },
    ) else {
        panic!("expected Claims from release");
    };
    assert_eq!(claims.len(), 1, "alice released; bob remains");
    assert_eq!(claims[0].holder, "bob");
}

#[test]
fn scoped_cut_via_handle_captures_scope_and_flags_outside() {
    let mut repo = Repo::init();
    repo.write_file("src/m.txt", b"m1");
    repo.write_file("other/o.txt", b"o1");
    let _ = cut(&mut repo, "base");
    repo.write_file("src/m.txt", b"m2");
    repo.write_file("other/o.txt", b"o2");

    let Response::ScopedCut { data } = answer(
        &mut repo,
        Request::ScopedCut {
            paths: vec!["src".to_owned()],
            message: "scoped".to_owned(),
            author_name: "Alice".to_owned(),
            author_email: "alice@example.com".to_owned(),
            base: None,
        },
    ) else {
        panic!("expected ScopedCut");
    };
    assert!(data.captured.contains(&"src/m.txt".to_owned()), "captured: {:?}", data.captured);
    assert!(
        data.outside_changes.contains(&"other/o.txt".to_owned()),
        "outside_changes: {:?}",
        data.outside_changes
    );
    assert_eq!(data.cut.len(), 64);
    let text = format!("{data:?}");
    assert!(!text.contains('@'), "scoped_cut payload must not carry an e-mail: {text}");
}

#[test]
fn restore_and_undo_return_structured_state() {
    let mut repo = Repo::init();
    repo.write_file("f.txt", b"v1");
    let cut1 = cut(&mut repo, "v1");
    repo.write_file("f.txt", b"v2");
    let _ = cut(&mut repo, "v2");

    let Response::Restored { restored_cut, previous_op, op, .. } =
        answer(&mut repo, Request::Restore { target: cut1.clone() })
    else {
        panic!("expected Restored");
    };
    assert_eq!(op.len(), 64);
    assert!(previous_op.is_some(), "restore must report the previous op");
    assert_eq!(
        restored_cut.as_ref().map(|c| c.id.clone()),
        Some(cut1),
        "restoring to a named cut reports that cut"
    );

    let Response::Undone { undone_op, op, .. } = answer(&mut repo, Request::Undo) else {
        panic!("expected Undone");
    };
    assert_eq!(op.len(), 64);
    assert!(undone_op.is_some(), "undo must report the reversed op");
}

// ── payloads ─────────────────────────────────────────────────────────────────

#[test]
fn cut_summary_has_every_field_of_the_snapshot_but_the_email() {
    let parent = ObjectId::from_bytes([9; 32]);
    let snap = Snapshot::new(
        ObjectId::from_bytes([1; 32]),
        vec![parent],
        ObjectId::from_bytes([2; 32]),
        Identity::new("Alice", "alice@example.com"),
        Identity::new("Bot", "bot@example.com"),
        "a cut",
        Timestamp::new(77, 60),
    );
    let summary = CutSummary::from_snapshot(&snap);
    assert_eq!(summary.id, snap.id().to_hex());
    assert_eq!(summary.id_short, snap.id().short());
    assert_eq!(summary.change_id, "02".repeat(32));
    assert_eq!(summary.change_id_short, "020202020202");
    assert_eq!(summary.message, "a cut");
    assert_eq!(summary.author_name, "Alice");
    assert_eq!(summary.timestamp, 77);
    assert_eq!(summary.parents, vec!["09".repeat(32)]);
    assert!(!format!("{summary:?}").contains('@'));
}

#[test]
fn status_data_is_slashed_and_says_clean() {
    let clean = Status { added: vec![], modified: vec![], deleted: vec![] };
    assert!(StatusData::from_status(&clean).clean);
    let dirty = Status { added: vec![RepoPath::new("a\\b.txt")], modified: vec![], deleted: vec![] };
    let data = StatusData::from_status(&dirty);
    assert!(!data.clean);
    assert_eq!(data.added, vec!["a/b.txt"]);
}

#[test]
fn lists_are_rendered_one_by_one() {
    assert_eq!(
        paths_to_strings(&[RepoPath::new("x\\y"), RepoPath::new("z")]),
        vec!["x/y", "z"]
    );
    assert_eq!(ids_to_strings(&[ObjectId::from_bytes([0xab; 32])]), vec!["ab".repeat(32)]);
}
