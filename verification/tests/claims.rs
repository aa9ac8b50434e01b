use tack::claims::{claim_command, conflicts, current_claims, release_command, Claim};
use tack::hash::ObjectId;
use tack::object::{Op, OpMetadata, Timestamp};


/// Builds an op carrying `command` at wall-clock second `secs`.
fn op_with_command(command: Vec<String>, secs: i64) -> Op {
    let ts = Timestamp::new(secs, 0);
    let view = ObjectId::from_bytes([0u8; 32]);
    Op::new(vec![], view, OpMetadata::new(ts, ts, "host", "user", command), "test op")
}

fn claim_op(path: &str, holder: &str, note: &str, secs: i64) -> Op {
    op_with_command(claim_command(path, holder, note), secs)
}

fn release_op(path: &str, holder: &str, secs: i64) -> Op {
    op_with_command(release_command(path, holder), secs)
}

/// Folds ops given oldest-first by reversing them into the newest-first
/// order `current_claims` expects.
fn fold_oldest_first(oldest_first: Vec<Op>) -> Vec<Claim> {
    let mut newest_first = oldest_first;
    newest_first.reverse();
    current_claims(&newest_first)
}

#[test]
fn single_claim_is_held() {
    let claims = fold_oldest_first(vec![claim_op("src/model.rs", "alice", "wip", 100)]);
    assert_eq!(claims.len(), 1);
    assert_eq!(claims[0].path, "src/model.rs");
    assert_eq!(claims[0].holder, "alice");
    assert_eq!(claims[0].note, "wip");
    assert_eq!(claims[0].timestamp, 100);
}

#[test]
fn release_cancels_claim() {
    let claims = fold_oldest_first(vec![
        claim_op("src/model.rs", "alice", "", 100),
        release_op("src/model.rs", "alice", 200),
    ]);
    assert!(claims.is_empty(), "release must cancel the claim: {claims:?}");
}

#[test]
fn reclaim_updates_note_and_timestamp() {
    let claims = fold_oldest_first(vec![
        claim_op("a.txt", "alice", "first", 100),
        claim_op("a.txt", "alice", "second", 200),
    ]);
    assert_eq!(claims.len(), 1, "same (path, holder) collapses to one claim");
    assert_eq!(claims[0].note, "second");
    assert_eq!(claims[0].timestamp, 200);
}

#[test]
fn different_holders_coexist() {
    let claims = fold_oldest_first(vec![
        claim_op("a.txt", "alice", "", 100),
        claim_op("a.txt", "bob", "", 110),
    ]);
    assert_eq!(claims.len(), 2, "two holders may advisorily claim the same path");
}

#[test]
fn release_only_affects_matching_holder() {
    let claims = fold_oldest_first(vec![
        claim_op("a.txt", "alice", "", 100),
        claim_op("a.txt", "bob", "", 110),
        release_op("a.txt", "alice", 120),
    ]);
    assert_eq!(claims.len(), 1);
    assert_eq!(claims[0].holder, "bob");
}

#[test]
fn non_claim_ops_are_ignored() {
    let claims = fold_oldest_first(vec![
        op_with_command(vec!["tack".into(), "snapshot".into()], 100),
        claim_op("a.txt", "alice", "", 110),
        op_with_command(vec!["tack".into(), "restore".into(), "--to".into(), "ab".into()], 120),
    ]);
    assert_eq!(claims.len(), 1, "only the claim op contributes");
}

#[test]
fn claims_are_sorted_by_path_then_holder() {
    let claims = fold_oldest_first(vec![
        claim_op("z.txt", "bob", "", 100),
        claim_op("a.txt", "zoe", "", 100),
        claim_op("a.txt", "amy", "", 100),
    ]);
    let keys: Vec<(&str, &str)> =
        claims.iter().map(|c| (c.path.as_str(), c.holder.as_str())).collect();
    assert_eq!(keys, vec![("a.txt", "amy"), ("a.txt", "zoe"), ("z.txt", "bob")]);
}

// ── conflicts ────────────────────────────────────────────────────────────

#[test]
fn conflict_on_same_path_different_holder() {
    let held = fold_oldest_first(vec![claim_op("src/model.rs", "alice", "", 100)]);
    let c = conflicts(&held, "src/model.rs", "bob");
    assert_eq!(c.len(), 1, "different holder on same path conflicts");
    let none = conflicts(&held, "src/model.rs", "alice");
    assert!(none.is_empty(), "same holder is not a conflict (it is a re-claim)");
}

#[test]
fn conflict_on_ancestor_directory() {
    let held = fold_oldest_first(vec![claim_op("src/model.rs", "alice", "", 100)]);
    // Claiming the parent dir conflicts with a child-file claim.
    assert_eq!(conflicts(&held, "src", "bob").len(), 1);
    assert_eq!(conflicts(&held, "src/", "bob").len(), 1, "trailing slash normalised");
}

#[test]
fn no_conflict_on_sibling_paths() {
    let held = fold_oldest_first(vec![claim_op("src/a.rs", "alice", "", 100)]);
    assert!(conflicts(&held, "src/b.rs", "bob").is_empty(), "siblings do not overlap");
}

#[test]
fn whole_repo_claim_conflicts_with_everything() {
    let held = fold_oldest_first(vec![claim_op("", "coordinator", "freeze", 100)]);
    assert_eq!(conflicts(&held, "src/deep/x.rs", "worker").len(), 1);
}
