use tack::blob::store_file_bytes;
use tack::diff::{diff_trees, RepoPath};
use tack::error::Error;
use tack::hash::ObjectId;
use tack::object::{tree_entry, EntryKind, Tree};
use tack::store::ObjectStore;

/// Builds a tree of the given files, directories and all.
fn tree_of(store: &mut ObjectStore, files: &[(&str, &[u8])]) -> ObjectId {
    let mut entries = Vec::new();
    let mut done: Vec<&str> = Vec::new();
    for (path, content) in files {
        match path.split_once('/') {
            None => {
                let id = store_file_bytes(store, content);
                entries.push(tree_entry(path, 0o100_644, EntryKind::Blob, id).expect("valid name"));
            }
            Some((dir, _)) => {
                if done.contains(&dir) {
                    continue;
                }
                done.push(dir);
                let below: Vec<(&str, &[u8])> = files
                    .iter()
                    .filter_map(|(p, c)| match p.split_once('/') {
                        Some((d, rest)) if d == dir => Some((rest, *c)),
                        _ => None,
                    })
                    .collect();
                let id = tree_of(store, &below);
                entries.push(tree_entry(dir, 0o040_000, EntryKind::Tree, id).expect("valid name"));
            }
        }
    }
    let tree = Tree::new(entries).expect("valid tree");
    store.put_tree(&tree)
}

fn paths(slice: &[RepoPath]) -> Vec<String> {
    slice.iter().map(|p| p.as_str().replace('\\', "/")).collect()
}

// ── identical ────────────────────────────────────────────────────────────

#[test]
fn identical_trees_diff_empty() -> Result<(), Error> {
    let mut store = ObjectStore::new();
    let a = tree_of(&mut store, &[("a.txt", b"x"), ("sub/b.txt", b"y")]);
    let diff = diff_trees(&store, &a, &a)?;
    assert!(diff.is_empty());
    Ok(())
}

// ── add ──────────────────────────────────────────────────────────────────

#[test]
fn added_file_detected() -> Result<(), Error> {
    let mut store = ObjectStore::new();
    let from = tree_of(&mut store, &[("a.txt", b"x")]);
    let to = tree_of(&mut store, &[("a.txt", b"x"), ("b.txt", b"new")]);
    let diff = diff_trees(&store, &from, &to)?;
    assert_eq!(paths(diff.added()), vec!["b.txt"]);
    assert!(diff.removed().is_empty());
    assert!(diff.modified().is_empty());
    Ok(())
}

#[test]
fn added_directory_reports_files() -> Result<(), Error> {
    let mut store = ObjectStore::new();
    let from = tree_of(&mut store, &[("a.txt", b"x")]);
    let to = tree_of(&mut store, &[("a.txt", b"x"), ("newdir/c.txt", b"c"), ("newdir/d.txt", b"d")]);
    let diff = diff_trees(&store, &from, &to)?;
    assert_eq!(paths(diff.added()), vec!["newdir/c.txt", "newdir/d.txt"]);
    Ok(())
}

// ── remove ───────────────────────────────────────────────────────────────

#[test]
fn removed_file_detected() -> Result<(), Error> {
    let mut store = ObjectStore::new();
    let from = tree_of(&mut store, &[("a.txt", b"x"), ("gone.txt", b"bye")]);
    let to = tree_of(&mut store, &[("a.txt", b"x")]);
    let diff = diff_trees(&store, &from, &to)?;
    assert_eq!(paths(diff.removed()), vec!["gone.txt"]);
    assert!(diff.added().is_empty());
    Ok(())
}

// ── modify ───────────────────────────────────────────────────────────────

#[test]
fn modified_file_detected() -> Result<(), Error> {
    let mut store = ObjectStore::new();
    let from = tree_of(&mut store, &[("a.txt", b"old")]);
    let to = tree_of(&mut store, &[("a.txt", b"new")]);
    let diff = diff_trees(&store, &from, &to)?;
    assert_eq!(paths(diff.modified()), vec!["a.txt"]);
    assert!(diff.added().is_empty());
    assert!(diff.removed().is_empty());
    Ok(())
}

#[test]
fn nested_modify_detected() -> Result<(), Error> {
    let mut store = ObjectStore::new();
    let from = tree_of(&mut store, &[("keep.txt", b"k"), ("a/b/c.txt", b"v1")]);
    let to = tree_of(&mut store, &[("keep.txt", b"k"), ("a/b/c.txt", b"v2")]);
    let diff = diff_trees(&store, &from, &to)?;
    assert_eq!(paths(diff.modified()), vec!["a/b/c.txt"]);
    Ok(())
}

// ── combined ─────────────────────────────────────────────────────────────

#[test]
fn combined_add_remove_modify() -> Result<(), Error> {
    let mut store = ObjectStore::new();
    let from = tree_of(&mut store, &[("stay.txt", b"same"), ("change.txt", b"before"), ("remove.txt", b"x")]);
    let to = tree_of(&mut store, &[("stay.txt", b"same"), ("change.txt", b"after"), ("add.txt", b"new")]);
    let diff = diff_trees(&store, &from, &to)?;
    assert_eq!(paths(diff.added()), vec!["add.txt"]);
    assert_eq!(paths(diff.removed()), vec!["remove.txt"]);
    assert_eq!(paths(diff.modified()), vec!["change.txt"]);
    Ok(())
}

// ── unchanged subtree is skipped (correctness, not just perf) ─────────────

#[test]
fn unchanged_subtree_yields_no_paths() -> Result<(), Error> {
    let mut store = ObjectStore::new();
    let from = tree_of(&mut store, &[("lib/a.txt", b"shared"), ("lib/b.txt", b"shared2"), ("main.txt", b"one")]);
    let to = tree_of(&mut store, &[("lib/a.txt", b"shared"), ("lib/b.txt", b"shared2"), ("main.txt", b"two")]);
    let diff = diff_trees(&store, &from, &to)?;
    assert_eq!(paths(diff.modified()), vec!["main.txt"]);
    assert!(diff.added().is_empty());
    assert!(diff.removed().is_empty());
    Ok(())
}

#[test]
fn the_way_back_mirrors_the_diff() -> Result<(), Error> {
    let mut store = ObjectStore::new();
    let from = tree_of(&mut store, &[("gone.txt", b"1"), ("kept.txt", b"2"), ("sub/m", b"3")]);
    let to = tree_of(&mut store, &[("kept.txt", b"2"), ("new/n.txt", b"4"), ("sub/m", b"5")]);
    let there = diff_trees(&store, &from, &to)?;
    let back = diff_trees(&store, &to, &from)?;
    assert_eq!(paths(there.added()), vec!["new/n.txt"]);
    assert_eq!(paths(there.removed()), vec!["gone.txt"]);
    assert_eq!(paths(there.modified()), vec!["sub/m"]);
    assert_eq!(there.added(), back.removed());
    assert_eq!(there.removed(), back.added());
    assert_eq!(there.modified(), back.modified());
    Ok(())
}

#[test]
fn an_unknown_tree_does_not_differ_from_itself() -> Result<(), Error> {
    let store = ObjectStore::new();
    let absent = ObjectId::from_bytes([9; 32]);
    assert!(diff_trees(&store, &absent, &absent)?.is_empty());
    Ok(())
}
