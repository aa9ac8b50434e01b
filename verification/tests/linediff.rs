use tack::blob::store_file_bytes;
use tack::error::Error;
use tack::hash::ObjectId;
use tack::linediff::{build_patch, tree_patch, FilePatch, FileStat, Side, MAX_DIFF_BYTES};
use tack::object::{tree_entry, EntryKind, Tree};
use tack::store::ObjectStore;

/// Builds a tree of the given files, directories and all.
fn tree_of(store: &mut ObjectStore, files: &[(&str, &[u8])]) -> ObjectId {
    let mut entries = Vec::new();
    let mut done: Vec<&str> = Vec::new();
    for (path, content) in files {
        match path.split_once('/') {
            None => {
                let id = store_file_bytes(store, content);
                entries.push(tree_entry(path, 0o100_644, EntryKind::Blob, id).expect("valid name"));
            }
            Some((dir, _)) => {
                if done.contains(&dir) {
                    continue;
                }
                done.push(dir);
                let below: Vec<(&str, &[u8])> = files
                    .iter()
                    .filter_map(|(p, c)| match p.split_once('/') {
                        Some((d, rest)) if d == dir => Some((rest, *c)),
                        _ => None,
                    })
                    .collect();
                let id = tree_of(store, &below);
                entries.push(tree_entry(dir, 0o040_000, EntryKind::Tree, id).expect("valid name"));
            }
        }
    }
    let tree = Tree::new(entries).expect("valid tree");
    store.put_tree(&tree)
}

fn patch_for<'a>(patches: &'a [FilePatch], path: &str) -> &'a FilePatch {
    patches
        .iter()
        .find(|p| p.path == path)
        .unwrap_or_else(|| panic!("no patch for {path}"))
}

#[test]
fn modified_file_reports_inserts_and_deletes() -> Result<(), Error> {
    let mut store = ObjectStore::new();
    let from = tree_of(&mut store, &[("a.txt", b"line1\nline2\nline3\n")]);
    let to = tree_of(&mut store, &[("a.txt", b"line1\nCHANGED\nline3\n")]);
    let patches = tree_patch(&store, &from, &to)?;
    let p = patch_for(&patches, "a.txt");
    assert_eq!(p.change, "modified");
    assert!(!p.binary);
    assert_eq!(p.added_lines, 1, "one inserted line");
    assert_eq!(p.removed_lines, 1, "one deleted line");
    assert_eq!(p.hunks.len(), 1, "one contiguous hunk");
    // The hunk contains the deleted old line and the inserted new line.
    let tags: Vec<&str> = p.hunks[0].lines.iter().map(|l| l.tag.as_str()).collect();
    assert!(tags.contains(&"delete") && tags.contains(&"insert"));
    Ok(())
}

#[test]
fn added_file_is_all_inserts() -> Result<(), Error> {
    let mut store = ObjectStore::new();
    let from = tree_of(&mut store, &[]);
    let to = tree_of(&mut store, &[("new.txt", b"a\nb\nc\n")]);
    let patches = tree_patch(&store, &from, &to)?;
    let p = patch_for(&patches, "new.txt");
    assert_eq!(p.change, "added");
    assert_eq!(p.added_lines, 3);
    assert_eq!(p.removed_lines, 0);
    assert!(p.hunks[0].lines.iter().all(|l| l.tag == "insert"));
    Ok(())
}

#[test]
fn removed_file_is_all_deletes() -> Result<(), Error> {
    let mut store = ObjectStore::new();
    let from = tree_of(&mut store, &[("gone.txt", b"x\ny\n")]);
    let to = tree_of(&mut store, &[]);
    let patches = tree_patch(&store, &from, &to)?;
    let p = patch_for(&patches, "gone.txt");
    assert_eq!(p.change, "removed");
    assert_eq!(p.removed_lines, 2);
    assert_eq!(p.added_lines, 0);
    Ok(())
}

#[test]
fn binary_file_is_reported_without_hunks() -> Result<(), Error> {
    let mut store = ObjectStore::new();
    let from = tree_of(&mut store, &[("b.bin", b"\x00\x01\x02")]);
    let to = tree_of(&mut store, &[("b.bin", b"\x00\x03\x04")]);
    let patches = tree_patch(&store, &from, &to)?;
    let p = patch_for(&patches, "b.bin");
    assert!(p.binary, "a NUL-bearing file must be flagged binary");
    assert!(p.hunks.is_empty());
    Ok(())
}

#[test]
fn stat_projection_matches_patch_counts() -> Result<(), Error> {
    let mut store = ObjectStore::new();
    let from = tree_of(&mut store, &[("a.txt", b"one\n")]);
    let to = tree_of(&mut store, &[("a.txt", b"one\ntwo\nthree\n")]);
    let patches = tree_patch(&store, &from, &to)?;
    let stat = FileStat::from_patch(&patches[0]);
    assert_eq!(stat.added_lines, patches[0].added_lines);
    assert_eq!(stat.added_lines, 2);
    assert_eq!(stat.removed_lines, 0);
    assert_eq!(stat.change, "modified");
    Ok(())
}

#[test]
fn identical_trees_produce_no_patches() -> Result<(), Error> {
    let mut store = ObjectStore::new();
    let from = tree_of(&mut store, &[("a.txt", b"same\n")]);
    let patches = tree_patch(&store, &from, &from)?;
    assert!(patches.is_empty());
    Ok(())
}

// A symlink-target change is a content change and diffs as one line.
#[test]
fn hunk_line_coordinates_are_one_based() -> Result<(), Error> {
    let mut store = ObjectStore::new();
    let from = tree_of(&mut store, &[("f", b"a\nb\nc\nd\ne\n")]);
    let to = tree_of(&mut store, &[("f", b"a\nb\nC\nd\ne\n")]);
    let patches = tree_patch(&store, &from, &to)?;
    let p = patch_for(&patches, "f");
    // A modified file has non-empty spans on both sides, so both starts are
    // 1-based (>= 1).
    assert!(p.hunks[0].old_start >= 1 && p.hunks[0].new_start >= 1);
    Ok(())
}

/// A side that spans zero lines (an added or removed file) must
/// report a `@@` *start* of 0, matching git (`-0,0 +1,N` / `-1,N +0,0`), not
/// the off-by-one `-1,0` / `+1,0` the unconditional `+1` produced.
#[test]
fn added_and_removed_file_hunk_headers_zero_the_empty_side() -> Result<(), Error> {
    let mut store = ObjectStore::new();
    let empty = tree_of(&mut store, &[]);
    let three = tree_of(&mut store, &[("f.txt", b"a\nb\nc\n")]);

    // Added: the old side spans zero lines → old_start must be 0.
    let added = tree_patch(&store, &empty, &three)?;
    let h = &patch_for(&added, "f.txt").hunks[0];
    assert_eq!(
        (h.old_start, h.old_lines),
        (0, 0),
        "added file old side must be -0,0"
    );
    assert_eq!(
        (h.new_start, h.new_lines),
        (1, 3),
        "added file new side must be +1,3"
    );

    // Removed: the new side spans zero lines → new_start must be 0.
    let removed = tree_patch(&store, &three, &empty)?;
    let h = &patch_for(&removed, "f.txt").hunks[0];
    assert_eq!(
        (h.old_start, h.old_lines),
        (1, 3),
        "removed file old side must be -1,3"
    );
    assert_eq!(
        (h.new_start, h.new_lines),
        (0, 0),
        "removed file new side must be +0,0"
    );
    Ok(())
}

/// A file larger than `MAX_DIFF_BYTES` must be reported as binary
/// (no hunks) — and `read_side` must reach that verdict from the blob header
/// without reassembling the whole file. Here we only assert the observable
/// result; the memory bound is structural (see `read_side`).
#[test]
fn oversize_text_file_is_reported_binary_without_diffing() -> Result<(), Error> {
    let mut store = ObjectStore::new();
    // Just over the cap, all ASCII (no NUL) so this exercises the size gate,
    // not the NUL heuristic.
    let big = "x\n".repeat((MAX_DIFF_BYTES / 2) + 1);
    assert!(big.len() > MAX_DIFF_BYTES, "fixture must exceed the cap");
    let from = tree_of(&mut store, &[]);
    let to = tree_of(&mut store, &[("big.txt", big.as_bytes())]);
    let patches = tree_patch(&store, &from, &to)?;
    let p = patch_for(&patches, "big.txt");
    assert!(
        p.binary,
        "a file over MAX_DIFF_BYTES must be reported binary"
    );
    assert!(p.hunks.is_empty(), "oversize file must have no hunks");
    assert_eq!(p.added_lines, 0);
    Ok(())
}

#[test]
fn coordinates_are_those_of_the_lines() {
    let old = "x\n".repeat(4) + &"d\n".repeat(7);
    let new = "d\n".repeat(9);
    let groups = similar::TextDiff::from_lines(&old, &new).grouped_ops(3);
    let backwards = groups.iter().any(|group| {
        let (first, last) = (group.first().expect("first"), group.last().expect("last"));
        last.old_range().end < first.old_range().start
            || last.new_range().end < first.new_range().start
    });
    assert!(backwards, "the ranges of the operations are in order: {groups:?}");
    let mut store = ObjectStore::new();
    let from = tree_of(&mut store, &[("f", old.as_bytes())]);
    let to = tree_of(&mut store, &[("f", new.as_bytes())]);
    let patches = tree_patch(&store, &from, &to).expect("patch");
    let hunks = &patches[0].hunks;
    assert_eq!(hunks.len(), 2);
    let place = |i: usize| (hunks[i].old_start, hunks[i].old_lines, hunks[i].new_start, hunks[i].new_lines);
    assert_eq!(place(0), (1, 7, 1, 3));
    assert_eq!(place(1), (9, 3, 5, 5));
    let count = |i: usize, tag: &str| hunks[i].lines.iter().filter(|line| line.tag == tag).count();
    assert_eq!((count(0, "delete"), count(0, "context"), count(0, "insert")), (4, 3, 0));
    assert_eq!((count(1, "delete"), count(1, "context"), count(1, "insert")), (0, 3, 2));
}

/// The new lines that a patch makes of the old ones.
fn applied(patch: &FilePatch, old: &str) -> Vec<String> {
    let old: Vec<&str> = old.lines().collect();
    let mut out: Vec<String> = Vec::new();
    let mut at = 0;
    for hunk in &patch.hunks {
        let start = hunk.old_start.max(1) - 1;
        while at < start {
            out.push(old[at].to_owned());
            at += 1;
        }
        assert_eq!(out.len(), hunk.new_start.max(1) - 1);
        for line in &hunk.lines {
            if line.tag != "insert" {
                assert_eq!(old[at], line.content);
                at += 1;
            }
            if line.tag != "delete" {
                out.push(line.content.clone());
            }
        }
        assert_eq!(at, start + hunk.old_lines);
    }
    out.extend(old[at..].iter().map(|line| (*line).to_owned()));
    out
}

/// The patch between two texts applies to the first and gives the second, and its
/// counts are those of its hunks.
fn check_patch(old: &str, new: &str) {
    let from = Side::Bytes(old.as_bytes().to_vec());
    let to = Side::Bytes(new.as_bytes().to_vec());
    let patch = build_patch("f", "modified", &from, &to);
    let expected: Vec<&str> = new.lines().collect();
    assert_eq!(applied(&patch, old), expected, "{old:?} {new:?}");
    let count = |tag: &str| {
        let lines = patch.hunks.iter().flat_map(|hunk| hunk.lines.iter());
        lines.filter(|line| line.tag == tag).count()
    };
    assert_eq!(patch.added_lines, count("insert"), "{old:?} {new:?}");
    assert_eq!(patch.removed_lines, count("delete"), "{old:?} {new:?}");
    assert_eq!(old.lines().count() - patch.removed_lines + patch.added_lines, expected.len());
    assert_eq!(old == new, patch.added_lines == 0 && patch.removed_lines == 0);
}

#[test]
fn patches_between_short_texts_apply() {
    let mut texts = vec![String::new()];
    let mut from = 0;
    for _ in 0..6 {
        let until = texts.len();
        for i in from..until {
            for line in ["a\n", "b\n"] {
                let longer = texts[i].clone() + line;
                texts.push(longer);
            }
        }
        from = until;
    }
    for old in &texts {
        for new in &texts {
            check_patch(old, new);
        }
    }
}

#[test]
fn patches_between_long_texts_apply() {
    let mut state: u64 = 7;
    let mut text = |lines: u64, letters: u64| {
        let mut out = String::new();
        for _ in 0..lines {
            state = state.wrapping_mul(6364136223846793005).wrapping_add(1442695040888963407);
            out.push_str(&format!("{}\n", (state >> 33) % letters));
        }
        out
    };
    for round in 0..400 {
        let old = text(round % 130, 2 + round % 5);
        let new = text((round * 7) % 130, 2 + round % 5);
        check_patch(&old, &new);
    }
}
