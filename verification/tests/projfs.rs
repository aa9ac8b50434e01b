use tack::blob::{read_blob, store_file_bytes};
use tack::error::Error;
use tack::hash::ObjectId;
use tack::object::{tree_entry, EntryKind, Tree};
use tack::projfs::{DirectoryEntry, TackProjection};
use tack::store::ObjectStore;
use tack::tree::read_tree_path;

/// Builds a tree of the given files, directories and all.
fn tree_of(store: &mut ObjectStore, files: &[(&str, &[u8])]) -> ObjectId {
    let mut entries = Vec::new();
    let mut done: Vec<&str> = Vec::new();
    for (path, content) in files {
        match path.split_once('/') {
            None => {
                let id = store_file_bytes(store, content);
                entries.push(tree_entry(path, 0o100_644, EntryKind::Blob, id).expect("valid name"));
            }
            Some((dir, _)) => {
                if done.contains(&dir) {
                    continue;
                }
                done.push(dir);
                let below: Vec<(&str, &[u8])> = files
                    .iter()
                    .filter_map(|(p, c)| match p.split_once('/') {
                        Some((d, rest)) if d == dir => Some((rest, *c)),
                        _ => None,
                    })
                    .collect();
                let id = tree_of(store, &below);
                entries.push(tree_entry(dir, 0o040_000, EntryKind::Tree, id).expect("valid name"));
            }
        }
    }
    let tree = Tree::new(entries).expect("valid tree");
    store.put_tree(&tree)
}

/// A store with a populated tree, and the id of that tree.
fn fixture() -> (ObjectStore, ObjectId) {
    let mut store = ObjectStore::new();
    let root = tree_of(
        &mut store,
        &[("a.txt", b"alpha"), ("b.txt", b"bravo-content-here"), ("sub/deep.txt", b"deep")],
    );
    (store, root)
}

#[test]
fn list_directory_root_maps_entries() -> Result<(), Error> {
    let (store, root) = fixture();
    let proj = TackProjection::new(store, root);

    let mut names: Vec<String> = proj
        .list_directory("")
        .iter()
        .map(|e| e.name().to_owned())
        .collect();
    names.sort();
    assert_eq!(names, vec!["a.txt", "b.txt", "sub"]);
    Ok(())
}

#[test]
fn list_directory_marks_dirs_and_file_sizes() -> Result<(), Error> {
    let (store, root) = fixture();
    let proj = TackProjection::new(store, root);

    for entry in proj.list_directory("") {
        match entry {
            DirectoryEntry::Directory { name } => assert_eq!(name, "sub"),
            DirectoryEntry::File { name, size } if name == "a.txt" => {
                assert_eq!(size, b"alpha".len() as u64);
            }
            DirectoryEntry::File { name, size } if name == "b.txt" => {
                assert_eq!(size, b"bravo-content-here".len() as u64);
            }
            DirectoryEntry::File { name, .. } => panic!("unexpected file entry: {name:?}"),
        }
    }
    Ok(())
}

#[test]
fn list_directory_descends_into_subtree() -> Result<(), Error> {
    let (store, root) = fixture();
    let proj = TackProjection::new(store, root);

    let names: Vec<String> = proj
        .list_directory("sub")
        .iter()
        .map(|e| e.name().to_owned())
        .collect();
    assert_eq!(names, vec!["deep.txt"]);
    Ok(())
}

#[test]
fn list_directory_missing_path_is_empty() -> Result<(), Error> {
    let (store, root) = fixture();
    let proj = TackProjection::new(store, root);
    assert!(proj.list_directory("nope").is_empty());
    Ok(())
}

#[test]
fn list_directory_on_a_file_is_empty() -> Result<(), Error> {
    let (store, root) = fixture();
    let proj = TackProjection::new(store, root);
    // A file path is not a directory → empty list, not an error.
    assert!(proj.list_directory("a.txt").is_empty());
    Ok(())
}

#[test]
fn stream_file_content_full_read_matches_blob() -> Result<(), Error> {
    let (store, root) = fixture();
    let entry = read_tree_path(&store, &root, "b.txt")?;
    let expected = read_blob(&store, &entry.id())?;
    let proj = TackProjection::new(store, root);

    let got = proj.stream_file_content("b.txt", 0, expected.len()).expect("stream");
    assert_eq!(got, expected);
    Ok(())
}

#[test]
fn stream_file_content_partial_range_matches_blob() -> Result<(), Error> {
    let (store, root) = fixture();
    let proj = TackProjection::new(store, root);

    // b.txt = "bravo-content-here"; read 7 bytes from offset 6.
    let got = proj.stream_file_content("b.txt", 6, 7).expect("stream");
    assert_eq!(got, b"content");
    Ok(())
}

#[test]
fn stream_file_content_in_subdir() -> Result<(), Error> {
    let (store, root) = fixture();
    let proj = TackProjection::new(store, root);

    let got = proj.stream_file_content("sub\\deep.txt", 0, 4).expect("stream");
    assert_eq!(got, b"deep");
    Ok(())
}

#[test]
fn stream_file_content_on_directory_errors() -> Result<(), Error> {
    let (store, root) = fixture();
    let proj = TackProjection::new(store, root);
    assert!(proj.stream_file_content("sub", 0, 1).is_err());
    Ok(())
}
