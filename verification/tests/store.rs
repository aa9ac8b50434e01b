use tack::blob::store_file_bytes;
use tack::error::Error;
use tack::hash::{hash_object, ObjectId, TypeTag};
use tack::object::{tree_entry, Blob, Chunk, EntryKind, Tree};
use tack::store::ObjectStore;
use tack::tree::{find_entry, list_tree, normalize_repo_path, read_tree_path};

#[test]
fn what_is_put_can_be_got() {
    let mut store = ObjectStore::new();
    let id = store.put(TypeTag::Chunk, b"abc".to_vec());
    assert_eq!(id, hash_object(TypeTag::Chunk, b"abc"));
    assert!(store.contains(&id));
    let (tag, bytes) = store.get(&id).expect("object");
    assert_eq!(tag, TypeTag::Chunk);
    assert_eq!(bytes, b"abc");
}

#[test]
fn putting_twice_stores_once() {
    let mut store = ObjectStore::new();
    let a = store.put_chunk(&Chunk::new(b"x".to_vec()));
    let b = store.put_chunk(&Chunk::new(b"x".to_vec()));
    assert_eq!(a, b);
    assert_eq!(store.len(), 1);
}

#[test]
fn many_objects_are_kept_apart() {
    let mut store = ObjectStore::new();
    let ids: Vec<ObjectId> = (0..200u8).map(|i| store.put(TypeTag::Chunk, vec![i])).collect();
    assert_eq!(store.len(), 200);
    for (i, id) in ids.iter().enumerate() {
        assert_eq!(store.get(id).expect("object").1, &[i as u8]);
    }
}

#[test]
fn what_is_not_there_is_not_found() {
    let store = ObjectStore::new();
    let id = ObjectId::from_bytes([7; 32]);
    assert!(matches!(store.get(&id), Err(Error::ObjectNotFound(i)) if i == id));
    assert!(matches!(store.get_blob(&id), Err(Error::ObjectNotFound(_))));
}

#[test]
fn an_object_of_another_kind_is_corrupt() {
    let mut store = ObjectStore::new();
    let id = store.put_blob(&Blob::new(0, vec![]));
    assert!(store.get_blob(&id).is_ok());
    assert!(matches!(store.get_tree(&id), Err(Error::Corruption(_))));
}

#[test]
fn loaded_objects_are_found_under_their_id() {
    let mut store = ObjectStore::new();
    let id = hash_object(TypeTag::Chunk, b"abc");
    store.load(id, TypeTag::Chunk, b"abc".to_vec());
    assert_eq!(store.get_chunk(&id).expect("chunk").data(), b"abc");
}

fn small_tree(store: &mut ObjectStore) -> ObjectId {
    let file = store_file_bytes(store, b"deep");
    let inner = Tree::new(vec![
        tree_entry("deep.txt", 0o100_644, EntryKind::Blob, file).expect("name"),
    ])
    .expect("tree");
    let inner = store.put_tree(&inner);
    let outer = Tree::new(vec![tree_entry("sub", 0o040_000, EntryKind::Tree, inner).expect("name")])
        .expect("tree");
    store.put_tree(&outer)
}

#[test]
fn paths_lead_to_entries() {
    let mut store = ObjectStore::new();
    let root = small_tree(&mut store);
    let entry = read_tree_path(&store, &root, "sub\\deep.txt/").expect("entry");
    assert_eq!(entry.name(), "deep.txt");
    assert_eq!(entry.kind(), EntryKind::Blob);
    let listed = list_tree(&store, &root).expect("entries");
    assert_eq!(listed.len(), 1);
    assert!(find_entry(&listed, "sub").is_some());
    assert!(find_entry(&listed, "deep.txt").is_none());
}

#[test]
fn a_path_that_leads_nowhere_is_told() {
    let mut store = ObjectStore::new();
    let root = small_tree(&mut store);
    let result = read_tree_path(&store, &root, "sub/other.txt");
    assert!(matches!(result, Err(Error::InvalidArgument(m)) if m == "path not found in tree: sub/other.txt"));
}

#[test]
fn paths_are_normalised() {
    assert_eq!(normalize_repo_path("src\\a\\b.rs"), "src/a/b.rs");
    assert_eq!(normalize_repo_path("src/"), "src");
}
