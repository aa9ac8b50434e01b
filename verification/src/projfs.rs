//! A lazy projection of a snapshot tree as a file system.
//!
//! The file system is one *projection* of the content-addressed store.
//! [`TackProjection`] answers what a virtual file system asks of it:
//!
//! * `list_directory(path)` maps each immediate tree entry to a
//!   [`DirectoryEntry`]. It is **metadata only**: it never reads the bytes of a
//!   file. Children are handed back in tree order; the file system sorts them
//!   its own way.
//! * `stream_file_content(path, offset, len)` is **lazy hydration**: it reads
//!   exactly that byte range of the file.
use vstd::prelude::*;
use vstd::string::*;

use crate::tree;
use crate::text;
use crate::store;
use crate::error;
use crate::encoding;
use crate::blob;
use crate::blob::read_blob_range;
use crate::error::{Error, ErrorV};
use crate::hash::{ObjectId, TypeTag};
use crate::object::{Blob, EntryKind, TreeEntryV};
use crate::store::{ObjectStore, Objects};
use crate::tree::{list_tree, read_tree_path};

verus! {

/// One child of a projected directory.
#[derive(Debug, Clone, PartialEq, Eq)]
pub enum DirectoryEntry {
    /// A directory.
    Directory {
        /// Its name.
        name: String,
    },
    /// A file, or the file that stands for a symlink.
    File {
        /// Its name.
        name: String,
        /// Its full length in bytes.
        size: u64,
    },
}

/// One child of a projected directory.
pub enum DirectoryEntryV {
    Directory { name: Seq<char> },
    File { name: Seq<char>, size: u64 },
}

impl View for DirectoryEntry {
    type V = DirectoryEntryV;

    open spec fn view(&self) -> DirectoryEntryV {
        match *self {
            DirectoryEntry::Directory { name } => DirectoryEntryV::Directory { name: name@ },
            DirectoryEntry::File { name, size } => DirectoryEntryV::File { name: name@, size },
        }
    }
}

impl DirectoryEntry {
    /// The name of the child.
    pub fn name(&self) -> (r: &str)
        ensures
            r@ == (match self@ {
                DirectoryEntryV::Directory { name } => name,
                DirectoryEntryV::File { name, size } => name,
            }),
    {
        match self {
            DirectoryEntry::Directory { name } => name.as_str(),
            DirectoryEntry::File { name, size: _ } => name.as_str(),
        }
    }
}

/// Why the content of a path cannot be read.
#[derive(Debug)]
pub enum StreamError {
    /// The path names a directory.
    Directory,
    /// Reading failed.
    Read(Error),
}

/// Why the content of a path cannot be read.
pub enum StreamErrorV {
    Directory,
    Read(ErrorV),
}

impl View for StreamError {
    type V = StreamErrorV;

    open spec fn view(&self) -> StreamErrorV {
        match *self {
            StreamError::Directory => StreamErrorV::Directory,
            StreamError::Read(e) => StreamErrorV::Read(e@),
        }
    }
}

impl StreamError {
    /// The human-readable message of the error.
    pub fn message(&self) -> (r: String)
        ensures
            match self@ {
                StreamErrorV::Directory => r@ == "stream_file_content called on a directory"@,
                StreamErrorV::Read(ErrorV::Io) => text::begins_with(r@, error::error_text(ErrorV::Io)),
                StreamErrorV::Read(e) => r@ == error::error_text(e),
            },
    {
        match self {
            StreamError::Directory => "stream_file_content called on a directory".to_owned(),
            StreamError::Read(e) => e.message(),
        }
    }
}

/// The object that a path names, and its kind: the empty path names the root
/// tree itself.
pub open spec fn resolved(objects: Objects, root: Seq<u8>, path: Seq<char>) -> Result<
    (Seq<u8>, EntryKind),
    ErrorV,
> {
    if path.len() == 0 {
        Ok((root, EntryKind::Tree))
    } else {
        match tree::path_entry(objects, root, path) {
            Err(e) => Err(e),
            Ok(entry) => Ok((entry.id, entry.kind)),
        }
    }
}

/// What a tree entry is projected as.
pub open spec fn projected(objects: Objects, entry: TreeEntryV) -> Result<
    DirectoryEntryV,
    ErrorV,
> {
    if entry.kind is Tree {
        Ok(DirectoryEntryV::Directory { name: entry.name })
    } else {
        match store::read_as::<Blob>(objects, entry.id, TypeTag::Blob) {
            Err(e) => Err(e),
            Ok(blob) => Ok(DirectoryEntryV::File { name: entry.name, size: blob.total_len }),
        }
    }
}

/// What tree entries are projected as, in order.
pub open spec fn projected_all(objects: Objects, entries: Seq<TreeEntryV>) -> Result<
    Seq<DirectoryEntryV>,
    ErrorV,
>
    decreases entries.len(),
{
    if entries.len() == 0 {
        Ok(seq![])
    } else {
        match projected_all(objects, entries.drop_last()) {
            Err(e) => Err(e),
            Ok(before) => match projected(objects, entries.last()) {
                Err(e) => Err(e),
                Ok(child) => Ok(before.push(child)),
            },
        }
    }
}

/// The children of the directory at a path; none if the path names a file.
pub open spec fn children_of(objects: Objects, root: Seq<u8>, path: Seq<char>) -> Result<
    Seq<DirectoryEntryV>,
    ErrorV,
> {
    match resolved(objects, root, path) {
        Err(e) => Err(e),
        Ok((id, kind)) => if kind is Tree {
            match tree::tree_of(objects, id) {
                Err(e) => Err(e),
                Ok(tree) => projected_all(objects, tree.entries),
            }
        } else {
            Ok(seq![])
        },
    }
}

/// A range of the content of the file at a path.
pub open spec fn streamed(
    objects: Objects,
    root: Seq<u8>,
    path: Seq<char>,
    offset: int,
    len: int,
) -> Result<Seq<u8>, StreamErrorV> {
    match resolved(objects, root, path) {
        Err(e) => Err(StreamErrorV::Read(e)),
        Ok((id, kind)) => if kind is Tree {
            Err(StreamErrorV::Directory)
        } else {
            match blob::file_range(objects, id, offset, len) {
                Err(e) => Err(StreamErrorV::Read(e)),
                Ok(bytes) => Ok(bytes),
            }
        },
    }
}

/// Where projecting the first entries fails, projecting all of them fails the
/// same.
proof fn lemma_projected_all_fails(objects: Objects, entries: Seq<TreeEntryV>, n: int)
    requires
        0 <= n <= entries.len(),
        projected_all(objects, entries.take(n)) is Err,
    ensures
        projected_all(objects, entries) == projected_all(objects, entries.take(n)),
    decreases entries.len() - n,
{
    if n < entries.len() {
        assert(entries.take(n + 1).drop_last() =~= entries.take(n));
        lemma_projected_all_fails(objects, entries, n + 1);
    } else {
        assert(entries.take(n) =~= entries);
    }
}

/// Streaming a file gives its content: any range of it is that part of the
/// file, cut off at its end, where every chunk is as long as recorded.
pub proof fn lemma_stream_is_part(
    objects: Objects,
    root: Seq<u8>,
    path: Seq<char>,
    id: Seq<u8>,
    kind: EntryKind,
    offset: int,
    len: int,
)
    requires
        0 <= offset,
        0 <= len,
        resolved(objects, root, path) == Ok::<(Seq<u8>, EntryKind), ErrorV>((id, kind)),
        !(kind is Tree),
        store::read_as::<Blob>(objects, id, TypeTag::Blob) matches Ok(blob) && blob::honest(
            objects,
            blob.chunks,
        ),
        blob::file_content(objects, id) is Ok,
    ensures
        ({
            let data = blob::file_content(objects, id)->Ok_0;
            streamed(objects, root, path, offset, len) == Ok::<Seq<u8>, StreamErrorV>(
                data.subrange(
                    blob::least(offset, data.len() as int),
                    blob::least(offset + len, data.len() as int),
                ),
            )
        }),
        ({
            let data = blob::file_content(objects, id)->Ok_0;
            len >= data.len() ==> streamed(objects, root, path, 0, len) == Ok::<
                Seq<u8>,
                StreamErrorV,
            >(data)
        }),
{
    let data = blob::file_content(objects, id)->Ok_0;
    blob::lemma_range_is_part(objects, id, offset, len);
    blob::lemma_range_is_part(objects, id, 0, len);
    assert(data.subrange(0, data.len() as int) =~= data);
}

/// The empty path is the root directory, and any other what stands there below the root.
pub proof fn law_resolved(objects: Objects, root: Seq<u8>, path: Seq<char>, entry: TreeEntryV)
    ensures
        resolved(objects, root, Seq::empty()) == Ok::<(Seq<u8>, EntryKind), ErrorV>(
            (root, EntryKind::Tree),
        ),
        path.len() > 0 && tree::path_entry(objects, root, path) == Ok::<TreeEntryV, ErrorV>(entry)
            ==> resolved(objects, root, path) == Ok::<(Seq<u8>, EntryKind), ErrorV>(
            (entry.id, entry.kind),
        ),
{
}

/// A directory shows one child for each entry of its tree, in order: directories by name,
/// and anything else by name with the length of its file. What is no directory shows none,
/// and what stands nowhere is an error.
pub proof fn law_children(
    objects: Objects,
    root: Seq<u8>,
    path: Seq<char>,
    id: Seq<u8>,
    entries: Seq<TreeEntryV>,
)
    ensures
        ({
            let r = children_of(objects, root, path);
            let kind = resolved(objects, root, path);
            &&& kind == Ok::<(Seq<u8>, EntryKind), ErrorV>((id, EntryKind::Tree)) && (tree::tree_of(
                objects,
                id,
            ) matches Ok(tree) && tree.entries == entries) ==> (r matches Ok(children)
                ==> children.len() == entries.len() && forall|i: int|
                0 <= i < entries.len() ==> {
                    &&& entries[i].kind is Tree ==> #[trigger] children[i]
                        == (DirectoryEntryV::Directory { name: entries[i].name })
                    &&& !(entries[i].kind is Tree) ==> (store::read_as::<Blob>(
                        objects,
                        entries[i].id,
                        TypeTag::Blob,
                    ) matches Ok(blob) && children[i] == (DirectoryEntryV::File {
                        name: entries[i].name,
                        size: blob.total_len,
                    }))
                })
            &&& kind == Ok::<(Seq<u8>, EntryKind), ErrorV>((id, EntryKind::Tree)) && (tree::tree_of(
                objects,
                id,
            ) matches Ok(tree) && tree.entries == entries) && (forall|i: int|
                0 <= i < entries.len() ==> (#[trigger] entries[i]).kind is Tree || store::read_as::<
                    Blob,
                >(objects, entries[i].id, TypeTag::Blob) is Ok) ==> r is Ok
            &&& kind matches Ok((_, EntryKind::Blob)) ==> (r matches Ok(children) && children.len()
                == 0)
            &&& kind matches Err(e) ==> r == Err::<Seq<DirectoryEntryV>, ErrorV>(e)
        }),
{
    lemma_projected_all(objects, entries);
}

proof fn lemma_projected_all(objects: Objects, entries: Seq<TreeEntryV>)
    ensures
        projected_all(objects, entries) matches Ok(children) ==> children.len() == entries.len()
            && forall|i: int|
            0 <= i < entries.len() ==> projected(objects, entries[i]) == Ok::<
                DirectoryEntryV,
                ErrorV,
            >(#[trigger] children[i]),
        (forall|i: int|
            0 <= i < entries.len() ==> (#[trigger] entries[i]).kind is Tree || store::read_as::<
                Blob,
            >(objects, entries[i].id, TypeTag::Blob) is Ok) ==> projected_all(objects, entries) is Ok,
    decreases entries.len(),
{
    if entries.len() > 0 {
        let before = entries.drop_last();
        lemma_projected_all(objects, before);
        if let Ok(children) = projected_all(objects, entries) {
            let first = projected_all(objects, before)->Ok_0;
            assert forall|i: int| 0 <= i < entries.len() implies projected(objects, entries[i])
                == Ok::<DirectoryEntryV, ErrorV>(#[trigger] children[i]) by {
                if i < before.len() {
                    assert(children[i] == first[i]);
                    assert(before[i] == entries[i]);
                }
            }
        }
        if forall|i: int|
            0 <= i < entries.len() ==> (#[trigger] entries[i]).kind is Tree || store::read_as::<
                Blob,
            >(objects, entries[i].id, TypeTag::Blob) is Ok {
            assert forall|i: int| 0 <= i < before.len() implies (#[trigger] before[i]).kind is Tree
                || store::read_as::<Blob>(objects, before[i].id, TypeTag::Blob) is Ok by {
                assert(before[i] == entries[i]);
            }
            let last = entries[entries.len() - 1];
            assert(last.kind is Tree || store::read_as::<Blob>(objects, last.id, TypeTag::Blob)
                is Ok);
        }
    }
}

/// A directory has no content to stream, nor has what stands nowhere.
pub proof fn law_no_stream(objects: Objects, root: Seq<u8>, path: Seq<char>, offset: int, len: int)
    ensures
        resolved(objects, root, path) matches Ok((_, EntryKind::Tree)) ==> streamed(
            objects,
            root,
            path,
            offset,
            len,
        ) == Err::<Seq<u8>, StreamErrorV>(StreamErrorV::Directory),
        resolved(objects, root, path) matches Err(e) ==> streamed(objects, root, path, offset, len)
            == Err::<Seq<u8>, StreamErrorV>(StreamErrorV::Read(e)),
{
}

/// A data source that projects a single snapshot tree out of the
/// content-addressed [`ObjectStore`].
#[derive(Debug)]
pub struct TackProjection {
    /// The store the projected blobs and trees are read from.
    store: ObjectStore,
    /// The root tree being projected (a snapshot's `root_tree`).
    root_tree: ObjectId,
}

impl TackProjection {
    /// The objects of the store.
    pub closed spec fn objects(&self) -> Objects {
        self.store@
    }

    /// The id of the root tree.
    pub closed spec fn root(&self) -> Seq<u8> {
        self.root_tree@
    }

    /// Builds a projection of `root_tree` backed by `store`.
    pub fn new(store: ObjectStore, root_tree: ObjectId) -> (r: Self)
        ensures
            r.objects() == store@,
            r.root() == root_tree@,
    {
        Self { store, root_tree }
    }

    /// Resolves a repo-relative `path` to the object id and kind it names within
    /// the projected root tree. An empty path names the root tree itself.
    fn resolve(&self, path: &str) -> (r: Result<(ObjectId, EntryKind), Error>)
        ensures
            match r {
                Ok((id, kind)) => resolved(self.objects(), self.root(), path@) == Ok::<
                    (Seq<u8>, EntryKind),
                    ErrorV,
                >((id@, kind)),
                Err(e) => resolved(self.objects(), self.root(), path@) == Err::<
                    (Seq<u8>, EntryKind),
                    ErrorV,
                >(e@),
            },
    {
        if path.is_empty() {
            return Ok((self.root_tree, EntryKind::Tree));
        }
        match read_tree_path(&self.store, &self.root_tree, path) {
            Ok(entry) => Ok((entry.id(), entry.kind())),
            Err(e) => Err(e),
        }
    }

    /// Lists the immediate children of the tree at `path`.
    ///
    /// Gives an empty list if `path` does not name a tree. Reads only metadata,
    /// never the bytes of a file.
    pub fn children(&self, path: &str) -> (r: Result<Vec<DirectoryEntry>, Error>)
        ensures
            match r {
                Ok(entries) => children_of(self.objects(), self.root(), path@) == Ok::<
                    Seq<DirectoryEntryV>,
                    ErrorV,
                >(encoding::views(entries@)),
                Err(e) => children_of(self.objects(), self.root(), path@) == Err::<
                    Seq<DirectoryEntryV>,
                    ErrorV,
                >(e@),
            },
    {
        let mut out: Vec<DirectoryEntry> = Vec::new();
        assert(encoding::views(out@) =~= seq![]);
        let (id, kind) = match self.resolve(path) {
            Ok(found) => found,
            Err(e) => {
                return Err(e);
            },
        };
        if !kind.is_tree() {
            return Ok(out);
        }
        let entries = match list_tree(&self.store, &id) {
            Ok(entries) => entries,
            Err(e) => {
                return Err(e);
            },
        };
        let ghost all = encoding::views(entries@);
        let ghost objects = self.objects();
        let mut i: usize = 0;
        proof {
            assert(all.take(0) =~= seq![]);
            assert(all.take(all.len() as int) =~= all);
        }
        while i < entries.len()
            invariant
                i <= entries@.len(),
                all == encoding::views(entries@),
                objects == self.store@,
                all.take(all.len() as int) == all,
                children_of(self.objects(), self.root(), path@) == projected_all(objects, all),
                projected_all(objects, all.take(i as int)) == Ok::<Seq<DirectoryEntryV>, ErrorV>(
                    encoding::views(out@),
                ),
            decreases entries.len() - i,
        {
            let entry = &entries[i];
            let name = entry.name().to_owned();
            proof {
                assert(all.take(i + 1).drop_last() =~= all.take(i as int));
                assert(all.take(i + 1).last() == entry@);
            }
            let child = if entry.kind().is_tree() {
                DirectoryEntry::Directory { name }
            } else {
                match self.store.get_blob(&entry.id()) {
                    Ok(blob) => DirectoryEntry::File { name, size: blob.total_len() },
                    Err(e) => {
                        proof {
                            lemma_projected_all_fails(objects, all, i + 1);
                        }
                        return Err(e);
                    },
                }
            };
            let ghost was = out@;
            out.push(child);
            assert(encoding::views(out@) =~= encoding::views(was).push(child@));
            i += 1;
        }
        Ok(out)
    }

    /// Lists the children of the directory at `path`. Any failure (a missing
    /// tree, an object that cannot be read) means that the directory is empty or
    /// does not exist.
    pub fn list_directory(&self, path: &str) -> (r: Vec<DirectoryEntry>)
        ensures
            encoding::views(r@) == (match children_of(self.objects(), self.root(), path@) {
                Ok(entries) => entries,
                Err(_) => seq![],
            }),
    {
        match self.children(path) {
            Ok(entries) => entries,
            Err(_) => {
                let none: Vec<DirectoryEntry> = Vec::new();
                assert(encoding::views(none@) =~= seq![]);
                none
            },
        }
    }

    /// Reads `length` bytes of the file at `path` from `byte_offset` on, or as
    /// many as there are.
    pub fn stream_file_content(&self, path: &str, byte_offset: usize, length: usize) -> (r: Result<
        Vec<u8>,
        StreamError,
    >)
        ensures
            match r {
                Ok(bytes) => streamed(
                    self.objects(),
                    self.root(),
                    path@,
                    byte_offset as int,
                    length as int,
                ) == Ok::<Seq<u8>, StreamErrorV>(bytes@),
                Err(e) => streamed(
                    self.objects(),
                    self.root(),
                    path@,
                    byte_offset as int,
                    length as int,
                ) == Err::<Seq<u8>, StreamErrorV>(e@),
            },
    {
        let (id, kind) = match self.resolve(path) {
            Ok(found) => found,
            Err(e) => {
                return Err(StreamError::Read(e));
            },
        };
        if kind.is_tree() {
            return Err(StreamError::Directory);
        }
        match read_blob_range(&self.store, &id, byte_offset as u64, length) {
            Ok(bytes) => Ok(bytes),
            Err(e) => Err(StreamError::Read(e)),
        }
    }
}

/// Why a projection cannot be mounted where the platform has no projected file
/// system.
pub const MOUNT_UNAVAILABLE: &'static str =
    "projfs projection is unavailable in this build: rebuild with `--features projfs` on windows and enable the client-projfs feature with `enable-windowsoptionalfeature -online -featurename client-projfs`";

/// Mounts a projection of `root_tree` at `root`: always
/// [`Error::ProjfsUnavailable`], with instructions.
pub fn mount(_root: &str, _store: &ObjectStore, _root_tree: &ObjectId) -> (r: Result<(), Error>)
    ensures
        r is Err,
        r->Err_0@ == ErrorV::ProjfsUnavailable(MOUNT_UNAVAILABLE@),
{
    Err(Error::ProjfsUnavailable(MOUNT_UNAVAILABLE.to_owned()))
}

} // verus!
