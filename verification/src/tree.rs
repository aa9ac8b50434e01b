//! Reading paths out of a tree of trees.
use vstd::prelude::*;
use vstd::string::*;

use crate::text;
use crate::store;
use crate::ignore;
use crate::error;
use crate::encoding;
use crate::error::{Error, ErrorV};
use crate::hash::{ObjectId, TypeTag};
use crate::ignore::normalize;
use crate::object::{EntryKind, Tree, TreeEntry, TreeEntryV, TreeV};
use crate::store::{ObjectStore, Objects};
use crate::text::{append_text, same_text, split};

verus! {

/// Normalizes a repo-relative path: forward slashes, and none at the ends. The
/// empty path names the whole repository.
pub fn normalize_repo_path(path: &str) -> (r: String)
    ensures
        r@ == ignore::normal_path(path@),
{
    normalize(path)
}

/// The first entry with the given name.
pub open spec fn named(entries: Seq<TreeEntryV>, name: Seq<char>) -> Option<TreeEntryV>
    decreases entries.len(),
{
    if entries.len() == 0 {
        None
    } else if entries[0].name == name {
        Some(entries[0])
    } else {
        named(entries.skip(1), name)
    }
}

/// Why a path cannot be read.
pub open spec fn path_error(path: Seq<char>) -> ErrorV {
    ErrorV::InvalidArgument("path not found in tree: "@ + path)
}

/// The tree under `id`.
pub open spec fn tree_of(objects: Objects, id: Seq<u8>) -> Result<TreeV, ErrorV> {
    store::read_as::<Tree>(objects, id, TypeTag::Tree)
}

/// The entry that the components lead to from the tree `id`; `path` is what an
/// error names.
pub open spec fn entry_at(
    objects: Objects,
    id: Seq<u8>,
    components: Seq<Seq<char>>,
    path: Seq<char>,
) -> Result<TreeEntryV, ErrorV>
    decreases components.len(),
{
    if components.len() == 0 {
        Err(path_error(path))
    } else {
        match tree_of(objects, id) {
            Err(e) => Err(e),
            Ok(tree) => match named(tree.entries, components[0]) {
                None => Err(path_error(path)),
                Some(entry) => if components.len() == 1 {
                    Ok(entry)
                } else if entry.kind is Tree {
                    entry_at(objects, entry.id, components.skip(1), path)
                } else {
                    Err(path_error(path))
                },
            },
        }
    }
}

/// The entry at a path below the tree `id`.
pub open spec fn path_entry(objects: Objects, id: Seq<u8>, path: Seq<char>) -> Result<
    TreeEntryV,
    ErrorV,
> {
    entry_at(objects, id, text::pieces(ignore::normal_path(path), '/'), ignore::normal_path(path))
}

/// The first entry with the given name.
pub fn find_entry(entries: &[TreeEntry], name: &str) -> (r: Option<TreeEntry>)
    ensures
        match r {
            Some(entry) => named(encoding::views(entries@), name@) == Some(entry@),
            None => named(encoding::views(entries@), name@) is None,
        },
{
    let ghost all = encoding::views(entries@);
    let mut i: usize = 0;
    assert(all.skip(0) =~= all);
    while i < entries.len()
        invariant
            i <= entries@.len(),
            all == encoding::views(entries@),
            named(all.skip(i as int), name@) == named(all, name@),
        decreases entries.len() - i,
    {
        assert(all.skip(i as int)[0] == entries@[i as int]@);
        if same_text(entries[i].name(), name) {
            return Some(entries[i].copy());
        }
        assert(all.skip(i as int).skip(1) =~= all.skip(i + 1));
        i += 1;
    }
    None
}

/// The entries of the tree `id`, in their order.
pub fn list_tree(store: &ObjectStore, id: &ObjectId) -> (r: Result<Vec<TreeEntry>, Error>)
    ensures
        match r {
            Ok(entries) => tree_of(store@, id@) == Ok::<TreeV, ErrorV>(
                (TreeV { entries: encoding::views(entries@) }),
            ),
            Err(e) => tree_of(store@, id@) == Err::<TreeV, ErrorV>(e@),
        },
{
    let tree = match store.get_tree(id) {
        Ok(tree) => tree,
        Err(e) => {
            return Err(e);
        },
    };
    let entries = tree.entries();
    let mut out: Vec<TreeEntry> = Vec::new();
    let mut i: usize = 0;
    while i < entries.len()
        invariant
            i <= entries@.len(),
            out@.len() == i,
            forall|k: int| 0 <= k < i ==> (#[trigger] out@[k])@ == entries@[k]@,
        decreases entries.len() - i,
    {
        out.push(entries[i].copy());
        i += 1;
    }
    assert(encoding::views(out@) =~= encoding::views(entries@));
    Ok(out)
}

/// The entry at `path` below the tree `root`.
pub fn read_tree_path(store: &ObjectStore, root: &ObjectId, path: &str) -> (r: Result<
    TreeEntry,
    Error,
>)
    ensures
        error::outcome(r) == path_entry(store@, root@, path@),
{
    let normal = normalize(path);
    let components = split(normal.as_str(), '/');
    let ghost all = text::texts(components@);
    let mut id: ObjectId = *root;
    let mut i: usize = 0;
    assert(all.skip(0) =~= all);
    while i < components.len()
        invariant
            i <= components@.len(),
            all == text::texts(components@),
            all == text::pieces(normal@, '/'),
            normal@ == ignore::normal_path(path@),
            entry_at(store@, id@, all.skip(i as int), normal@) == path_entry(
                store@,
                root@,
                path@,
            ),
        decreases components.len() - i,
    {
        assert(all.skip(i as int)[0] == components@[i as int]@);
        assert(all.skip(i as int).skip(1) =~= all.skip(i + 1));
        let tree = match store.get_tree(&id) {
            Ok(tree) => tree,
            Err(e) => {
                return Err(e);
            },
        };
        match find_entry(tree.entries(), components[i].as_str()) {
            None => {
                return Err(no_such_path(normal.as_str()));
            },
            Some(entry) => {
                if i + 1 == components.len() {
                    return Ok(entry);
                }
                match entry.kind() {
                    EntryKind::Tree => {
                        id = entry.id();
                    },
                    _ => {
                        return Err(no_such_path(normal.as_str()));
                    },
                }
            },
        }
        i += 1;
    }
    Err(no_such_path(normal.as_str()))
}

/// The error for a path that leads nowhere.
fn no_such_path(path: &str) -> (r: Error)
    ensures
        r@ == path_error(path@),
{
    let mut message = "path not found in tree: ".to_owned();
    append_text(&mut message, path);
    Error::InvalidArgument(message)
}

// ── laws ─────────────────────────────────────────────────────────────────────

/// Whether entry `i` is the first with the name.
pub open spec fn first_named(entries: Seq<TreeEntryV>, name: Seq<char>, i: int) -> bool {
    &&& 0 <= i < entries.len()
    &&& entries[i].name == name
    &&& forall|k: int| 0 <= k < i ==> (#[trigger] entries[k]).name != name
}

/// A name stands for the first entry with it, wherever that is; a name that no entry has
/// stands for none.
pub proof fn law_named(entries: Seq<TreeEntryV>, name: Seq<char>)
    ensures
        forall|i: int| #[trigger] first_named(entries, name, i) ==> named(entries, name) == Some(entries[i]),
        (forall|k: int| 0 <= k < entries.len() ==> (#[trigger] entries[k]).name != name) <==> named(
            entries,
            name,
        ) is None,
    decreases entries.len(),
{
    if entries.len() > 0 {
        let rest = entries.skip(1);
        law_named(rest, name);
        assert forall|i: int| #[trigger] first_named(entries, name, i) implies named(entries, name)
            == Some(entries[i]) by {
            if i > 0 {
                assert(entries[0].name != name);
                assert(rest[i - 1] == entries[i]);
                assert forall|k: int| 0 <= k < i - 1 implies (#[trigger] rest[k]).name != name by {
                    assert(entries[k + 1].name != name);
                }
                assert(first_named(rest, name, i - 1));
            }
        }
        if entries[0].name != name {
            if forall|k: int| 0 <= k < entries.len() ==> (#[trigger] entries[k]).name != name {
                assert forall|k: int| 0 <= k < rest.len() implies (#[trigger] rest[k]).name
                    != name by {
                    assert(entries[k + 1].name != name);
                }
            }
            if named(rest, name) is None {
                assert forall|k: int| 0 <= k < entries.len() implies (#[trigger] entries[k]).name
                    != name by {
                    if k > 0 {
                        assert(rest[k - 1].name != name);
                    }
                }
            }
        }
    }
}

/// Whether a text is the name of an entry: not empty, and without a separator.
pub open spec fn plain(name: Seq<char>) -> bool {
    &&& name.len() > 0
    &&& !name.contains('/')
    &&& !name.contains('\\')
}

/// Whether a text is a path with forward slashes, none of them at its ends.
pub open spec fn plain_path(path: Seq<char>) -> bool {
    &&& path.len() > 0
    &&& path[0] != '/'
    &&& path.last() != '/'
    &&& !path.contains('\\')
}

proof fn lemma_one_piece(name: Seq<char>)
    requires
        !name.contains('/'),
    ensures
        text::pieces(name, '/') == seq![name],
    decreases name.len(),
{
    if name.len() > 0 {
        let before = name.drop_last();
        assert(!before.contains('/')) by {
            if before.contains('/') {
                let k = choose|k: int| 0 <= k < before.len() && before[k] == '/';
                assert(name[k] == '/');
            }
        }
        assert(name.contains(name.last()));
        lemma_one_piece(before);
        assert(before.push(name.last()) =~= name);
        assert(text::pieces(name, '/') =~= seq![name]);
    } else {
        assert(name =~= seq![]);
    }
}

proof fn lemma_first_piece(name: Seq<char>, rest: Seq<char>)
    requires
        !name.contains('/'),
    ensures
        text::pieces(name.push('/') + rest, '/') == seq![name] + text::pieces(rest, '/'),
    decreases rest.len(),
{
    let whole = name.push('/') + rest;
    let now = text::pieces(whole, '/');
    if rest.len() == 0 {
        assert(whole.drop_last() =~= name);
        lemma_one_piece(name);
        assert(text::pieces(rest, '/') =~= seq![seq![]]);
        assert(now =~= seq![name] + text::pieces(rest, '/'));
    } else {
        let less = rest.drop_last();
        lemma_first_piece(name, less);
        text::law_pieces(less, '/');
        assert(whole.drop_last() =~= name.push('/') + less);
        assert(whole.last() == rest.last());
        let before = text::pieces(less, '/');
        assert((seq![name] + before).last() == before.last());
        assert((seq![name] + before).drop_last() =~= seq![name] + before.drop_last());
        assert(now =~= seq![name] + text::pieces(rest, '/'));
    }
}

/// Below a tree, a name leads to the first entry with it, and a path through a directory
/// to what the rest of the path leads to below that directory. A name that no entry has, and
/// a path through what is no directory, lead nowhere: the error names the whole path.
pub proof fn law_path_entry(
    objects: Objects,
    id: Seq<u8>,
    tree: TreeV,
    name: Seq<char>,
    rest: Seq<char>,
    i: int,
)
    requires
        tree_of(objects, id) == Ok::<TreeV, ErrorV>(tree),
        plain(name),
        plain_path(rest),
    ensures
        ({
            let whole = name.push('/') + rest;
            let there = path_entry(objects, id, name);
            let below = path_entry(objects, id, whole);
            let entry = tree.entries[i];
            let further = path_entry(objects, entry.id, rest);
            &&& first_named(tree.entries, name, i) ==> there == Ok::<TreeEntryV, ErrorV>(entry)
            &&& first_named(tree.entries, name, i) && entry.kind is Tree ==> (further is Ok <==> below
                is Ok) && (further is Ok ==> below == further)
            &&& first_named(tree.entries, name, i) && !(entry.kind is Tree) ==> below == Err::<
                TreeEntryV,
                ErrorV,
            >(ErrorV::InvalidArgument("path not found in tree: "@ + whole))
            &&& (forall|k: int|
                0 <= k < tree.entries.len() ==> (#[trigger] tree.entries[k]).name != name)
                ==> there == Err::<TreeEntryV, ErrorV>(
                ErrorV::InvalidArgument("path not found in tree: "@ + name),
            ) && below == Err::<TreeEntryV, ErrorV>(
                ErrorV::InvalidArgument("path not found in tree: "@ + whole),
            )
        }),
{
    let whole = name.push('/') + rest;
    law_named(tree.entries, name);
    assert(name.contains(name[0]) && name.contains(name.last()));
    ignore::law_normal_paths_stay(name);
    ignore::law_normal_paths_stay(rest);
    assert(!whole.contains('\\')) by {
        if whole.contains('\\') {
            let k = choose|k: int| 0 <= k < whole.len() && whole[k] == '\\';
            if k < name.len() {
                assert(name[k] == '\\');
            } else if k > name.len() {
                assert(rest[k - name.len() - 1] == '\\');
            }
        }
    }
    assert(whole[0] == name[0] && whole.last() == rest.last());
    ignore::law_normal_paths_stay(whole);
    lemma_one_piece(name);
    lemma_first_piece(name, rest);
    let tail = text::pieces(rest, '/');
    text::law_pieces(rest, '/');
    assert((seq![name] + tail).skip(1) =~= tail);
    if first_named(tree.entries, name, i) && tree.entries[i].kind is Tree {
        lemma_same_entry(objects, tree.entries[i].id, tail, rest, whole);
    }
}

proof fn lemma_same_entry(
    objects: Objects,
    id: Seq<u8>,
    components: Seq<Seq<char>>,
    a: Seq<char>,
    b: Seq<char>,
)
    ensures
        entry_at(objects, id, components, a) is Ok <==> entry_at(objects, id, components, b) is Ok,
        entry_at(objects, id, components, a) is Ok ==> entry_at(objects, id, components, a)
            == entry_at(objects, id, components, b),
    decreases components.len(),
{
    if components.len() > 1 {
        if let Ok(tree) = tree_of(objects, id) {
            if let Some(entry) = named(tree.entries, components[0]) {
                lemma_same_entry(objects, entry.id, components.skip(1), a, b);
            }
        }
    }
}

/// The way that a path is written does not matter: what it leads to is that of the path with
/// forward slashes and none at its ends. Below a tree that cannot be read nothing is found.
pub proof fn law_paths_are_normal(objects: Objects, id: Seq<u8>, a: Seq<char>, b: Seq<char>)
    ensures
        ignore::normal_path(a) == ignore::normal_path(b) ==> path_entry(objects, id, a)
            == path_entry(objects, id, b),
        tree_of(objects, id) matches Err(e) ==> path_entry(objects, id, a) == Err::<
            TreeEntryV,
            ErrorV,
        >(e),
{
    text::law_pieces(ignore::normal_path(a), '/');
}

} // verus!
