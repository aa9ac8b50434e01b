//! Tree-vs-tree diffing.
//!
//! [`diff_trees`] walks two trees in lock-step and reports, at **file
//! granularity**, every repo-relative path that was added, removed or modified
//! between them. Because trees are content-addressed, an unchanged sub-tree has
//! the same id on both sides and is skipped wholesale.
//!
//! A path is:
//!
//! * **added**: a file in `to` and not in `from`;
//! * **removed**: a file in `from` and not in `to`;
//! * **modified**: a file in both, but with different content or a changed kind
//!   (file or symlink). Where a file gives way to a directory, the old file is
//!   *removed* and the directory's files are *added*.
//!
//! Paths use forward slashes and are sorted within each category, component by
//! component.
use vstd::prelude::*;
use vstd::string::*;
use vstd::utf8::*;

use crate::object;
use crate::text;
use crate::encoding;
use crate::tree;
use crate::order;
use crate::error::{Error, ErrorV};
use crate::hash::ObjectId;
use crate::object::{EntryKind, TreeEntry, TreeEntryV};
use crate::order::{sort_stable, text_before, Ranked};
use crate::store::{ObjectStore, Objects};
use crate::text::{append_text, same_text};
use crate::tree::find_entry;

verus! {

/// A path as its components.
pub type Components = Seq<Seq<char>>;

/// The components joined by slashes.
pub open spec fn joined(path: Components) -> Seq<char>
    decreases path.len(),
{
    if path.len() == 0 {
        seq![]
    } else {
        child_text(joined(path.drop_last()), path.last())
    }
}

/// The path of `name` below `prefix`.
pub open spec fn child_text(prefix: Seq<char>, name: Seq<char>) -> Seq<char> {
    if prefix.len() == 0 {
        name
    } else {
        prefix.push('/') + name
    }
}

/// What changed between two trees, as paths.
#[verifier::ext_equal]
pub struct Changes {
    pub added: Seq<Components>,
    pub removed: Seq<Components>,
    pub modified: Seq<Components>,
}

/// No change.
pub open spec fn no_changes() -> Changes {
    Changes { added: seq![], removed: seq![], modified: seq![] }
}

/// The changes of `a`, then those of `b`.
pub open spec fn both_changes(a: Changes, b: Changes) -> Changes {
    Changes {
        added: a.added + b.added,
        removed: a.removed + b.removed,
        modified: a.modified + b.modified,
    }
}

/// Why trees that contain themselves are refused.
pub open spec fn cycle_error() -> ErrorV {
    ErrorV::Corruption("trees are nested in a cycle"@)
}

// ── entries by name ──────────────────────────────────────────────────────────

/// `map` with `entry` under its name: it replaces the entry with that name, or
/// goes before the first that has a greater one.
pub open spec fn placed(map: Seq<TreeEntryV>, entry: TreeEntryV) -> Seq<TreeEntryV>
    decreases map.len(),
{
    if map.len() == 0 {
        seq![entry]
    } else if map[0].name == entry.name {
        seq![entry] + map.skip(1)
    } else if order::lex_lt(order::text_rank(entry.name), order::text_rank(map[0].name)) {
        seq![entry] + map
    } else {
        seq![map[0]] + placed(map.skip(1), entry)
    }
}

/// The entries in ascending order of their names, the last of each name.
pub open spec fn by_name(entries: Seq<TreeEntryV>) -> Seq<TreeEntryV>
    decreases entries.len(),
{
    if entries.len() == 0 {
        seq![]
    } else {
        placed(by_name(entries.drop_last()), entries.last())
    }
}

// ── walking ──────────────────────────────────────────────────────────────────

/// The paths of all files under `entry`, which stands at `path`; trees nest at
/// most `depth` deep.
pub open spec fn collected(
    objects: Objects,
    entry: TreeEntryV,
    path: Components,
    depth: nat,
) -> Result<Seq<Components>, ErrorV>
    decreases depth, 0nat,
{
    if entry.kind is Tree {
        if depth == 0 {
            Err(cycle_error())
        } else {
            match tree::tree_of(objects, entry.id) {
                Err(e) => Err(e),
                Ok(tree) => collected_all(objects, tree.entries, path, (depth - 1) as nat),
            }
        }
    } else {
        Ok(seq![path])
    }
}

/// The paths of all files under the entries of the tree at `path`.
pub open spec fn collected_all(
    objects: Objects,
    entries: Seq<TreeEntryV>,
    path: Components,
    depth: nat,
) -> Result<Seq<Components>, ErrorV>
    decreases depth, entries.len() + 1,
{
    if entries.len() == 0 {
        Ok(seq![])
    } else {
        match collected_all(objects, entries.drop_last(), path, depth) {
            Err(e) => Err(e),
            Ok(before) => match collected(
                objects,
                entries.last(),
                path.push(entries.last().name),
                depth,
            ) {
                Err(e) => Err(e),
                Ok(more) => Ok(before + more),
            },
        }
    }
}

/// The changes between the trees `from` and `to` at `path`.
pub open spec fn compared(
    objects: Objects,
    from: Seq<u8>,
    to: Seq<u8>,
    path: Components,
    depth: nat,
) -> Result<Changes, ErrorV>
    decreases depth, 0nat,
{
    if from == to {
        Ok(no_changes())
    } else if depth == 0 {
        Err(cycle_error())
    } else {
        match tree::tree_of(objects, from) {
            Err(e) => Err(e),
            Ok(f) => match tree::tree_of(objects, to) {
                Err(e) => Err(e),
                Ok(t) => {
                    let old_map = by_name(f.entries);
                    let new_map = by_name(t.entries);
                    match compared_all(objects, old_map, new_map, path, (depth - 1) as nat) {
                        Err(e) => Err(e),
                        Ok(changes) => match only_there(
                            objects,
                            new_map,
                            old_map,
                            path,
                            (depth - 1) as nat,
                        ) {
                            Err(e) => Err(e),
                            Ok(added) => Ok(
                                Changes { added: changes.added + added, ..changes },
                            ),
                        },
                    }
                },
            },
        }
    }
}

/// The changes at the entries of `old_map`.
pub open spec fn compared_all(
    objects: Objects,
    old_map: Seq<TreeEntryV>,
    new_map: Seq<TreeEntryV>,
    path: Components,
    depth: nat,
) -> Result<Changes, ErrorV>
    decreases depth, old_map.len() + 2,
{
    if old_map.len() == 0 {
        Ok(no_changes())
    } else {
        match compared_all(objects, old_map.drop_last(), new_map, path, depth) {
            Err(e) => Err(e),
            Ok(before) => match compared_entry(
                objects,
                old_map.last(),
                tree::named(new_map, old_map.last().name),
                path.push(old_map.last().name),
                depth,
            ) {
                Err(e) => Err(e),
                Ok(more) => Ok(both_changes(before, more)),
            },
        }
    }
}

/// The changes from the entry `old_entry` at `path` to the one that has its
/// name now, if any.
pub open spec fn compared_entry(
    objects: Objects,
    old_entry: TreeEntryV,
    new_entry: Option<TreeEntryV>,
    path: Components,
    depth: nat,
) -> Result<Changes, ErrorV>
    decreases depth, 1nat,
{
    match new_entry {
        None => match collected(objects, old_entry, path, depth) {
            Err(e) => Err(e),
            Ok(removed) => Ok(Changes { removed, ..no_changes() }),
        },
        Some(new_entry) => if old_entry.kind is Tree && new_entry.kind is Tree {
            compared(objects, old_entry.id, new_entry.id, path, depth)
        } else if !(old_entry.kind is Tree) && !(new_entry.kind is Tree) {
            if old_entry.id != new_entry.id || old_entry.kind != new_entry.kind {
                Ok(Changes { modified: seq![path], ..no_changes() })
            } else {
                Ok(no_changes())
            }
        } else {
            match collected(objects, old_entry, path, depth) {
                Err(e) => Err(e),
                Ok(removed) => match collected(objects, new_entry, path, depth) {
                    Err(e) => Err(e),
                    Ok(added) => Ok(Changes { added, removed, modified: seq![] }),
                },
            }
        },
    }
}

/// The paths of the files under those entries of `map` whose names `other` does
/// not have.
pub open spec fn only_there(
    objects: Objects,
    map: Seq<TreeEntryV>,
    other: Seq<TreeEntryV>,
    path: Components,
    depth: nat,
) -> Result<Seq<Components>, ErrorV>
    decreases map.len(),
{
    if map.len() == 0 {
        Ok(seq![])
    } else {
        match only_there(objects, map.drop_last(), other, path, depth) {
            Err(e) => Err(e),
            Ok(before) => if tree::named(other, map.last().name) is Some {
                Ok(before)
            } else {
                match collected(objects, map.last(), path.push(map.last().name), depth) {
                    Err(e) => Err(e),
                    Ok(more) => Ok(before + more),
                }
            },
        }
    }
}

/// The changes between two trees. Trees nested deeper than there are objects
/// contain themselves.
pub open spec fn tree_changes(objects: Objects, from: Seq<u8>, to: Seq<u8>) -> Result<
    Changes,
    ErrorV,
> {
    compared(objects, from, to, seq![], objects.dom().len() + 1)
}

// ── what a tree holds ────────────────────────────────────────────────────────

/// The file at a path below the tree `id`, if there is one.
pub open spec fn file_at(objects: Objects, id: Seq<u8>, path: Components) -> Option<TreeEntryV>
    decreases path.len(), 0nat,
{
    if path.len() == 0 {
        None
    } else {
        match tree::tree_of(objects, id) {
            Err(_) => None,
            Ok(tree) => match tree::named(tree.entries, path[0]) {
                None => None,
                Some(entry) => file_under(objects, entry, path.skip(1)),
            },
        }
    }
}

/// The file at a path below an entry, if there is one: a file stands at its own
/// place only.
pub open spec fn file_under(objects: Objects, entry: TreeEntryV, path: Components) -> Option<
    TreeEntryV,
>
    decreases path.len(), 1nat,
{
    if entry.kind is Tree {
        file_at(objects, entry.id, path)
    } else if path.len() == 0 {
        Some(entry)
    } else {
        None
    }
}

/// Whether the tree `id` has the tree `child` as a directory.
pub open spec fn has_directory(objects: Objects, id: Seq<u8>, child: Seq<u8>) -> bool {
    tree::tree_of(objects, id) matches Ok(tree) && exists|k: int|
        0 <= k < tree.entries.len() && (#[trigger] tree.entries[k]).kind is Tree
            && tree.entries[k].id == child
}

/// Whether each of the trees is a directory of the one before it.
pub open spec fn nested(objects: Objects, ids: Seq<Seq<u8>>) -> bool {
    forall|i: int, j: int|
        0 <= i < ids.len() && j == i + 1 && j < ids.len() ==> has_directory(
            objects,
            #[trigger] ids[i],
            #[trigger] ids[j],
        )
}

/// Whether the tree `id` is `root` or stands below it.
pub open spec fn reaches(objects: Objects, root: Seq<u8>, id: Seq<u8>) -> bool {
    exists|ids: Seq<Seq<u8>>| #[trigger]
        nested(objects, ids) && ids.len() > 0 && ids[0] == root && ids.last() == id
}

/// Whether neither the tree `root` nor one below it has two entries of one name.
pub open spec fn names_distinct(objects: Objects, root: Seq<u8>) -> bool {
    forall|id: Seq<u8>| #[trigger]
        reaches(objects, root, id) && tree::tree_of(objects, id) is Ok ==> distinct_names(
            tree::tree_of(objects, id)->Ok_0.entries,
        )
}

/// Whether an entry is no directory, or one below which names are distinct.
spec fn distinct_at(objects: Objects, entry: TreeEntryV) -> bool {
    entry.kind is Tree ==> names_distinct(objects, entry.id)
}

/// Whether names are distinct below all entries.
spec fn distinct_below(objects: Objects, entries: Seq<TreeEntryV>) -> bool {
    forall|i: int| 0 <= i < entries.len() ==> distinct_at(objects, #[trigger] entries[i])
}

/// Whether no two entries have one name.
pub open spec fn distinct_names(entries: Seq<TreeEntryV>) -> bool {
    forall|i: int, j: int|
        0 <= i < j < entries.len() ==> (#[trigger] entries[i]).name != (#[trigger] entries[j]).name
}

/// Whether `path` leads through `prefix`.
pub open spec fn under(path: Components, prefix: Components) -> bool {
    prefix.len() <= path.len() && path.take(prefix.len() as int) == prefix
}

/// Whether `paths` are, each below `prefix`, the paths that satisfy `p`.
pub open spec fn are_those(
    paths: Seq<Components>,
    prefix: Components,
    p: spec_fn(Components) -> bool,
) -> bool {
    forall|q: Components|
        #[trigger] paths.contains(q) <==> under(q, prefix) && p(q.skip(prefix.len() as int))
}

/// What is named in `entries` is an entry of it with that name.
proof fn lemma_named(entries: Seq<TreeEntryV>, name: Seq<char>)
    ensures
        match tree::named(entries, name) {
            Some(e) => entries.contains(e) && e.name == name,
            None => forall|i: int| 0 <= i < entries.len() ==> (#[trigger] entries[i]).name != name,
        },
    decreases entries.len(),
{
    if entries.len() > 0 && entries[0].name != name {
        lemma_named(entries.skip(1), name);
        match tree::named(entries.skip(1), name) {
            Some(e) => {
                let k = choose|k: int| 0 <= k < entries.skip(1).len() && entries.skip(1)[k] == e;
                assert(entries[k + 1] == e);
            },
            None => {
                assert forall|i: int| 0 <= i < entries.len() implies (
                #[trigger] entries[i]).name != name by {
                    if i > 0 {
                        assert(entries.skip(1)[i - 1] == entries[i]);
                    }
                }
            },
        }
    } else if entries.len() > 0 {
        assert(entries[0].name == name);
    }
}

/// What the last entry adds to the names.
proof fn lemma_named_push(entries: Seq<TreeEntryV>, name: Seq<char>)
    requires
        entries.len() > 0,
    ensures
        tree::named(entries, name) == (match tree::named(entries.drop_last(), name) {
            Some(e) => Some(e),
            None => if entries.last().name == name {
                Some(entries.last())
            } else {
                None
            },
        }),
    decreases entries.len(),
{
    if entries.len() == 1 {
        assert(tree::named(entries.skip(1), name) is None);
    } else if entries[0].name != name {
        lemma_named_push(entries.skip(1), name);
        assert(entries.skip(1).drop_last() =~= entries.drop_last().skip(1));
    }
}

/// Placing an entry changes what its name stands for and nothing else.
proof fn lemma_placed_named(map: Seq<TreeEntryV>, entry: TreeEntryV, name: Seq<char>)
    ensures
        tree::named(placed(map, entry), name) == (if name == entry.name {
            Some(entry)
        } else {
            tree::named(map, name)
        }),
    decreases map.len(),
{
    let r = placed(map, entry);
    if map.len() == 0 {
        assert(r.skip(1) =~= map);
    } else if map[0].name == entry.name {
        assert(r.skip(1) =~= map.skip(1));
    } else if order::lex_lt(order::text_rank(entry.name), order::text_rank(map[0].name)) {
        assert(r.skip(1) =~= map);
    } else {
        lemma_placed_named(map.skip(1), entry, name);
        assert(r.skip(1) =~= placed(map.skip(1), entry));
    }
}

/// Whether the names ascend.
spec fn ascending(map: Seq<TreeEntryV>) -> bool {
    forall|i: int, j: int|
        0 <= i < j < map.len() ==> order::lex_lt(
            order::text_rank((#[trigger] map[i]).name),
            order::text_rank((#[trigger] map[j]).name),
        )
}

/// Every entry of the result of placing is the placed one or was there.
proof fn lemma_placed_elements(map: Seq<TreeEntryV>, entry: TreeEntryV)
    ensures
        forall|i: int|
            0 <= i < placed(map, entry).len() ==> (#[trigger] placed(map, entry)[i] == entry
                || map.contains(placed(map, entry)[i])),
    decreases map.len(),
{
    let r = placed(map, entry);
    if map.len() > 0 {
        lemma_placed_elements(map.skip(1), entry);
        assert forall|i: int| 0 <= i < r.len() implies (#[trigger] r[i] == entry
            || map.contains(r[i])) by {
            if map[0].name == entry.name {
                if i > 0 {
                    assert(map[i] == r[i]);
                }
            } else if order::lex_lt(order::text_rank(entry.name), order::text_rank(map[0].name)) {
                if i > 0 {
                    assert(map[i - 1] == r[i]);
                }
            } else if i == 0 {
                assert(map[0] == r[0]);
            } else {
                let x = placed(map.skip(1), entry)[i - 1];
                assert(r[i] == x);
                if x != entry {
                    let k = choose|k: int| 0 <= k < map.skip(1).len() && map.skip(1)[k] == x;
                    assert(map[k + 1] == x);
                }
            }
        }
    }
}

/// Placing keeps the names ascending.
proof fn lemma_placed_ascending(map: Seq<TreeEntryV>, entry: TreeEntryV)
    requires
        ascending(map),
    ensures
        ascending(placed(map, entry)),
    decreases map.len(),
{
    let r = placed(map, entry);
    if map.len() == 0 {
    } else if map[0].name == entry.name {
        assert forall|i: int, j: int| 0 <= i < j < r.len() implies order::lex_lt(
            order::text_rank((#[trigger] r[i]).name),
            order::text_rank((#[trigger] r[j]).name),
        ) by {
            assert(r[j] == map[j]);
            assert(r[i].name == map[i].name);
        }
    } else if order::lex_lt(order::text_rank(entry.name), order::text_rank(map[0].name)) {
        assert forall|i: int, j: int| 0 <= i < j < r.len() implies order::lex_lt(
            order::text_rank((#[trigger] r[i]).name),
            order::text_rank((#[trigger] r[j]).name),
        ) by {
            assert(r[j] == map[j - 1]);
            if i > 0 {
                assert(r[i] == map[i - 1]);
            } else if j > 1 {
                assert(order::lex_lt(order::text_rank(map[0].name), order::text_rank(map[j - 1].name)));
                order::lemma_lex_transitive(
                    order::text_rank(entry.name),
                    order::text_rank(map[0].name),
                    order::text_rank(map[j - 1].name),
                );
            }
        }
    } else {
        let d = map.skip(1);
        let t = placed(d, entry);
        assert forall|i: int, j: int| 0 <= i < j < d.len() implies order::lex_lt(
            order::text_rank((#[trigger] d[i]).name),
            order::text_rank((#[trigger] d[j]).name),
        ) by {
            assert(d[i] == map[i + 1]);
            assert(d[j] == map[j + 1]);
        }
        lemma_placed_ascending(d, entry);
        lemma_placed_elements(d, entry);
        assert forall|i: int, j: int| 0 <= i < j < r.len() implies order::lex_lt(
            order::text_rank((#[trigger] r[i]).name),
            order::text_rank((#[trigger] r[j]).name),
        ) by {
            assert(r[j] == t[j - 1]);
            if i > 0 {
                assert(r[i] == t[i - 1]);
            } else if t[j - 1] == entry {
                order::lemma_lex_total(order::text_rank(map[0].name), order::text_rank(entry.name));
                if order::text_rank(map[0].name) == order::text_rank(entry.name) {
                    order::lemma_text_rank_injective(map[0].name, entry.name);
                }
            } else {
                let k = choose|k: int| 0 <= k < d.len() && d[k] == t[j - 1];
                assert(map[k + 1] == t[j - 1]);
            }
        }
    }
}

/// What `by_name` gives: ascending names, each standing for its last entry.
proof fn lemma_by_name(entries: Seq<TreeEntryV>)
    ensures
        ascending(by_name(entries)),
        distinct_names(by_name(entries)),
        distinct_names(entries) ==> forall|name: Seq<char>| #[trigger]
            tree::named(by_name(entries), name) == tree::named(entries, name),
    decreases entries.len(),
{
    if entries.len() > 0 {
        let before = entries.drop_last();
        lemma_by_name(before);
        lemma_placed_ascending(by_name(before), entries.last());
        if distinct_names(entries) {
            assert(distinct_names(before)) by {
                assert forall|i: int, j: int| 0 <= i < j < before.len() implies (
                #[trigger] before[i]).name != (#[trigger] before[j]).name by {
                    assert(before[i] == entries[i]);
                    assert(before[j] == entries[j]);
                }
            }
            assert forall|name: Seq<char>| #[trigger]
                tree::named(by_name(entries), name) == tree::named(entries, name) by {
                lemma_placed_named(by_name(before), entries.last(), name);
                lemma_named_push(entries, name);
                lemma_named(before, name);
                if name == entries.last().name && tree::named(before, name) is Some {
                    let k = choose|k: int|
                        0 <= k < before.len() && before[k] == tree::named(before, name)->Some_0;
                    assert(entries[k].name != entries[entries.len() - 1].name);
                }
            }
        }
    }
    let map = by_name(entries);
    assert forall|i: int, j: int| 0 <= i < j < map.len() implies (#[trigger] map[i]).name != (
    #[trigger] map[j]).name by {
        order::lemma_lex_irreflexive(order::text_rank(map[i].name));
    }
}

/// Distinct names below a tree are distinct in it and below its entries.
proof fn lemma_distinct_in(objects: Objects, id: Seq<u8>)
    requires
        names_distinct(objects, id),
        tree::tree_of(objects, id) is Ok,
    ensures
        distinct_names(tree::tree_of(objects, id)->Ok_0.entries),
        distinct_below(objects, tree::tree_of(objects, id)->Ok_0.entries),
        distinct_below(objects, by_name(tree::tree_of(objects, id)->Ok_0.entries)),
{
    let entries = tree::tree_of(objects, id)->Ok_0.entries;
    let only = seq![id];
    assert(nested(objects, only) && only[0] == id && only.last() == id);
    assert(reaches(objects, id, id));
    assert forall|k: int| 0 <= k < entries.len() implies distinct_at(
        objects,
        #[trigger] entries[k],
    ) by {
        if entries[k].kind is Tree {
            let child = entries[k].id;
            assert forall|x: Seq<u8>| #[trigger]
                reaches(objects, child, x) && tree::tree_of(objects, x) is Ok implies distinct_names(
                tree::tree_of(objects, x)->Ok_0.entries,
            ) by {
                let ids = choose|ids: Seq<Seq<u8>>| #[trigger]
                    nested(objects, ids) && ids.len() > 0 && ids[0] == child && ids.last() == x;
                let longer = seq![id] + ids;
                assert forall|i: int, j: int|
                    0 <= i < longer.len() && j == i + 1 && j < longer.len() implies has_directory(
                    objects,
                    #[trigger] longer[i],
                    #[trigger] longer[j],
                ) by {
                    assert(longer[j] == ids[j - 1]);
                    if i > 0 {
                        assert(longer[i] == ids[i - 1]);
                    }
                }
                assert(nested(objects, longer) && longer[0] == id && longer.last() == x);
                assert(reaches(objects, id, x));
            }
        }
    }
    lemma_by_name_below(objects, entries);
}

proof fn lemma_by_name_below(objects: Objects, entries: Seq<TreeEntryV>)
    requires
        distinct_below(objects, entries),
    ensures
        distinct_below(objects, by_name(entries)),
    decreases entries.len(),
{
    if entries.len() > 0 {
        let before = entries.drop_last();
        let map = by_name(entries);
        lemma_below_rest(objects, entries);
        lemma_by_name_below(objects, before);
        lemma_placed_elements(by_name(before), entries.last());
        assert forall|i: int| 0 <= i < map.len() implies distinct_at(objects, #[trigger] map[i]) by {
            if map[i] != entries.last() {
                let old = by_name(before);
                let k = choose|k: int| 0 <= k < old.len() && old[k] == map[i];
                assert(distinct_at(objects, old[k]));
            }
        }
    }
}

proof fn lemma_below_rest(objects: Objects, entries: Seq<TreeEntryV>)
    requires
        entries.len() > 0,
        distinct_below(objects, entries),
    ensures
        distinct_below(objects, entries.drop_last()),
        distinct_at(objects, entries.last()),
{
    let rest = entries.drop_last();
    assert forall|i: int| 0 <= i < rest.len() implies distinct_at(objects, #[trigger] rest[i]) by {
        assert(rest[i] == entries[i]);
    }
    assert(distinct_at(objects, entries[entries.len() - 1]));
}

proof fn lemma_below_named(objects: Objects, entries: Seq<TreeEntryV>, name: Seq<char>)
    requires
        distinct_below(objects, entries),
    ensures
        tree::named(entries, name) matches Some(e) ==> distinct_at(objects, e),
{
    lemma_named(entries, name);
    if let Some(e) = tree::named(entries, name) {
        let k = choose|k: int| 0 <= k < entries.len() && entries[k] == e;
        assert(distinct_at(objects, entries[k]));
    }
}

// ── what the changes are ─────────────────────────────────────────────────────

/// The file at a path below a tree with the given entries, if there is one.
pub open spec fn file_in(objects: Objects, entries: Seq<TreeEntryV>, path: Components) -> Option<
    TreeEntryV,
> {
    if path.len() == 0 {
        None
    } else {
        match tree::named(entries, path[0]) {
            None => None,
            Some(entry) => file_under(objects, entry, path.skip(1)),
        }
    }
}

/// The file at a path below an entry, if there is an entry and a file.
pub open spec fn file_under_any(
    objects: Objects,
    entry: Option<TreeEntryV>,
    path: Components,
) -> Option<TreeEntryV> {
    match entry {
        None => None,
        Some(entry) => file_under(objects, entry, path),
    }
}

/// Whether both are files, and they differ in content or kind.
pub open spec fn modified(old_file: Option<TreeEntryV>, new_file: Option<TreeEntryV>) -> bool {
    &&& old_file is Some
    &&& new_file is Some
    &&& old_file->Some_0.id != new_file->Some_0.id || old_file->Some_0.kind
        != new_file->Some_0.kind
}

/// A path through a child of `prefix`.
proof fn lemma_under_child(q: Components, prefix: Components, name: Seq<char>)
    ensures
        under(q, prefix.push(name)) == (under(q, prefix) && q.len() > prefix.len()
            && q[prefix.len() as int] == name),
        under(q, prefix.push(name)) ==> q.skip((prefix.len() + 1) as int) == q.skip(
            prefix.len() as int,
        ).skip(1) && q.skip(prefix.len() as int)[0] == name,
{
    let n = prefix.len() as int;
    let child = prefix.push(name);
    if under(q, child) {
        assert(q.take(n) =~= prefix) by {
            assert forall|i: int| 0 <= i < n implies q[i] == prefix[i] by {
                assert(q.take(n + 1)[i] == child[i]);
            }
        }
        assert(q[n] == q.take(n + 1)[n]);
        assert(q.skip(n + 1) =~= q.skip(n).skip(1));
    } else if under(q, prefix) && q.len() > n && q[n] == name {
        assert forall|i: int| 0 <= i < n + 1 implies q[i] == child[i] by {
            if i < n {
                assert(q.take(n)[i] == prefix[i]);
            }
        }
        assert(q.take(n + 1) =~= child);
    }
}

/// The only path through `prefix` with nothing behind it is `prefix`.
proof fn lemma_under_itself(q: Components, prefix: Components)
    ensures
        (under(q, prefix) && q.skip(prefix.len() as int).len() == 0) == (q == prefix),
{
    if under(q, prefix) && q.skip(prefix.len() as int).len() == 0 {
        assert(q =~= q.take(prefix.len() as int));
    }
    if q == prefix {
        assert(q.take(prefix.len() as int) =~= prefix);
    }
}

/// What is in a concatenation is in one of its parts.
proof fn lemma_contains_either(a: Seq<Components>, b: Seq<Components>, q: Components)
    ensures
        (a + b).contains(q) == (a.contains(q) || b.contains(q)),
{
    if a.contains(q) {
        let k = choose|k: int| 0 <= k < a.len() && a[k] == q;
        assert((a + b)[k] == q);
    }
    if b.contains(q) {
        let k = choose|k: int| 0 <= k < b.len() && b[k] == q;
        assert((a + b)[a.len() + k] == q);
    }
    if (a + b).contains(q) {
        let k = choose|k: int| 0 <= k < (a + b).len() && (a + b)[k] == q;
        if k < a.len() {
            assert(a[k] == q);
        } else {
            assert(b[k - a.len()] == q);
        }
    }
}

/// Without its last entry a list still has distinct names, and none of them is
/// that of the last.
proof fn lemma_distinct_before(entries: Seq<TreeEntryV>)
    requires
        distinct_names(entries),
        entries.len() > 0,
    ensures
        distinct_names(entries.drop_last()),
        tree::named(entries.drop_last(), entries.last().name) is None,
{
    let before = entries.drop_last();
    assert forall|i: int, j: int| 0 <= i < j < before.len() implies (#[trigger] before[i]).name
        != (#[trigger] before[j]).name by {
        assert(before[i] == entries[i]);
        assert(before[j] == entries[j]);
    }
    lemma_named(before, entries.last().name);
    if tree::named(before, entries.last().name) is Some {
        let e = tree::named(before, entries.last().name)->Some_0;
        let k = choose|k: int| 0 <= k < before.len() && before[k] == e;
        assert(entries[k].name != entries[entries.len() - 1].name);
    }
}

/// Collecting gives exactly the files under the entry.
proof fn lemma_collected(objects: Objects, entry: TreeEntryV, path: Components, depth: nat)
    requires
        distinct_at(objects, entry),
        collected(objects, entry, path, depth) is Ok,
    ensures
        are_those(
            collected(objects, entry, path, depth)->Ok_0,
            path,
            |r: Components| file_under(objects, entry, r) is Some,
        ),
    decreases depth, 0nat,
{
    let paths = collected(objects, entry, path, depth)->Ok_0;
    if entry.kind is Tree {
        let entries = tree::tree_of(objects, entry.id)->Ok_0.entries;
        lemma_distinct_in(objects, entry.id);
        lemma_collected_all(objects, entries, path, (depth - 1) as nat);
        assert forall|q: Components| #[trigger] paths.contains(q) <==> under(q, path)
            && file_under(objects, entry, q.skip(path.len() as int)) is Some by {
            let r = q.skip(path.len() as int);
            assert(file_under(objects, entry, r) == file_at(objects, entry.id, r));
            assert(file_at(objects, entry.id, r) == file_in(objects, entries, r));
        }
    } else {
        assert forall|q: Components| #[trigger] paths.contains(q) <==> under(q, path)
            && file_under(objects, entry, q.skip(path.len() as int)) is Some by {
            lemma_under_itself(q, path);
            assert(paths[0] == path);
        }
    }
}

proof fn lemma_collected_all(
    objects: Objects,
    entries: Seq<TreeEntryV>,
    path: Components,
    depth: nat,
)
    requires
        distinct_below(objects, entries),
        distinct_names(entries),
        collected_all(objects, entries, path, depth) is Ok,
    ensures
        are_those(
            collected_all(objects, entries, path, depth)->Ok_0,
            path,
            |r: Components| file_in(objects, entries, r) is Some,
        ),
    decreases depth, entries.len() + 1,
{
    let paths = collected_all(objects, entries, path, depth)->Ok_0;
    if entries.len() > 0 {
        let before = entries.drop_last();
        let last = entries.last();
        let child = path.push(last.name);
        let some = collected_all(objects, before, path, depth)->Ok_0;
        let more = collected(objects, last, child, depth)->Ok_0;
        lemma_distinct_before(entries);
        lemma_below_rest(objects, entries);
        lemma_collected_all(objects, before, path, depth);
        lemma_collected(objects, last, child, depth);
        assert forall|q: Components| #[trigger] paths.contains(q) <==> under(q, path)
            && file_in(objects, entries, q.skip(path.len() as int)) is Some by {
            let r = q.skip(path.len() as int);
            lemma_contains_either(some, more, q);
            lemma_under_child(q, path, last.name);
            assert(some.contains(q) <==> under(q, path) && file_in(objects, before, r) is Some);
            assert(more.contains(q) <==> under(q, child) && file_under(
                objects,
                last,
                q.skip(child.len() as int),
            ) is Some);
            if r.len() > 0 {
                lemma_named_push(entries, r[0]);
            }
        }
    } else {
        assert forall|q: Components| #[trigger] paths.contains(q) <==> under(q, path)
            && file_in(objects, entries, q.skip(path.len() as int)) is Some by {}
    }
}

/// The changes are exactly the files that came, went and changed, given what
/// was a file before and what is one now.
pub open spec fn tells(
    changes: Changes,
    path: Components,
    old_file: spec_fn(Components) -> Option<TreeEntryV>,
    new_file: spec_fn(Components) -> Option<TreeEntryV>,
) -> bool {
    &&& are_those(
        changes.added,
        path,
        |r: Components| new_file(r) is Some && old_file(r) is None,
    )
    &&& are_those(
        changes.removed,
        path,
        |r: Components| old_file(r) is Some && new_file(r) is None,
    )
    &&& are_those(changes.modified, path, |r: Components| modified(old_file(r), new_file(r)))
}

proof fn lemma_compared_entry(
    objects: Objects,
    old_entry: TreeEntryV,
    new_entry: Option<TreeEntryV>,
    path: Components,
    depth: nat,
)
    requires
        distinct_at(objects, old_entry),
        new_entry matches Some(e) ==> distinct_at(objects, e),
        compared_entry(objects, old_entry, new_entry, path, depth) is Ok,
    ensures
        tells(
            compared_entry(objects, old_entry, new_entry, path, depth)->Ok_0,
            path,
            |r: Components| file_under(objects, old_entry, r),
            |r: Components| file_under_any(objects, new_entry, r),
        ),
    decreases depth, 1nat,
{
    let changes = compared_entry(objects, old_entry, new_entry, path, depth)->Ok_0;
    let n = path.len() as int;
    match new_entry {
        None => {
            lemma_collected(objects, old_entry, path, depth);
        },
        Some(new_entry) => {
            if old_entry.kind is Tree && new_entry.kind is Tree {
                lemma_compared(objects, old_entry.id, new_entry.id, path, depth);
                assert forall|q: Components|
                    (#[trigger] changes.added.contains(q) <==> under(q, path) && file_under(
                        objects,
                        new_entry,
                        q.skip(n),
                    ) is Some && file_under(objects, old_entry, q.skip(n)) is None) by {}
                assert forall|q: Components|
                    (#[trigger] changes.removed.contains(q) <==> under(q, path) && file_under(
                        objects,
                        old_entry,
                        q.skip(n),
                    ) is Some && file_under(objects, new_entry, q.skip(n)) is None) by {}
                assert forall|q: Components|
                    (#[trigger] changes.modified.contains(q) <==> under(q, path) && modified(
                        file_under(objects, old_entry, q.skip(n)),
                        file_under(objects, new_entry, q.skip(n)),
                    )) by {}
            } else if !(old_entry.kind is Tree) && !(new_entry.kind is Tree) {
                assert forall|q: Components|
                    (#[trigger] changes.modified.contains(q) <==> under(q, path) && modified(
                        file_under(objects, old_entry, q.skip(n)),
                        file_under(objects, new_entry, q.skip(n)),
                    )) by {
                    lemma_under_itself(q, path);
                    if changes.modified.len() > 0 {
                        assert(changes.modified[0] == path);
                    }
                }
            } else {
                lemma_collected(objects, old_entry, path, depth);
                lemma_collected(objects, new_entry, path, depth);
                // A file has nothing below it, and no directory is a file.
                assert forall|r: Components|
                    !(#[trigger] file_under(objects, old_entry, r) is Some && file_under(
                        objects,
                        new_entry,
                        r,
                    ) is Some) by {}
            }
        },
    }
}

proof fn lemma_compared_all(
    objects: Objects,
    old_map: Seq<TreeEntryV>,
    new_map: Seq<TreeEntryV>,
    path: Components,
    depth: nat,
)
    requires
        distinct_below(objects, old_map),
        distinct_below(objects, new_map),
        distinct_names(old_map),
        compared_all(objects, old_map, new_map, path, depth) is Ok,
    ensures
        ({
            let changes = compared_all(objects, old_map, new_map, path, depth)->Ok_0;
            &&& are_those(
                changes.added,
                path,
                |r: Components|
                    file_in(objects, new_map, r) is Some && file_in(objects, old_map, r) is None
                        && tree::named(old_map, r[0]) is Some,
            )
            &&& are_those(
                changes.removed,
                path,
                |r: Components|
                    file_in(objects, old_map, r) is Some && file_in(objects, new_map, r) is None,
            )
            &&& are_those(
                changes.modified,
                path,
                |r: Components|
                    modified(file_in(objects, old_map, r), file_in(objects, new_map, r)),
            )
        }),
    decreases depth, old_map.len() + 2,
{
    let changes = compared_all(objects, old_map, new_map, path, depth)->Ok_0;
    let n = path.len() as int;
    if old_map.len() > 0 {
        let before_map = old_map.drop_last();
        let last = old_map.last();
        let new_entry = tree::named(new_map, last.name);
        let child = path.push(last.name);
        let before = compared_all(objects, before_map, new_map, path, depth)->Ok_0;
        let more = compared_entry(objects, last, new_entry, child, depth)->Ok_0;
        lemma_distinct_before(old_map);
        lemma_below_rest(objects, old_map);
        lemma_below_named(objects, new_map, last.name);
        lemma_compared_all(objects, before_map, new_map, path, depth);
        lemma_compared_entry(objects, last, new_entry, child, depth);
        assert forall|q: Components|
            (#[trigger] changes.added.contains(q) <==> under(q, path) && file_in(
                objects,
                new_map,
                q.skip(n),
            ) is Some && file_in(objects, old_map, q.skip(n)) is None && tree::named(
                old_map,
                q.skip(n)[0],
            ) is Some) by {
            let r = q.skip(n);
            lemma_contains_either(before.added, more.added, q);
            lemma_under_child(q, path, last.name);
            assert(before.added.contains(q) <==> under(q, path) && file_in(objects, new_map, r)
                is Some && file_in(objects, before_map, r) is None && tree::named(
                before_map,
                r[0],
            ) is Some);
            assert(more.added.contains(q) <==> under(q, child) && file_under_any(
                objects,
                new_entry,
                q.skip(child.len() as int),
            ) is Some && file_under(objects, last, q.skip(child.len() as int)) is None);
            if r.len() > 0 {
                lemma_named_push(old_map, r[0]);
            }
        }
        assert forall|q: Components|
            (#[trigger] changes.removed.contains(q) <==> under(q, path) && file_in(
                objects,
                old_map,
                q.skip(n),
            ) is Some && file_in(objects, new_map, q.skip(n)) is None) by {
            let r = q.skip(n);
            lemma_contains_either(before.removed, more.removed, q);
            lemma_under_child(q, path, last.name);
            assert(before.removed.contains(q) <==> under(q, path) && file_in(
                objects,
                before_map,
                r,
            ) is Some && file_in(objects, new_map, r) is None);
            assert(more.removed.contains(q) <==> under(q, child) && file_under(
                objects,
                last,
                q.skip(child.len() as int),
            ) is Some && file_under_any(objects, new_entry, q.skip(child.len() as int)) is None);
            if r.len() > 0 {
                lemma_named_push(old_map, r[0]);
            }
        }
        assert forall|q: Components|
            (#[trigger] changes.modified.contains(q) <==> under(q, path) && modified(
                file_in(objects, old_map, q.skip(n)),
                file_in(objects, new_map, q.skip(n)),
            )) by {
            let r = q.skip(n);
            lemma_contains_either(before.modified, more.modified, q);
            lemma_under_child(q, path, last.name);
            assert(before.modified.contains(q) <==> under(q, path) && modified(
                file_in(objects, before_map, r),
                file_in(objects, new_map, r),
            ));
            assert(more.modified.contains(q) <==> under(q, child) && modified(
                file_under(objects, last, q.skip(child.len() as int)),
                file_under_any(objects, new_entry, q.skip(child.len() as int)),
            ));
            if r.len() > 0 {
                lemma_named_push(old_map, r[0]);
            }
        }
    }
}

proof fn lemma_only_there(
    objects: Objects,
    map: Seq<TreeEntryV>,
    other: Seq<TreeEntryV>,
    path: Components,
    depth: nat,
)
    requires
        distinct_below(objects, map),
        distinct_names(map),
        only_there(objects, map, other, path, depth) is Ok,
    ensures
        are_those(
            only_there(objects, map, other, path, depth)->Ok_0,
            path,
            |r: Components|
                file_in(objects, map, r) is Some && tree::named(other, r[0]) is None,
        ),
    decreases map.len(),
{
    let paths = only_there(objects, map, other, path, depth)->Ok_0;
    let n = path.len() as int;
    if map.len() > 0 {
        let before_map = map.drop_last();
        let last = map.last();
        let child = path.push(last.name);
        let before = only_there(objects, before_map, other, path, depth)->Ok_0;
        lemma_distinct_before(map);
        lemma_below_rest(objects, map);
        lemma_only_there(objects, before_map, other, path, depth);
        let more = if tree::named(other, last.name) is Some {
            seq![]
        } else {
            collected(objects, last, child, depth)->Ok_0
        };
        assert(paths =~= before + more);
        if tree::named(other, last.name) is None {
            lemma_collected(objects, last, child, depth);
        }
        assert forall|q: Components|
            (#[trigger] paths.contains(q) <==> under(q, path) && file_in(objects, map, q.skip(n))
                is Some && tree::named(other, q.skip(n)[0]) is None) by {
            let r = q.skip(n);
            lemma_contains_either(before, more, q);
            lemma_under_child(q, path, last.name);
            assert(before.contains(q) <==> under(q, path) && file_in(objects, before_map, r)
                is Some && tree::named(other, r[0]) is None);
            if tree::named(other, last.name) is None {
                assert(more.contains(q) <==> under(q, child) && file_under(
                    objects,
                    last,
                    q.skip(child.len() as int),
                ) is Some);
            }
            if r.len() > 0 {
                lemma_named_push(map, r[0]);
            }
        }
    }
}

/// The changes between two trees are exactly the files that came, went and
/// changed.
pub proof fn lemma_compared(
    objects: Objects,
    from: Seq<u8>,
    to: Seq<u8>,
    path: Components,
    depth: nat,
)
    requires
        names_distinct(objects, from),
        names_distinct(objects, to),
        compared(objects, from, to, path, depth) is Ok,
    ensures
        tells(
            compared(objects, from, to, path, depth)->Ok_0,
            path,
            |r: Components| file_at(objects, from, r),
            |r: Components| file_at(objects, to, r),
        ),
    decreases depth, 0nat,
{
    let changes = compared(objects, from, to, path, depth)->Ok_0;
    let n = path.len() as int;
    if from != to {
        let f = tree::tree_of(objects, from)->Ok_0.entries;
        let t = tree::tree_of(objects, to)->Ok_0.entries;
        let old_map = by_name(f);
        let new_map = by_name(t);
        let d = (depth - 1) as nat;
        lemma_by_name(f);
        lemma_by_name(t);
        lemma_distinct_in(objects, from);
        lemma_distinct_in(objects, to);
        lemma_compared_all(objects, old_map, new_map, path, d);
        lemma_only_there(objects, new_map, old_map, path, d);
        let some = compared_all(objects, old_map, new_map, path, d)->Ok_0;
        let more = only_there(objects, new_map, old_map, path, d)->Ok_0;
        assert forall|r: Components| #[trigger] file_at(objects, from, r) == file_in(
            objects,
            old_map,
            r,
        ) by {}
        assert forall|r: Components| #[trigger] file_at(objects, to, r) == file_in(
            objects,
            new_map,
            r,
        ) by {}
        assert forall|q: Components|
            (#[trigger] changes.added.contains(q) <==> under(q, path) && file_at(
                objects,
                to,
                q.skip(n),
            ) is Some && file_at(objects, from, q.skip(n)) is None) by {
            lemma_contains_either(some.added, more, q);
            assert(some.added.contains(q) <==> under(q, path) && file_in(
                objects,
                new_map,
                q.skip(n),
            ) is Some && file_in(objects, old_map, q.skip(n)) is None && tree::named(
                old_map,
                q.skip(n)[0],
            ) is Some);
            assert(more.contains(q) <==> under(q, path) && file_in(objects, new_map, q.skip(n))
                is Some && tree::named(old_map, q.skip(n)[0]) is None);
        }
    }
}

/// The diff of two trees tells exactly which files came, went and changed.
pub proof fn lemma_diff_is_exact(objects: Objects, from: Seq<u8>, to: Seq<u8>, path: Components)
    requires
        names_distinct(objects, from),
        names_distinct(objects, to),
        tree_changes(objects, from, to) is Ok,
    ensures
        ({
            let changes = tree_changes(objects, from, to)->Ok_0;
            let old_file = file_at(objects, from, path);
            let new_file = file_at(objects, to, path);
            &&& changes.added.contains(path) <==> old_file is None && new_file is Some
            &&& changes.removed.contains(path) <==> old_file is Some && new_file is None
            &&& changes.modified.contains(path) <==> modified(old_file, new_file)
        }),
{
    lemma_compared(objects, from, to, seq![], objects.dom().len() + 1);
    assert(path.take(0) =~= seq![]);
    assert(path.skip(0) =~= path);
}

/// A tree does not differ from itself.
pub proof fn lemma_same_tree_no_changes(objects: Objects, id: Seq<u8>)
    ensures
        tree_changes(objects, id, id) == Ok::<Changes, ErrorV>(no_changes()),
{
}

// ── when there is a diff ─────────────────────────────────────────────────────

/// Whether a tree stands below itself.
pub open spec fn below_itself(objects: Objects, id: Seq<u8>) -> bool {
    exists|ids: Seq<Seq<u8>>| #[trigger]
        nested(objects, ids) && ids.len() > 1 && ids[0] == id && ids.last() == id
}

/// Whether the tree `root` and all below it can be read, and none of them stands
/// below itself.
pub open spec fn whole(objects: Objects, root: Seq<u8>) -> bool {
    forall|id: Seq<u8>| #[trigger]
        reaches(objects, root, id) ==> tree::tree_of(objects, id) is Ok && !below_itself(objects, id)
}

/// Whether the directories among the entries are those of the tree `id`.
spec fn entries_of(objects: Objects, id: Seq<u8>, entries: Seq<TreeEntryV>) -> bool {
    forall|i: int|
        0 <= i < entries.len() ==> entry_of(objects, id, #[trigger] entries[i])
}

spec fn entry_of(objects: Objects, id: Seq<u8>, entry: TreeEntryV) -> bool {
    entry.kind is Tree ==> has_directory(objects, id, entry.id)
}

/// Whether the trees lead down from `root`.
spec fn leads_down(objects: Objects, root: Seq<u8>, ids: Seq<Seq<u8>>) -> bool {
    nested(objects, ids) && ids.len() > 0 && ids[0] == root
}

/// A way down through a whole tree is no longer than there are objects.
proof fn lemma_way_down(objects: Objects, root: Seq<u8>, ids: Seq<Seq<u8>>)
    requires
        objects.dom().finite(),
        whole(objects, root),
        leads_down(objects, root, ids),
    ensures
        ids.len() <= objects.dom().len(),
        tree::tree_of(objects, ids.last()) is Ok,
{
    assert forall|i: int| 0 <= i < ids.len() implies reaches(objects, root, #[trigger] ids[i]) by {
        let start = ids.take(i + 1);
        assert forall|a: int, b: int|
            0 <= a < start.len() && b == a + 1 && b < start.len() implies has_directory(
            objects,
            #[trigger] start[a],
            #[trigger] start[b],
        ) by {
            assert(start[a] == ids[a] && start[b] == ids[b]);
        }
        assert(nested(objects, start) && start[0] == root && start.last() == ids[i]);
    }
    assert(ids.no_duplicates()) by {
        assert forall|i: int, j: int| 0 <= i < ids.len() && 0 <= j < ids.len() && i != j implies
            ids[i] != ids[j] by {
            if ids[i] == ids[j] {
                let x = if i < j { i } else { j };
                let y = if i < j { j } else { i };
                let round = ids.subrange(x, y + 1);
                assert forall|a: int, b: int|
                    0 <= a < round.len() && b == a + 1 && b < round.len() implies has_directory(
                    objects,
                    #[trigger] round[a],
                    #[trigger] round[b],
                ) by {
                    assert(round[a] == ids[x + a] && round[b] == ids[x + b]);
                }
                assert(nested(objects, round) && round[0] == ids[x] && round.last() == ids[x]);
                assert(below_itself(objects, ids[x]));
                assert(reaches(objects, root, ids[x]));
            }
        }
    }
    assert forall|i: int| 0 <= i < ids.len() implies objects.dom().contains(#[trigger] ids[i]) by {
        assert(reaches(objects, root, ids[i]));
        assert(tree::tree_of(objects, ids[i]) is Ok);
    }
    ids.unique_seq_to_set();
    assert(ids.to_set().subset_of(objects.dom()));
    vstd::set_lib::lemma_len_subset(ids.to_set(), objects.dom());
    assert(reaches(objects, root, ids[ids.len() - 1]));
}

/// One step further down.
proof fn lemma_step_down(objects: Objects, root: Seq<u8>, ids: Seq<Seq<u8>>, child: Seq<u8>)
    requires
        leads_down(objects, root, ids),
        has_directory(objects, ids.last(), child),
    ensures
        leads_down(objects, root, ids.push(child)),
{
    let more = ids.push(child);
    assert forall|a: int, b: int| 0 <= a < more.len() && b == a + 1 && b < more.len() implies
        has_directory(objects, #[trigger] more[a], #[trigger] more[b]) by {
        assert(more[a] == ids[a]);
        if b < ids.len() {
            assert(more[b] == ids[b]);
        }
    }
}

/// The entries of a tree are its own, by name or as they stand.
proof fn lemma_own_entries(objects: Objects, id: Seq<u8>)
    requires
        tree::tree_of(objects, id) is Ok,
    ensures
        entries_of(objects, id, tree::tree_of(objects, id)->Ok_0.entries),
        entries_of(objects, id, by_name(tree::tree_of(objects, id)->Ok_0.entries)),
{
    let entries = tree::tree_of(objects, id)->Ok_0.entries;
    assert forall|i: int| 0 <= i < entries.len() implies entry_of(
        objects,
        id,
        #[trigger] entries[i],
    ) by {}
    lemma_own_by_name(objects, id, entries);
}

proof fn lemma_own_by_name(objects: Objects, id: Seq<u8>, entries: Seq<TreeEntryV>)
    requires
        entries_of(objects, id, entries),
    ensures
        entries_of(objects, id, by_name(entries)),
    decreases entries.len(),
{
    if entries.len() > 0 {
        let before = entries.drop_last();
        let map = by_name(entries);
        lemma_own_rest(objects, id, entries);
        lemma_own_by_name(objects, id, before);
        lemma_placed_elements(by_name(before), entries.last());
        assert forall|i: int| 0 <= i < map.len() implies entry_of(objects, id, #[trigger] map[i]) by {
            if map[i] != entries.last() {
                let old = by_name(before);
                let k = choose|k: int| 0 <= k < old.len() && old[k] == map[i];
                assert(entry_of(objects, id, old[k]));
            }
        }
    }
}

proof fn lemma_own_rest(objects: Objects, id: Seq<u8>, entries: Seq<TreeEntryV>)
    requires
        entries.len() > 0,
        entries_of(objects, id, entries),
    ensures
        entries_of(objects, id, entries.drop_last()),
        entry_of(objects, id, entries.last()),
{
    let rest = entries.drop_last();
    assert forall|i: int| 0 <= i < rest.len() implies entry_of(objects, id, #[trigger] rest[i]) by {
        assert(rest[i] == entries[i]);
    }
    assert(entry_of(objects, id, entries[entries.len() - 1]));
}

proof fn lemma_own_named(objects: Objects, id: Seq<u8>, entries: Seq<TreeEntryV>, name: Seq<char>)
    requires
        entries_of(objects, id, entries),
    ensures
        tree::named(entries, name) matches Some(e) ==> entry_of(objects, id, e),
{
    lemma_named(entries, name);
    if let Some(e) = tree::named(entries, name) {
        let k = choose|k: int| 0 <= k < entries.len() && entries[k] == e;
        assert(entry_of(objects, id, entries[k]));
    }
}

/// What stands below a whole tree can be collected.
proof fn lemma_can_collect(
    objects: Objects,
    root: Seq<u8>,
    ids: Seq<Seq<u8>>,
    entry: TreeEntryV,
    path: Components,
    depth: nat,
)
    requires
        objects.dom().finite(),
        whole(objects, root),
        leads_down(objects, root, ids),
        entry_of(objects, ids.last(), entry),
        depth + ids.len() == objects.dom().len() + 1,
    ensures
        collected(objects, entry, path, depth) is Ok,
    decreases depth, 0nat,
{
    if entry.kind is Tree {
        let more = ids.push(entry.id);
        lemma_step_down(objects, root, ids, entry.id);
        lemma_way_down(objects, root, more);
        lemma_own_entries(objects, entry.id);
        lemma_can_collect_all(
            objects,
            root,
            more,
            tree::tree_of(objects, entry.id)->Ok_0.entries,
            path,
            (depth - 1) as nat,
        );
    }
}

proof fn lemma_can_collect_all(
    objects: Objects,
    root: Seq<u8>,
    ids: Seq<Seq<u8>>,
    entries: Seq<TreeEntryV>,
    path: Components,
    depth: nat,
)
    requires
        objects.dom().finite(),
        whole(objects, root),
        leads_down(objects, root, ids),
        entries_of(objects, ids.last(), entries),
        depth + ids.len() == objects.dom().len() + 1,
    ensures
        collected_all(objects, entries, path, depth) is Ok,
    decreases depth, entries.len() + 1,
{
    if entries.len() > 0 {
        lemma_own_rest(objects, ids.last(), entries);
        lemma_can_collect_all(objects, root, ids, entries.drop_last(), path, depth);
        lemma_can_collect(
            objects,
            root,
            ids,
            entries.last(),
            path.push(entries.last().name),
            depth,
        );
    }
}

proof fn lemma_can_list(
    objects: Objects,
    root: Seq<u8>,
    ids: Seq<Seq<u8>>,
    map: Seq<TreeEntryV>,
    other: Seq<TreeEntryV>,
    path: Components,
    depth: nat,
)
    requires
        objects.dom().finite(),
        whole(objects, root),
        leads_down(objects, root, ids),
        entries_of(objects, ids.last(), map),
        depth + ids.len() == objects.dom().len() + 1,
    ensures
        only_there(objects, map, other, path, depth) is Ok,
    decreases map.len(),
{
    if map.len() > 0 {
        lemma_own_rest(objects, ids.last(), map);
        lemma_can_list(objects, root, ids, map.drop_last(), other, path, depth);
        lemma_can_collect(objects, root, ids, map.last(), path.push(map.last().name), depth);
    }
}

/// The two trees that a comparison has come to, each with the way down to it.
spec fn come_to(
    objects: Objects,
    from: Seq<u8>,
    old_ids: Seq<Seq<u8>>,
    to: Seq<u8>,
    new_ids: Seq<Seq<u8>>,
) -> bool {
    &&& objects.dom().finite()
    &&& whole(objects, from)
    &&& whole(objects, to)
    &&& leads_down(objects, from, old_ids)
    &&& leads_down(objects, to, new_ids)
    &&& old_ids.len() == new_ids.len()
}

proof fn lemma_can_compare(
    objects: Objects,
    from: Seq<u8>,
    old_ids: Seq<Seq<u8>>,
    to: Seq<u8>,
    new_ids: Seq<Seq<u8>>,
    path: Components,
    depth: nat,
)
    requires
        come_to(objects, from, old_ids, to, new_ids),
        depth + old_ids.len() == objects.dom().len() + 2,
    ensures
        compared(objects, old_ids.last(), new_ids.last(), path, depth) is Ok,
    decreases depth, 0nat,
{
    let a = old_ids.last();
    let b = new_ids.last();
    lemma_way_down(objects, from, old_ids);
    lemma_way_down(objects, to, new_ids);
    if a != b {
        lemma_own_entries(objects, a);
        lemma_own_entries(objects, b);
        let old_map = by_name(tree::tree_of(objects, a)->Ok_0.entries);
        let new_map = by_name(tree::tree_of(objects, b)->Ok_0.entries);
        let d = (depth - 1) as nat;
        lemma_can_compare_all(objects, from, old_ids, to, new_ids, old_map, new_map, path, d);
        lemma_can_list(objects, to, new_ids, new_map, old_map, path, d);
    }
}

proof fn lemma_can_compare_all(
    objects: Objects,
    from: Seq<u8>,
    old_ids: Seq<Seq<u8>>,
    to: Seq<u8>,
    new_ids: Seq<Seq<u8>>,
    old_map: Seq<TreeEntryV>,
    new_map: Seq<TreeEntryV>,
    path: Components,
    depth: nat,
)
    requires
        come_to(objects, from, old_ids, to, new_ids),
        entries_of(objects, old_ids.last(), old_map),
        entries_of(objects, new_ids.last(), new_map),
        depth + old_ids.len() == objects.dom().len() + 1,
    ensures
        compared_all(objects, old_map, new_map, path, depth) is Ok,
    decreases depth, old_map.len() + 2,
{
    if old_map.len() > 0 {
        let last = old_map.last();
        let rest = old_map.drop_last();
        let entry = tree::named(new_map, last.name);
        lemma_own_rest(objects, old_ids.last(), old_map);
        lemma_own_named(objects, new_ids.last(), new_map, last.name);
        lemma_can_compare_all(objects, from, old_ids, to, new_ids, rest, new_map, path, depth);
        lemma_can_compare_entry(
            objects,
            from,
            old_ids,
            to,
            new_ids,
            last,
            entry,
            path.push(last.name),
            depth,
        );
    }
}

proof fn lemma_can_compare_entry(
    objects: Objects,
    from: Seq<u8>,
    old_ids: Seq<Seq<u8>>,
    to: Seq<u8>,
    new_ids: Seq<Seq<u8>>,
    old_entry: TreeEntryV,
    new_entry: Option<TreeEntryV>,
    path: Components,
    depth: nat,
)
    requires
        come_to(objects, from, old_ids, to, new_ids),
        entry_of(objects, old_ids.last(), old_entry),
        new_entry matches Some(e) ==> entry_of(objects, new_ids.last(), e),
        depth + old_ids.len() == objects.dom().len() + 1,
    ensures
        compared_entry(objects, old_entry, new_entry, path, depth) is Ok,
    decreases depth, 1nat,
{
    match new_entry {
        None => {
            lemma_can_collect(objects, from, old_ids, old_entry, path, depth);
        },
        Some(new_entry) => {
            if old_entry.kind is Tree && new_entry.kind is Tree {
                lemma_step_down(objects, from, old_ids, old_entry.id);
                lemma_step_down(objects, to, new_ids, new_entry.id);
                lemma_can_compare(
                    objects,
                    from,
                    old_ids.push(old_entry.id),
                    to,
                    new_ids.push(new_entry.id),
                    path,
                    depth,
                );
            } else if old_entry.kind is Tree || new_entry.kind is Tree {
                lemma_can_collect(objects, from, old_ids, old_entry, path, depth);
                lemma_can_collect(objects, to, new_ids, new_entry, path, depth);
            }
        },
    }
}

/// Trees that can be read, with all that stands below them, have a diff.
pub proof fn lemma_whole_trees_have_a_diff(objects: Objects, from: Seq<u8>, to: Seq<u8>)
    requires
        objects.dom().finite(),
        whole(objects, from),
        whole(objects, to),
    ensures
        tree_changes(objects, from, to) is Ok,
{
    let old_ids = seq![from];
    let new_ids = seq![to];
    assert(nested(objects, old_ids) && old_ids[0] == from && old_ids.last() == from);
    assert(nested(objects, new_ids) && new_ids[0] == to && new_ids.last() == to);
    lemma_can_compare(objects, from, old_ids, to, new_ids, seq![], objects.dom().len() + 1);
}

// ── each path once ───────────────────────────────────────────────────────────

/// Whether the paths are all different and lead through `path`.
spec fn once_under(paths: Seq<Components>, path: Components) -> bool {
    &&& paths.no_duplicates()
    &&& forall|i: int| 0 <= i < paths.len() ==> under(#[trigger] paths[i], path)
}

/// Whether the paths are all different and lead through `path` and an entry.
spec fn once_through(paths: Seq<Components>, path: Components, entries: Seq<TreeEntryV>) -> bool {
    &&& paths.no_duplicates()
    &&& forall|i: int|
        0 <= i < paths.len() ==> under(#[trigger] paths[i], path) && paths[i].len() > path.len()
            && tree::named(entries, paths[i][path.len() as int]) is Some
}

proof fn lemma_none_once(path: Components, entries: Seq<TreeEntryV>)
    ensures
        once_under(seq![], path),
        once_through(seq![], path, entries),
{
}

proof fn lemma_one_once(path: Components)
    ensures
        once_under(seq![path], path),
{
    lemma_under_itself(path, path);
}

/// The paths through the last entry differ from those through the others.
proof fn lemma_once_more(
    before: Seq<Components>,
    more: Seq<Components>,
    path: Components,
    entries: Seq<TreeEntryV>,
)
    requires
        entries.len() > 0,
        distinct_names(entries),
        once_through(before, path, entries.drop_last()),
        once_under(more, path.push(entries.last().name)),
    ensures
        once_through(before + more, path, entries),
{
    let name = entries.last().name;
    let rest = entries.drop_last();
    let all = before + more;
    let n = path.len() as int;
    assert forall|i: int| 0 <= i < all.len() implies under(#[trigger] all[i], path) && all[i].len()
        > n && tree::named(entries, all[i][n]) is Some && (i < before.len() <==> all[i][n]
        != name) by {
        if i < before.len() {
            assert(all[i] == before[i]);
            lemma_named_push(entries, all[i][n]);
            lemma_named(rest, all[i][n]);
            let e = tree::named(rest, all[i][n])->Some_0;
            let k = choose|k: int| 0 <= k < rest.len() && rest[k] == e;
            assert(entries[k].name != entries[entries.len() - 1].name);
        } else {
            assert(all[i] == more[i - before.len()]);
            lemma_under_child(all[i], path, name);
            lemma_named_push(entries, name);
        }
    }
    assert forall|i: int, j: int| 0 <= i < all.len() && 0 <= j < all.len() && i != j implies all[i]
        != all[j] by {
        if i < before.len() && j < before.len() {
            assert(before[i] != before[j]);
        } else if i >= before.len() && j >= before.len() {
            assert(more[i - before.len()] != more[j - before.len()]);
        } else {
            assert((i < before.len() <==> all[i][n] != name) && (j < before.len() <==> all[j][n]
                != name));
        }
    }
}

proof fn lemma_through_is_under(
    paths: Seq<Components>,
    path: Components,
    entries: Seq<TreeEntryV>,
)
    requires
        once_through(paths, path, entries),
    ensures
        once_under(paths, path),
{
}

proof fn lemma_collected_once(objects: Objects, entry: TreeEntryV, path: Components, depth: nat)
    requires
        distinct_at(objects, entry),
        collected(objects, entry, path, depth) is Ok,
    ensures
        once_under(collected(objects, entry, path, depth)->Ok_0, path),
    decreases depth, 0nat,
{
    if entry.kind is Tree {
        let entries = tree::tree_of(objects, entry.id)->Ok_0.entries;
        lemma_distinct_in(objects, entry.id);
        lemma_collected_all_once(objects, entries, path, (depth - 1) as nat);
        lemma_through_is_under(
            collected_all(objects, entries, path, (depth - 1) as nat)->Ok_0,
            path,
            entries,
        );
    } else {
        lemma_one_once(path);
    }
}

proof fn lemma_collected_all_once(
    objects: Objects,
    entries: Seq<TreeEntryV>,
    path: Components,
    depth: nat,
)
    requires
        distinct_below(objects, entries),
        distinct_names(entries),
        collected_all(objects, entries, path, depth) is Ok,
    ensures
        once_through(collected_all(objects, entries, path, depth)->Ok_0, path, entries),
    decreases depth, entries.len() + 1,
{
    if entries.len() > 0 {
        lemma_distinct_rest(entries);
        lemma_below_rest(objects, entries);
        lemma_collected_all_once(objects, entries.drop_last(), path, depth);
        lemma_collected_once(objects, entries.last(), path.push(entries.last().name), depth);
        lemma_once_more(
            collected_all(objects, entries.drop_last(), path, depth)->Ok_0,
            collected(objects, entries.last(), path.push(entries.last().name), depth)->Ok_0,
            path,
            entries,
        );
    }
}

proof fn lemma_distinct_rest(entries: Seq<TreeEntryV>)
    requires
        entries.len() > 0,
        distinct_names(entries),
    ensures
        distinct_names(entries.drop_last()),
{
    let rest = entries.drop_last();
    assert forall|i: int, j: int| 0 <= i < j < rest.len() implies (#[trigger] rest[i]).name != (
    #[trigger] rest[j]).name by {
        assert(rest[i] == entries[i] && rest[j] == entries[j]);
    }
}

/// The entries of `map` whose names `other` does not have lead to each path once,
/// and to none through a name of `other`.
proof fn lemma_only_once(
    objects: Objects,
    map: Seq<TreeEntryV>,
    other: Seq<TreeEntryV>,
    path: Components,
    depth: nat,
)
    requires
        distinct_below(objects, map),
        distinct_names(map),
        only_there(objects, map, other, path, depth) is Ok,
    ensures
        ({
            let paths = only_there(objects, map, other, path, depth)->Ok_0;
            &&& once_through(paths, path, map)
            &&& forall|i: int|
                0 <= i < paths.len() ==> tree::named(
                    other,
                    (#[trigger] paths[i])[path.len() as int],
                ) is None
        }),
    decreases map.len(),
{
    if map.len() > 0 {
        let name = map.last().name;
        let n = path.len() as int;
        let paths = only_there(objects, map, other, path, depth)->Ok_0;
        let before = only_there(objects, map.drop_last(), other, path, depth)->Ok_0;
        lemma_distinct_rest(map);
        lemma_below_rest(objects, map);
        lemma_only_once(objects, map.drop_last(), other, path, depth);
        if tree::named(other, name) is Some {
            lemma_none_once(path.push(name), map);
            lemma_once_more(before, seq![], path, map);
            assert(before + seq![] =~= before);
        } else {
            let more = collected(objects, map.last(), path.push(name), depth)->Ok_0;
            lemma_collected_once(objects, map.last(), path.push(name), depth);
            lemma_once_more(before, more, path, map);
            assert forall|i: int| 0 <= i < paths.len() implies tree::named(
                other,
                (#[trigger] paths[i])[n],
            ) is None by {
                if i < before.len() {
                    assert(paths[i] == before[i]);
                } else {
                    assert(paths[i] == more[i - before.len()]);
                    lemma_under_child(paths[i], path, name);
                }
            }
        }
    }
}

proof fn lemma_compared_entry_once(
    objects: Objects,
    old_entry: TreeEntryV,
    new_entry: Option<TreeEntryV>,
    path: Components,
    depth: nat,
)
    requires
        distinct_at(objects, old_entry),
        new_entry matches Some(e) ==> distinct_at(objects, e),
        compared_entry(objects, old_entry, new_entry, path, depth) is Ok,
    ensures
        ({
            let c = compared_entry(objects, old_entry, new_entry, path, depth)->Ok_0;
            once_under(c.added, path) && once_under(c.removed, path) && once_under(c.modified, path)
        }),
    decreases depth, 1nat,
{
    lemma_none_once(path, seq![]);
    lemma_one_once(path);
    match new_entry {
        None => {
            lemma_collected_once(objects, old_entry, path, depth);
        },
        Some(new_entry) => {
            if old_entry.kind is Tree && new_entry.kind is Tree {
                lemma_compared_once(objects, old_entry.id, new_entry.id, path, depth);
            } else if !(old_entry.kind is Tree) && !(new_entry.kind is Tree) {
            } else {
                lemma_collected_once(objects, old_entry, path, depth);
                lemma_collected_once(objects, new_entry, path, depth);
            }
        },
    }
}

proof fn lemma_compared_all_once(
    objects: Objects,
    old_map: Seq<TreeEntryV>,
    new_map: Seq<TreeEntryV>,
    path: Components,
    depth: nat,
)
    requires
        distinct_below(objects, old_map),
        distinct_below(objects, new_map),
        distinct_names(old_map),
        compared_all(objects, old_map, new_map, path, depth) is Ok,
    ensures
        ({
            let c = compared_all(objects, old_map, new_map, path, depth)->Ok_0;
            &&& once_through(c.added, path, old_map)
            &&& once_through(c.removed, path, old_map)
            &&& once_through(c.modified, path, old_map)
        }),
    decreases depth, old_map.len() + 2,
{
    if old_map.len() > 0 {
        let last = old_map.last();
        let before = compared_all(objects, old_map.drop_last(), new_map, path, depth)->Ok_0;
        let entry = tree::named(new_map, last.name);
        let more = compared_entry(objects, last, entry, path.push(last.name), depth)->Ok_0;
        lemma_distinct_rest(old_map);
        lemma_below_rest(objects, old_map);
        lemma_below_named(objects, new_map, last.name);
        lemma_compared_all_once(objects, old_map.drop_last(), new_map, path, depth);
        lemma_compared_entry_once(objects, last, entry, path.push(last.name), depth);
        lemma_once_more(before.added, more.added, path, old_map);
        lemma_once_more(before.removed, more.removed, path, old_map);
        lemma_once_more(before.modified, more.modified, path, old_map);
    }
}

proof fn lemma_compared_once(
    objects: Objects,
    from: Seq<u8>,
    to: Seq<u8>,
    path: Components,
    depth: nat,
)
    requires
        names_distinct(objects, from),
        names_distinct(objects, to),
        compared(objects, from, to, path, depth) is Ok,
    ensures
        ({
            let c = compared(objects, from, to, path, depth)->Ok_0;
            once_under(c.added, path) && once_under(c.removed, path) && once_under(c.modified, path)
        }),
    decreases depth, 0nat,
{
    lemma_none_once(path, seq![]);
    if from != to {
        let f = tree::tree_of(objects, from)->Ok_0.entries;
        let t = tree::tree_of(objects, to)->Ok_0.entries;
        let old_map = by_name(f);
        let new_map = by_name(t);
        let d = (depth - 1) as nat;
        lemma_by_name(f);
        lemma_by_name(t);
        lemma_distinct_in(objects, from);
        lemma_distinct_in(objects, to);
        lemma_compared_all_once(objects, old_map, new_map, path, d);
        lemma_only_once(objects, new_map, old_map, path, d);
        let some = compared_all(objects, old_map, new_map, path, d)->Ok_0;
        let more = only_there(objects, new_map, old_map, path, d)->Ok_0;
        let all = some.added + more;
        assert(once_under(all, path)) by {
            assert forall|i: int, j: int| 0 <= i < all.len() && 0 <= j < all.len() && i != j implies
                all[i] != all[j] by {
                let m = some.added.len() as int;
                if i < m && j < m {
                    assert(some.added[i] != some.added[j]);
                } else if i >= m && j >= m {
                    assert(more[i - m] != more[j - m]);
                } else if i < m {
                    assert(all[i] == some.added[i] && all[j] == more[j - m]);
                } else {
                    assert(all[j] == some.added[j] && all[i] == more[i - m]);
                }
            }
            assert forall|i: int| 0 <= i < all.len() implies under(#[trigger] all[i], path) by {
                if i < some.added.len() {
                    assert(all[i] == some.added[i]);
                } else {
                    assert(all[i] == more[i - some.added.len()]);
                }
            }
        }
        lemma_through_is_under(some.removed, path, old_map);
        lemma_through_is_under(some.modified, path, old_map);
    }
}

/// Whether a path is one of names: none is empty or holds a slash.
spec fn plain(path: Components) -> bool {
    forall|i: int|
        0 <= i < path.len() ==> (#[trigger] path[i]).len() > 0 && !path[i].contains('/')
}

/// The names of the entries of a tree are valid.
proof fn lemma_tree_names(objects: Objects, id: Seq<u8>, name: Seq<char>)
    requires
        tree::tree_of(objects, id) is Ok,
        tree::named(tree::tree_of(objects, id)->Ok_0.entries, name) is Some,
    ensures
        object::valid_name(name),
{
    let entries = tree::tree_of(objects, id)->Ok_0.entries;
    object::lemma_tree_names_valid(objects[id].1);
    lemma_named(entries, name);
    let e = tree::named(entries, name)->Some_0;
    let k = choose|k: int| 0 <= k < entries.len() && entries[k] == e;
    assert(object::valid_name(entries[k].name));
}

/// A path that leads to a file is one of names, and not empty.
proof fn lemma_file_path_plain(objects: Objects, id: Seq<u8>, path: Components)
    requires
        file_at(objects, id, path) is Some,
    ensures
        path.len() > 0,
        plain(path),
    decreases path.len(),
{
    let entry = tree::named(tree::tree_of(objects, id)->Ok_0.entries, path[0])->Some_0;
    lemma_tree_names(objects, id, path[0]);
    let rest = path.skip(1);
    if entry.kind is Tree {
        lemma_file_path_plain(objects, entry.id, rest);
    }
    assert forall|i: int| 0 <= i < path.len() implies (#[trigger] path[i]).len() > 0
        && !path[i].contains('/') by {
        if i > 0 {
            assert(path[i] == rest[i - 1]);
        }
    }
}

/// The text of a path of names is not empty.
proof fn lemma_joined_len(path: Components)
    requires
        path.len() > 0,
        plain(path),
    ensures
        joined(path).len() > 0,
{
    assert(path[path.len() - 1].len() > 0);
}

proof fn lemma_plain_rest(path: Components)
    requires
        path.len() > 0,
        plain(path),
    ensures
        plain(path.drop_last()),
{
    let rest = path.drop_last();
    assert forall|i: int| 0 <= i < rest.len() implies (#[trigger] rest[i]).len() > 0
        && !rest[i].contains('/') by {
        assert(rest[i] == path[i]);
    }
}

/// Different paths of names have different texts.
proof fn lemma_joined_injective(p: Components, q: Components)
    requires
        p.len() > 0,
        q.len() > 0,
        plain(p),
        plain(q),
        joined(p) == joined(q),
    ensures
        p == q,
    decreases p.len(),
{
    let t = joined(p);
    let a = p.last();
    let b = q.last();
    let x = p.drop_last();
    let y = q.drop_last();
    assert(p[p.len() - 1].len() > 0 && !p[p.len() - 1].contains('/'));
    assert(q[q.len() - 1].len() > 0 && !q[q.len() - 1].contains('/'));
    lemma_plain_rest(p);
    lemma_plain_rest(q);
    if p.len() > 1 {
        lemma_joined_len(x);
    }
    if q.len() > 1 {
        lemma_joined_len(y);
    }
    if p.len() == 1 && q.len() == 1 {
        assert(p =~= q);
    } else if p.len() == 1 {
        let at = joined(y).len() as int;
        assert(t[at] == '/');
        assert(a.contains(a[at]));
    } else if q.len() == 1 {
        let at = joined(x).len() as int;
        assert(t[at] == '/');
        assert(b.contains(b[at]));
    } else {
        let at = joined(x).len() as int;
        let bt = joined(y).len() as int;
        assert(t == joined(x).push('/') + a);
        assert(t == joined(y).push('/') + b);
        assert(t[at] == '/' && t[bt] == '/');
        if at < bt {
            assert(t[bt] == a[bt - at - 1]);
            assert(a[bt - at - 1] == '/');
            assert(a.contains('/'));
        } else if bt < at {
            assert(b[at - bt - 1] == '/');
            assert(b.contains('/'));
        }
        assert(joined(x) =~= t.take(at));
        assert(joined(y) =~= t.take(at));
        assert(a =~= t.skip(at + 1));
        assert(b =~= t.skip(at + 1));
        lemma_joined_injective(x, y);
        assert(p =~= x.push(a));
        assert(q =~= y.push(b));
    }
}

// ── the way back ─────────────────────────────────────────────────────────────

/// Whether `b` holds the changes of `a` the other way round, in any order.
pub open spec fn mirrors(a: Changes, b: Changes) -> bool {
    &&& a.added.to_multiset() == b.removed.to_multiset()
    &&& a.removed.to_multiset() == b.added.to_multiset()
    &&& a.modified.to_multiset() == b.modified.to_multiset()
}

/// The changes between two trees with the given entries.
spec fn level(
    objects: Objects,
    old_map: Seq<TreeEntryV>,
    new_map: Seq<TreeEntryV>,
    path: Components,
    depth: nat,
) -> Result<Changes, ErrorV> {
    match compared_all(objects, old_map, new_map, path, depth) {
        Err(e) => Err(e),
        Ok(changes) => match only_there(objects, new_map, old_map, path, depth) {
            Err(e) => Err(e),
            Ok(added) => Ok(Changes { added: changes.added + added, ..changes }),
        },
    }
}

/// Whether no entry has the name.
spec fn unnamed(entries: Seq<TreeEntryV>, name: Seq<char>) -> bool {
    forall|i: int| 0 <= i < entries.len() ==> (#[trigger] entries[i]).name != name
}

proof fn lemma_compared_ignores(
    objects: Objects,
    a: Seq<TreeEntryV>,
    b: Seq<TreeEntryV>,
    path: Components,
    depth: nat,
)
    requires
        b.len() > 0,
        unnamed(a, b.last().name),
    ensures
        compared_all(objects, a, b, path, depth) == compared_all(
            objects,
            a,
            b.drop_last(),
            path,
            depth,
        ),
    decreases a.len(),
{
    if a.len() > 0 {
        assert(unnamed(a.drop_last(), b.last().name)) by {
            assert forall|i: int| 0 <= i < a.drop_last().len() implies (
            #[trigger] a.drop_last()[i]).name != b.last().name by {
                assert(a.drop_last()[i] == a[i]);
            }
        }
        assert(a[a.len() - 1].name != b.last().name);
        lemma_compared_ignores(objects, a.drop_last(), b, path, depth);
        lemma_named_push(b, a.last().name);
    }
}

proof fn lemma_only_ignores(
    objects: Objects,
    a: Seq<TreeEntryV>,
    b: Seq<TreeEntryV>,
    path: Components,
    depth: nat,
)
    requires
        b.len() > 0,
        unnamed(a, b.last().name),
    ensures
        only_there(objects, a, b, path, depth) == only_there(
            objects,
            a,
            b.drop_last(),
            path,
            depth,
        ),
    decreases a.len(),
{
    if a.len() > 0 {
        assert(unnamed(a.drop_last(), b.last().name)) by {
            assert forall|i: int| 0 <= i < a.drop_last().len() implies (
            #[trigger] a.drop_last()[i]).name != b.last().name by {
                assert(a.drop_last()[i] == a[i]);
            }
        }
        assert(a[a.len() - 1].name != b.last().name);
        lemma_only_ignores(objects, a.drop_last(), b, path, depth);
        lemma_named_push(b, a.last().name);
    }
}

/// What the last entry adds to the changes whose name the other tree lacks.
proof fn lemma_unmatched_last(
    objects: Objects,
    a: Seq<TreeEntryV>,
    b: Seq<TreeEntryV>,
    path: Components,
    depth: nat,
)
    requires
        a.len() > 0,
        unnamed(b, a.last().name),
    ensures
        level(objects, a, b, path, depth) matches Ok(c) ==> {
            let rest = level(objects, a.drop_last(), b, path, depth);
            let more = collected(objects, a.last(), path.push(a.last().name), depth);
            &&& rest is Ok
            &&& more is Ok
            &&& c == (Changes { removed: rest->Ok_0.removed + more->Ok_0, ..rest->Ok_0 })
        },
        level(objects, b, a, path, depth) matches Ok(c) ==> {
            let rest = level(objects, b, a.drop_last(), path, depth);
            let more = collected(objects, a.last(), path.push(a.last().name), depth);
            &&& rest is Ok
            &&& more is Ok
            &&& c == (Changes { added: rest->Ok_0.added + more->Ok_0, ..rest->Ok_0 })
        },
{
    lemma_named(b, a.last().name);
    if let Some(e) = tree::named(b, a.last().name) {
        let k = choose|k: int| 0 <= k < b.len() && b[k] == e;
        assert(b[k].name != a.last().name);
    }
    lemma_compared_ignores(objects, b, a, path, depth);
    lemma_only_ignores(objects, b, a, path, depth);
    if let Ok(c) = level(objects, a, b, path, depth) {
        let entry = compared_entry(objects, a.last(), None, path.push(a.last().name), depth);
        assert(entry is Ok);
        let rest = level(objects, a.drop_last(), b, path, depth)->Ok_0;
        let more = collected(objects, a.last(), path.push(a.last().name), depth)->Ok_0;
        assert(entry->Ok_0 == (Changes { removed: more, ..no_changes() }));
        let before = compared_all(objects, a.drop_last(), b, path, depth)->Ok_0;
        assert(compared_all(objects, a, b, path, depth)->Ok_0 == both_changes(
            before,
            entry->Ok_0,
        ));
        assert(before.added + seq![] =~= before.added);
        assert(before.modified + seq![] =~= before.modified);
        assert(c =~= (Changes { removed: rest.removed + more, ..rest }));
    }
    if let Ok(c) = level(objects, b, a, path, depth) {
        let rest = level(objects, b, a.drop_last(), path, depth)->Ok_0;
        let more = collected(objects, a.last(), path.push(a.last().name), depth)->Ok_0;
        assert(c =~= (Changes { added: rest.added + more, ..rest }));
    }
}

/// What the last entries add to the changes that share their name.
proof fn lemma_matched_last(
    objects: Objects,
    a: Seq<TreeEntryV>,
    b: Seq<TreeEntryV>,
    path: Components,
    depth: nat,
)
    requires
        a.len() > 0,
        b.len() > 0,
        a.last().name == b.last().name,
        distinct_names(a),
        distinct_names(b),
        level(objects, a, b, path, depth) is Ok,
    ensures
        ({
            let c = level(objects, a, b, path, depth)->Ok_0;
            let rest = level(objects, a.drop_last(), b.drop_last(), path, depth);
            let more = compared_entry(
                objects,
                a.last(),
                Some(b.last()),
                path.push(a.last().name),
                depth,
            );
            &&& rest is Ok
            &&& more is Ok
            &&& c.added.to_multiset() == rest->Ok_0.added.to_multiset().add(
                more->Ok_0.added.to_multiset(),
            )
            &&& c.removed.to_multiset() == rest->Ok_0.removed.to_multiset().add(
                more->Ok_0.removed.to_multiset(),
            )
            &&& c.modified.to_multiset() == rest->Ok_0.modified.to_multiset().add(
                more->Ok_0.modified.to_multiset(),
            )
        }),
{
    let x = a.drop_last();
    let y = b.drop_last();
    let name = a.last().name;
    assert forall|i: int| 0 <= i < x.len() implies (#[trigger] x[i]).name != name by {
        assert(x[i] == a[i]);
        assert(a[i].name != a[a.len() - 1].name);
    }
    assert forall|i: int| 0 <= i < y.len() implies (#[trigger] y[i]).name != name by {
        assert(y[i] == b[i]);
        assert(b[i].name != b[b.len() - 1].name);
    }
    lemma_named_push(b, name);
    lemma_named(y, name);
    if let Some(e) = tree::named(y, name) {
        let k = choose|k: int| 0 <= k < y.len() && y[k] == e;
        assert(y[k].name != name);
    }
    assert(tree::named(b, name) == Some(b.last()));
    lemma_named_push(a, name);
    assert(tree::named(a, name) is Some);
    lemma_compared_ignores(objects, x, b, path, depth);
    lemma_only_ignores(objects, y, a, path, depth);
    let c = level(objects, a, b, path, depth)->Ok_0;
    let before = compared_all(objects, x, y, path, depth)->Ok_0;
    let only = only_there(objects, y, x, path, depth)->Ok_0;
    let rest = level(objects, x, y, path, depth)->Ok_0;
    let more = compared_entry(objects, a.last(), Some(b.last()), path.push(name), depth)->Ok_0;
    assert(c.added =~= (before.added + more.added) + only);
    assert(rest.added =~= before.added + only);
    vstd::seq_lib::lemma_multiset_commutative(before.added + more.added, only);
    vstd::seq_lib::lemma_multiset_commutative(before.added, more.added);
    vstd::seq_lib::lemma_multiset_commutative(before.added, only);
    vstd::seq_lib::lemma_multiset_commutative(before.removed, more.removed);
    vstd::seq_lib::lemma_multiset_commutative(before.modified, more.modified);
    assert(c.added.to_multiset() =~= rest.added.to_multiset().add(more.added.to_multiset()));
}

proof fn lemma_prefix_kept(map: Seq<TreeEntryV>)
    requires
        map.len() > 0,
        ascending(map),
        distinct_names(map),
    ensures
        ascending(map.drop_last()),
        distinct_names(map.drop_last()),
{
    let d = map.drop_last();
    assert forall|i: int, j: int| 0 <= i < j < d.len() implies order::lex_lt(
        order::text_rank((#[trigger] d[i]).name),
        order::text_rank((#[trigger] d[j]).name),
    ) && d[i].name != d[j].name by {
        assert(d[i] == map[i] && d[j] == map[j]);
    }
}

/// Where the last name of `a` comes behind that of `b`, `b` does not have it.
proof fn lemma_greatest_unnamed(a: Seq<TreeEntryV>, b: Seq<TreeEntryV>)
    requires
        a.len() > 0,
        ascending(b),
        b.len() > 0 ==> order::lex_lt(
            order::text_rank(b.last().name),
            order::text_rank(a.last().name),
        ),
    ensures
        unnamed(b, a.last().name),
{
    assert forall|i: int| 0 <= i < b.len() implies (#[trigger] b[i]).name != a.last().name by {
        let last = b[b.len() - 1];
        if i < b.len() - 1 {
            assert(order::lex_lt(order::text_rank(b[i].name), order::text_rank(last.name)));
            order::lemma_lex_transitive(
                order::text_rank(b[i].name),
                order::text_rank(last.name),
                order::text_rank(a.last().name),
            );
        }
        order::lemma_lex_irreflexive(order::text_rank(a.last().name));
    }
}

proof fn lemma_level_mirrors(
    objects: Objects,
    a: Seq<TreeEntryV>,
    b: Seq<TreeEntryV>,
    path: Components,
    depth: nat,
)
    requires
        ascending(a),
        distinct_names(a),
        ascending(b),
        distinct_names(b),
        level(objects, a, b, path, depth) is Ok,
        level(objects, b, a, path, depth) is Ok,
    ensures
        mirrors(level(objects, a, b, path, depth)->Ok_0, level(objects, b, a, path, depth)->Ok_0),
    decreases depth, a.len() + b.len() + 2,
{
    let c = level(objects, a, b, path, depth)->Ok_0;
    let d = level(objects, b, a, path, depth)->Ok_0;
    if a.len() == 0 && b.len() == 0 {
        assert(c =~= no_changes());
        assert(d =~= no_changes());
    } else {
        let a_rank = order::text_rank(a.last().name);
        let b_rank = order::text_rank(b.last().name);
        order::lemma_lex_total(a_rank, b_rank);
        if a.len() > 0 && (b.len() == 0 || order::lex_lt(b_rank, a_rank)) {
            lemma_greatest_unnamed(a, b);
            lemma_unmatched_last(objects, a, b, path, depth);
            lemma_prefix_kept(a);
            lemma_level_mirrors(objects, a.drop_last(), b, path, depth);
            let there = level(objects, a.drop_last(), b, path, depth)->Ok_0;
            let back = level(objects, b, a.drop_last(), path, depth)->Ok_0;
            let more = collected(objects, a.last(), path.push(a.last().name), depth)->Ok_0;
            vstd::seq_lib::lemma_multiset_commutative(there.removed, more);
            vstd::seq_lib::lemma_multiset_commutative(back.added, more);
        } else if b.len() > 0 && (a.len() == 0 || order::lex_lt(a_rank, b_rank)) {
            lemma_greatest_unnamed(b, a);
            lemma_unmatched_last(objects, b, a, path, depth);
            lemma_prefix_kept(b);
            lemma_level_mirrors(objects, a, b.drop_last(), path, depth);
            let there = level(objects, b.drop_last(), a, path, depth)->Ok_0;
            let back = level(objects, a, b.drop_last(), path, depth)->Ok_0;
            let more = collected(objects, b.last(), path.push(b.last().name), depth)->Ok_0;
            vstd::seq_lib::lemma_multiset_commutative(there.removed, more);
            vstd::seq_lib::lemma_multiset_commutative(back.added, more);
        } else {
            order::lemma_text_rank_injective(a.last().name, b.last().name);
            lemma_matched_last(objects, a, b, path, depth);
            lemma_matched_last(objects, b, a, path, depth);
            lemma_prefix_kept(a);
            lemma_prefix_kept(b);
            lemma_level_mirrors(objects, a.drop_last(), b.drop_last(), path, depth);
            lemma_entry_mirrors(
                objects,
                a.last(),
                b.last(),
                path.push(a.last().name),
                depth,
            );
        }
    }
}

proof fn lemma_entry_mirrors(
    objects: Objects,
    a: TreeEntryV,
    b: TreeEntryV,
    path: Components,
    depth: nat,
)
    requires
        compared_entry(objects, a, Some(b), path, depth) is Ok,
        compared_entry(objects, b, Some(a), path, depth) is Ok,
    ensures
        mirrors(
            compared_entry(objects, a, Some(b), path, depth)->Ok_0,
            compared_entry(objects, b, Some(a), path, depth)->Ok_0,
        ),
    decreases depth, 1nat,
{
    if a.kind is Tree && b.kind is Tree {
        lemma_compared_mirrors(objects, a.id, b.id, path, depth);
    }
}

proof fn lemma_compared_mirrors(
    objects: Objects,
    from: Seq<u8>,
    to: Seq<u8>,
    path: Components,
    depth: nat,
)
    requires
        compared(objects, from, to, path, depth) is Ok,
        compared(objects, to, from, path, depth) is Ok,
    ensures
        mirrors(
            compared(objects, from, to, path, depth)->Ok_0,
            compared(objects, to, from, path, depth)->Ok_0,
        ),
    decreases depth, 0nat,
{
    if from != to {
        let f = tree::tree_of(objects, from)->Ok_0;
        let t = tree::tree_of(objects, to)->Ok_0;
        lemma_by_name(f.entries);
        lemma_by_name(t.entries);
        lemma_level_mirrors(
            objects,
            by_name(f.entries),
            by_name(t.entries),
            path,
            (depth - 1) as nat,
        );
    }
}

// ── paths ────────────────────────────────────────────────────────────────────

/// The rank of a path: component by component, each by its bytes.
pub open spec fn path_rank(path: Seq<char>) -> Seq<int> {
    encode_utf8(path).map_values(|b: u8| path_byte(b))
}

/// The slash that ends a component comes before every byte of a name.
pub open spec fn path_byte(b: u8) -> int {
    if b == 47 {
        0
    } else {
        b + 1
    }
}

/// A repo-relative path with forward slashes.
#[derive(Debug, Clone, PartialEq, Eq)]
pub struct RepoPath {
    path: String,
}

impl View for RepoPath {
    type V = Seq<char>;

    closed spec fn view(&self) -> Seq<char> {
        self.path@
    }
}

impl RepoPath {
    /// The path with the given text.
    pub fn new(path: &str) -> (r: Self)
        ensures
            r@ == path@,
    {
        RepoPath { path: path.to_owned() }
    }

    /// The text of the path.
    pub fn as_str(&self) -> (r: &str)
        ensures
            r@ == self@,
    {
        self.path.as_str()
    }
}

impl Ranked for RepoPath {
    open spec fn rank(&self) -> Seq<int> {
        path_rank(self@)
    }

    fn precedes(&self, other: &Self) -> (r: bool) {
        let a = self.path.as_str().as_bytes();
        let b = other.path.as_str().as_bytes();
        let mut i: usize = 0;
        while i < a.len() && i < b.len() && a[i] == b[i]
            invariant
                i <= a@.len(),
                i <= b@.len(),
                forall|k: int| 0 <= k < i ==> a@[k] == b@[k],
            decreases a.len() - i,
        {
            i += 1;
        }
        proof {
            order::lemma_lex_common_prefix(path_rank(self@), path_rank(other@), i as int);
        }
        if i == b.len() {
            false
        } else if i == a.len() {
            true
        } else if a[i] == 47 {
            true
        } else if b[i] == 47 {
            false
        } else {
            a[i] < b[i]
        }
    }
}

/// The path of `name` below `prefix`.
fn child_path(prefix: &str, name: &str) -> (r: String)
    ensures
        r@ == child_text(prefix@, name@),
{
    if prefix.is_empty() {
        return name.to_owned();
    }
    let mut out = prefix.to_owned();
    out.push('/');
    append_text(&mut out, name);
    out
}

// ── the diff ─────────────────────────────────────────────────────────────────

/// The result of diffing two trees: file-level paths grouped by change kind.
///
/// Each list is sorted ascending by path.
#[derive(Debug, Clone, PartialEq, Eq)]
pub struct TreeDiff {
    added: Vec<RepoPath>,
    removed: Vec<RepoPath>,
    modified: Vec<RepoPath>,
}

/// The paths of a diff, as texts.
#[verifier::ext_equal]
pub struct TreeDiffV {
    pub added: Seq<Seq<char>>,
    pub removed: Seq<Seq<char>>,
    pub modified: Seq<Seq<char>>,
}

impl View for TreeDiff {
    type V = TreeDiffV;

    closed spec fn view(&self) -> TreeDiffV {
        TreeDiffV {
            added: encoding::views(self.added@),
            removed: encoding::views(self.removed@),
            modified: encoding::views(self.modified@),
        }
    }
}

/// The texts of paths.
pub open spec fn path_texts(paths: Seq<Components>) -> Seq<Seq<char>> {
    paths.map_values(|p: Components| joined(p))
}

/// The texts in ascending order of path.
pub open spec fn in_path_order(texts: Seq<Seq<char>>) -> Seq<Seq<char>> {
    order::sort_by(texts, |p: Seq<char>| path_rank(p))
}

/// The diff that lists the changes, each category in ascending order of path.
pub open spec fn diff_of(changes: Changes) -> TreeDiffV {
    TreeDiffV {
        added: in_path_order(path_texts(changes.added)),
        removed: in_path_order(path_texts(changes.removed)),
        modified: in_path_order(path_texts(changes.modified)),
    }
}

/// Mapping what is in a sequence keeps how often each result occurs.
proof fn lemma_same_texts(a: Seq<Components>, b: Seq<Components>)
    requires
        a.to_multiset() == b.to_multiset(),
    ensures
        path_texts(a).to_multiset() == path_texts(b).to_multiset(),
    decreases a.len(),
{
    broadcast use vstd::seq_lib::group_to_multiset_ensures;

    assert(a.len() == a.to_multiset().len());
    assert(b.len() == b.to_multiset().len());
    if a.len() > 0 {
        let x = a.last();
        let c = a.drop_last();
        assert(a.contains(a[a.len() - 1]));
        assert(b.to_multiset().count(x) > 0);
        let k = choose|k: int| 0 <= k < b.len() && b[k] == x;
        let d = b.remove(k);
        assert(a =~= c.push(x));
        assert(c.to_multiset() =~= a.to_multiset().remove(x));
        assert(d.to_multiset() =~= b.to_multiset().remove(x));
        lemma_same_texts(c, d);
        assert(path_texts(a) =~= path_texts(c).push(joined(x)));
        assert(path_texts(b) =~= path_texts(d).insert(k, joined(x)));
    } else {
        assert(a =~= b);
    }
}

/// Paths of one rank are the same.
proof fn lemma_path_rank_injective(a: Seq<char>, b: Seq<char>)
    requires
        path_rank(a) == path_rank(b),
    ensures
        a == b,
{
    let x = encode_utf8(a);
    let y = encode_utf8(b);
    assert(x.len() == path_rank(a).len());
    assert(y.len() == path_rank(b).len());
    assert forall|i: int| 0 <= i < x.len() implies x[i] == y[i] by {
        assert(path_rank(a)[i] == path_byte(x[i]));
        assert(path_rank(b)[i] == path_byte(y[i]));
    }
    assert(x =~= y);
    text::lemma_utf8_injective(a, b);
}

/// The same paths, in any order, make the same list.
proof fn lemma_same_list(a: Seq<Components>, b: Seq<Components>)
    requires
        a.to_multiset() == b.to_multiset(),
    ensures
        in_path_order(path_texts(a)) == in_path_order(path_texts(b)),
{
    let texts = path_texts(a);
    let rank = |p: Seq<char>| path_rank(p);
    lemma_same_texts(a, b);
    assert forall|i: int, j: int|
        0 <= i < texts.len() && 0 <= j < texts.len() && rank(#[trigger] texts[i]) == rank(
            #[trigger] texts[j],
        ) implies texts[i] == texts[j] by {
        lemma_path_rank_injective(texts[i], texts[j]);
    }
    order::lemma_sort_ignores_order(texts, path_texts(b), rank);
}

/// The texts of different paths of names, sorted, are different.
proof fn lemma_texts_once(paths: Seq<Components>)
    requires
        paths.no_duplicates(),
        forall|i: int| 0 <= i < paths.len() ==> (#[trigger] paths[i]).len() > 0 && plain(paths[i]),
    ensures
        in_path_order(path_texts(paths)).no_duplicates(),
        in_path_order(path_texts(paths)).len() == paths.len(),
        forall|text: Seq<char>| #[trigger]
            in_path_order(path_texts(paths)).contains(text) <==> exists|i: int|
                0 <= i < paths.len() && joined(#[trigger] paths[i]) == text,
{
    broadcast use vstd::seq_lib::group_to_multiset_ensures;

    let texts = path_texts(paths);
    let rank = |p: Seq<char>| path_rank(p);
    let sorted = in_path_order(texts);
    assert forall|i: int, j: int| 0 <= i < texts.len() && 0 <= j < texts.len() && i != j implies
        texts[i] != texts[j] by {
        if texts[i] == texts[j] {
            lemma_joined_injective(paths[i], paths[j]);
        }
    }
    order::lemma_sort_permutes(texts, rank);
    order::lemma_sort_sorted(texts, rank);
    texts.lemma_multiset_has_no_duplicates();
    sorted.lemma_multiset_has_no_duplicates_conv();
    assert forall|text: Seq<char>| #[trigger]
        sorted.contains(text) <==> exists|i: int|
            0 <= i < paths.len() && joined(#[trigger] paths[i]) == text by {
        assert(sorted.contains(text) <==> sorted.to_multiset().count(text) > 0);
        assert(texts.contains(text) <==> texts.to_multiset().count(text) > 0);
        if texts.contains(text) {
            let i = choose|i: int| 0 <= i < texts.len() && texts[i] == text;
            assert(joined(paths[i]) == text);
        }
        if exists|i: int| 0 <= i < paths.len() && joined(#[trigger] paths[i]) == text {
            let i = choose|i: int| 0 <= i < paths.len() && joined(#[trigger] paths[i]) == text;
            assert(texts[i] == text);
        }
    }
}

/// The diff of two trees lists each path once: no list holds a path twice, and no
/// two lists hold the same path.
pub proof fn lemma_diff_lists_once(objects: Objects, from: Seq<u8>, to: Seq<u8>)
    requires
        names_distinct(objects, from),
        names_distinct(objects, to),
        tree_changes(objects, from, to) is Ok,
    ensures
        ({
            let d = diff_of(tree_changes(objects, from, to)->Ok_0);
            &&& d.added.no_duplicates()
            &&& d.removed.no_duplicates()
            &&& d.modified.no_duplicates()
            &&& forall|text: Seq<char>| #[trigger]
                d.added.contains(text) ==> !d.removed.contains(text) && !d.modified.contains(text)
            &&& forall|text: Seq<char>| #[trigger]
                d.removed.contains(text) ==> !d.modified.contains(text)
        }),
{
    let c = tree_changes(objects, from, to)->Ok_0;
    let d = diff_of(c);
    lemma_compared_once(objects, from, to, seq![], objects.dom().len() + 1);
    assert forall|i: int| 0 <= i < c.added.len() implies (#[trigger] c.added[i]).len() > 0 && plain(
        c.added[i],
    ) by {
        lemma_diff_is_exact(objects, from, to, c.added[i]);
        assert(c.added.contains(c.added[i]));
        lemma_file_path_plain(objects, to, c.added[i]);
    }
    assert forall|i: int| 0 <= i < c.removed.len() implies (#[trigger] c.removed[i]).len() > 0
        && plain(c.removed[i]) by {
        lemma_diff_is_exact(objects, from, to, c.removed[i]);
        assert(c.removed.contains(c.removed[i]));
        lemma_file_path_plain(objects, from, c.removed[i]);
    }
    assert forall|i: int| 0 <= i < c.modified.len() implies (#[trigger] c.modified[i]).len() > 0
        && plain(c.modified[i]) by {
        lemma_diff_is_exact(objects, from, to, c.modified[i]);
        assert(c.modified.contains(c.modified[i]));
        lemma_file_path_plain(objects, to, c.modified[i]);
    }
    lemma_texts_once(c.added);
    lemma_texts_once(c.removed);
    lemma_texts_once(c.modified);
    assert forall|text: Seq<char>| #[trigger] d.added.contains(text) implies !d.removed.contains(
        text,
    ) && !d.modified.contains(text) by {
        let i = choose|i: int| 0 <= i < c.added.len() && joined(#[trigger] c.added[i]) == text;
        lemma_diff_is_exact(objects, from, to, c.added[i]);
        assert(c.added.contains(c.added[i]));
        if d.removed.contains(text) {
            let j = choose|j: int|
                0 <= j < c.removed.len() && joined(#[trigger] c.removed[j]) == text;
            lemma_joined_injective(c.added[i], c.removed[j]);
            assert(c.removed.contains(c.removed[j]));
        }
        if d.modified.contains(text) {
            let j = choose|j: int|
                0 <= j < c.modified.len() && joined(#[trigger] c.modified[j]) == text;
            lemma_joined_injective(c.added[i], c.modified[j]);
            assert(c.modified.contains(c.modified[j]));
        }
    }
    assert forall|text: Seq<char>| #[trigger]
        d.removed.contains(text) implies !d.modified.contains(text) by {
        let i = choose|i: int| 0 <= i < c.removed.len() && joined(#[trigger] c.removed[i]) == text;
        lemma_diff_is_exact(objects, from, to, c.removed[i]);
        assert(c.removed.contains(c.removed[i]));
        if d.modified.contains(text) {
            let j = choose|j: int|
                0 <= j < c.modified.len() && joined(#[trigger] c.modified[j]) == text;
            lemma_joined_injective(c.removed[i], c.modified[j]);
            assert(c.modified.contains(c.modified[j]));
        }
    }
}

/// The diff the other way round is the mirror image: what was added is removed,
/// what was removed is added, and what was modified is modified, list by list.
pub proof fn lemma_diff_mirrors(objects: Objects, from: Seq<u8>, to: Seq<u8>)
    requires
        tree_changes(objects, from, to) is Ok,
        tree_changes(objects, to, from) is Ok,
    ensures
        ({
            let there = diff_of(tree_changes(objects, from, to)->Ok_0);
            let back = diff_of(tree_changes(objects, to, from)->Ok_0);
            &&& there.added == back.removed
            &&& there.removed == back.added
            &&& there.modified == back.modified
        }),
{
    let there = tree_changes(objects, from, to)->Ok_0;
    let back = tree_changes(objects, to, from)->Ok_0;
    lemma_compared_mirrors(objects, from, to, seq![], objects.dom().len() + 1);
    lemma_same_list(there.added, back.removed);
    lemma_same_list(there.removed, back.added);
    lemma_same_list(there.modified, back.modified);
}

/// A diff, followed by more changes.
spec fn extended(diff: TreeDiffV, changes: Changes) -> TreeDiffV {
    TreeDiffV {
        added: diff.added + path_texts(changes.added),
        removed: diff.removed + path_texts(changes.removed),
        modified: diff.modified + path_texts(changes.modified),
    }
}

impl TreeDiff {
    /// A diff without changes.
    fn empty() -> (r: Self)
        ensures
            r@ == (TreeDiffV { added: seq![], removed: seq![], modified: seq![] }),
    {
        let r = TreeDiff { added: Vec::new(), removed: Vec::new(), modified: Vec::new() };
        assert(r@ =~= (TreeDiffV { added: seq![], removed: seq![], modified: seq![] }));
        r
    }

    /// Returns the paths added in the `to` tree.
    pub fn added(&self) -> (r: &[RepoPath])
        ensures
            encoding::views(r@) == self@.added,
    {
        self.added.as_slice()
    }

    /// Returns the paths removed relative to the `from` tree.
    pub fn removed(&self) -> (r: &[RepoPath])
        ensures
            encoding::views(r@) == self@.removed,
    {
        self.removed.as_slice()
    }

    /// Returns the paths whose content or kind changed.
    pub fn modified(&self) -> (r: &[RepoPath])
        ensures
            encoding::views(r@) == self@.modified,
    {
        self.modified.as_slice()
    }

    /// Returns `true` if there are no changes.
    pub fn is_empty(&self) -> (r: bool)
        ensures
            r == (self@ == (TreeDiffV { added: seq![], removed: seq![], modified: seq![] })),
    {
        let r = self.added.len() == 0 && self.removed.len() == 0 && self.modified.len() == 0;
        proof {
            let none = TreeDiffV { added: seq![], removed: seq![], modified: seq![] };
            assert(self@.added.len() == self.added@.len());
            assert(self@.removed.len() == self.removed@.len());
            assert(self@.modified.len() == self.modified@.len());
            if r {
                assert(self@ =~= none);
            }
        }
        r
    }

    /// Sorts every category ascending by path.
    fn sort(&mut self)
        ensures
            final(self)@.added == in_path_order(old(self)@.added),
            final(self)@.removed == in_path_order(old(self)@.removed),
            final(self)@.modified == in_path_order(old(self)@.modified),
    {
        proof {
            let rank = |p: Seq<char>| path_rank(p);
            assert forall|y: RepoPath| #[trigger] y.rank() == rank(y@) by {}
            order::lemma_sort_views(self.added@, rank);
            order::lemma_sort_views(self.removed@, rank);
            order::lemma_sort_views(self.modified@, rank);
        }
        sort_stable(&mut self.added);
        sort_stable(&mut self.removed);
        sort_stable(&mut self.modified);
    }
}

/// The place of an entry: it goes at `p`, behind smaller names.
proof fn lemma_placed_at(map: Seq<TreeEntryV>, entry: TreeEntryV, p: int)
    requires
        0 <= p <= map.len(),
        forall|k: int|
            0 <= k < p ==> (#[trigger] map[k]).name != entry.name && !order::lex_lt(
                order::text_rank(entry.name),
                order::text_rank(map[k].name),
            ),
        p < map.len() ==> map[p].name == entry.name || order::lex_lt(
            order::text_rank(entry.name),
            order::text_rank(map[p].name),
        ),
    ensures
        placed(map, entry) == (if p < map.len() && map[p].name == entry.name {
            map.update(p, entry)
        } else {
            map.insert(p, entry)
        }),
    decreases p,
{
    if p == 0 {
        if map.len() == 0 {
            assert(placed(map, entry) =~= map.insert(0, entry));
        } else if map[0].name == entry.name {
            assert(placed(map, entry) =~= map.update(0, entry));
        } else {
            assert(placed(map, entry) =~= map.insert(0, entry));
        }
    } else {
        assert(map[0].name != entry.name);
        assert forall|k: int| 0 <= k < p - 1 implies (#[trigger] map.skip(1)[k]).name
            != entry.name && !order::lex_lt(order::text_rank(entry.name), order::text_rank(map.skip(1)[k].name)) by {
            assert(map.skip(1)[k] == map[k + 1]);
        }
        lemma_placed_at(map.skip(1), entry, p - 1);
        if p < map.len() && map[p].name == entry.name {
            assert(placed(map, entry) =~= map.update(p, entry));
        } else {
            assert(placed(map, entry) =~= map.insert(p, entry));
        }
    }
}

/// Builds a name-ordered list of a tree's entries, the last of each name.
fn entry_map(entries: &[TreeEntry]) -> (r: Vec<TreeEntry>)
    ensures
        encoding::views(r@) == by_name(encoding::views(entries@)),
{
    let mut map: Vec<TreeEntry> = Vec::new();
    let ghost all = encoding::views(entries@);
    let mut i: usize = 0;
    proof {
        assert(all.take(0) =~= seq![]);
        assert(encoding::views(map@) =~= seq![]);
    }
    while i < entries.len()
        invariant
            i <= entries@.len(),
            all == encoding::views(entries@),
            encoding::views(map@) == by_name(all.take(i as int)),
        decreases entries.len() - i,
    {
        let entry = entries[i].copy();
        let ghost was = encoding::views(map@);
        let ghost e = entry@;
        let mut p: usize = 0;
        while p < map.len() && !same_text(map[p].name(), entry.name()) && !text_before(
            entry.name(),
            map[p].name(),
        )
            invariant
                p <= map@.len(),
                was == encoding::views(map@),
                e == entry@,
                forall|k: int|
                    0 <= k < p ==> (#[trigger] was[k]).name != e.name && !order::lex_lt(
                        order::text_rank(e.name),
                        order::text_rank(was[k].name),
                    ),
            decreases map.len() - p,
        {
            assert(was[p as int] == map@[p as int]@);
            p += 1;
        }
        proof {
            assert(p < was.len() ==> was[p as int] == map@[p as int]@);
            lemma_placed_at(was, e, p as int);
            assert(all.take(i + 1).drop_last() =~= all.take(i as int));
            assert(all.take(i + 1).last() == e);
        }
        if p < map.len() && same_text(map[p].name(), entry.name()) {
            map.set(p, entry);
            assert(encoding::views(map@) =~= was.update(p as int, e));
        } else {
            map.insert(p, entry);
            assert(encoding::views(map@) =~= was.insert(p as int, e));
        }
        i += 1;
    }
    assert(all.take(i as int) =~= all);
    map
}

/// The error for trees that contain themselves.
fn in_a_cycle() -> (r: Error)
    ensures
        r@ == cycle_error(),
{
    Error::Corruption("trees are nested in a cycle".to_owned())
}

/// Appends a path.
fn push_path(out: &mut Vec<RepoPath>, path: &str, Ghost(components): Ghost<Components>)
    requires
        path@ == joined(components),
    ensures
        encoding::views(final(out)@) == encoding::views(old(out)@) + path_texts(seq![components]),
{
    out.push(RepoPath::new(path));
    assert(encoding::views(out@) =~= encoding::views(old(out)@) + path_texts(seq![components]));
}

/// Collects every file-level path under `entry` (at `path`) into `out`.
///
/// For a file or symlink this is just `path`; a directory is searched to the
/// bottom, so that a wholesale add or remove is reported file by file.
fn collect_paths(
    store: &ObjectStore,
    entry: &TreeEntry,
    path: &str,
    Ghost(components): Ghost<Components>,
    depth: u128,
    out: &mut Vec<RepoPath>,
) -> (r: Result<(), Error>)
    requires
        path@ == joined(components),
    ensures
        match r {
            Ok(()) => collected(store@, entry@, components, depth as nat) is Ok && encoding::views(
                final(out)@,
            ) == encoding::views(old(out)@) + path_texts(
                collected(store@, entry@, components, depth as nat)->Ok_0,
            ),
            Err(e) => collected(store@, entry@, components, depth as nat) == Err::<
                Seq<Components>,
                ErrorV,
            >(e@),
        },
    decreases depth,
{
    match entry.kind() {
        EntryKind::Tree => {
            if depth == 0 {
                return Err(in_a_cycle());
            }
            let tree = match store.get_tree(&entry.id()) {
                Ok(tree) => tree,
                Err(e) => {
                    return Err(e);
                },
            };
            let entries = tree.entries();
            let ghost all = encoding::views(entries@);
            let ghost d = (depth - 1) as nat;
            let mut i: usize = 0;
            proof {
                assert(all.take(0) =~= seq![]);
                assert(path_texts(seq![]) =~= seq![]);
                assert(encoding::views(out@) =~= encoding::views(old(out)@) + path_texts(seq![]));
                assert(all.take(all.len() as int) =~= all);
            }
            while i < entries.len()
                invariant
                    depth > 0,
                    d == (depth - 1) as nat,
                    i <= entries@.len(),
                    all == encoding::views(entries@),
                    all.take(all.len() as int) == all,
                    path@ == joined(components),
                    entry@.kind is Tree,
                    tree::tree_of(store@, entry@.id) is Ok,
                    tree::tree_of(store@, entry@.id)->Ok_0.entries == all,
                    collected_all(store@, all.take(i as int), components, d) is Ok,
                    encoding::views(out@) == encoding::views(old(out)@) + path_texts(
                        collected_all(store@, all.take(i as int), components, d)->Ok_0,
                    ),
                decreases entries.len() - i,
            {
                let child = &entries[i];
                let ghost name = child@.name;
                let child_text_ = child_path(path, child.name());
                let ghost before = encoding::views(out@);
                let ghost some = collected_all(store@, all.take(i as int), components, d)->Ok_0;
                proof {
                    assert(all.take(i + 1).drop_last() =~= all.take(i as int));
                    assert(all.take(i + 1).last() == child@);
                    assert(components.push(name).drop_last() =~= components);
                }
                match collect_paths(
                    store,
                    child,
                    child_text_.as_str(),
                    Ghost(components.push(name)),
                    depth - 1,
                    out,
                ) {
                    Ok(()) => {
                        proof {
                            let more = collected(
                                store@,
                                child@,
                                components.push(name),
                                d,
                            )->Ok_0;
                            assert(path_texts(some + more) =~= path_texts(some) + path_texts(more));
                            assert(encoding::views(out@) =~= encoding::views(old(out)@) + path_texts(some + more));
                        }
                    },
                    Err(e) => {
                        proof {
                            lemma_collected_all_fails(store@, all, components, d, i + 1);
                        }
                        return Err(e);
                    },
                }
                i += 1;
            }
            Ok(())
        },
        _ => {
            push_path(out, path, Ghost(components));
            Ok(())
        },
    }
}

/// Where collecting from the first entries fails, collecting from all of them
/// fails the same.
proof fn lemma_collected_all_fails(
    objects: Objects,
    entries: Seq<TreeEntryV>,
    path: Components,
    depth: nat,
    n: int,
)
    requires
        0 <= n <= entries.len(),
        collected_all(objects, entries.take(n), path, depth) is Err,
    ensures
        collected_all(objects, entries, path, depth) == collected_all(
            objects,
            entries.take(n),
            path,
            depth,
        ),
    decreases entries.len() - n,
{
    if n < entries.len() {
        assert(entries.take(n + 1).drop_last() =~= entries.take(n));
        lemma_collected_all_fails(objects, entries, path, depth, n + 1);
    } else {
        assert(entries.take(n) =~= entries);
    }
}

/// Where comparing the first entries fails, comparing all of them fails the
/// same.
proof fn lemma_compared_all_fails(
    objects: Objects,
    old_map: Seq<TreeEntryV>,
    new_map: Seq<TreeEntryV>,
    path: Components,
    depth: nat,
    n: int,
)
    requires
        0 <= n <= old_map.len(),
        compared_all(objects, old_map.take(n), new_map, path, depth) is Err,
    ensures
        compared_all(objects, old_map, new_map, path, depth) == compared_all(
            objects,
            old_map.take(n),
            new_map,
            path,
            depth,
        ),
    decreases old_map.len() - n,
{
    if n < old_map.len() {
        assert(old_map.take(n + 1).drop_last() =~= old_map.take(n));
        lemma_compared_all_fails(objects, old_map, new_map, path, depth, n + 1);
    } else {
        assert(old_map.take(n) =~= old_map);
    }
}

/// Where searching the first entries fails, searching all of them fails the
/// same.
proof fn lemma_only_there_fails(
    objects: Objects,
    map: Seq<TreeEntryV>,
    other: Seq<TreeEntryV>,
    path: Components,
    depth: nat,
    n: int,
)
    requires
        0 <= n <= map.len(),
        only_there(objects, map.take(n), other, path, depth) is Err,
    ensures
        only_there(objects, map, other, path, depth) == only_there(
            objects,
            map.take(n),
            other,
            path,
            depth,
        ),
    decreases map.len() - n,
{
    if n < map.len() {
        assert(map.take(n + 1).drop_last() =~= map.take(n));
        lemma_only_there_fails(objects, map, other, path, depth, n + 1);
    } else {
        assert(map.take(n) =~= map);
    }
}

/// More changes behind changes.
proof fn lemma_extended_twice(diff: TreeDiffV, a: Changes, b: Changes)
    ensures
        extended(extended(diff, a), b) == extended(diff, both_changes(a, b)),
        extended(diff, no_changes()) == diff,
{
    assert(path_texts(a.added + b.added) =~= path_texts(a.added) + path_texts(b.added));
    assert(path_texts(a.removed + b.removed) =~= path_texts(a.removed) + path_texts(b.removed));
    assert(path_texts(a.modified + b.modified) =~= path_texts(a.modified) + path_texts(
        b.modified,
    ));
    assert(extended(extended(diff, a), b) =~= extended(diff, both_changes(a, b)));
    assert(path_texts(seq![]) =~= seq![]);
    assert(extended(diff, no_changes()) =~= diff);
}

/// Diffs the entry `old_entry` at `path` with the one that has its name now, if
/// any.
fn diff_entry(
    store: &ObjectStore,
    old_entry: &TreeEntry,
    new_entry: Option<TreeEntry>,
    path: &str,
    Ghost(components): Ghost<Components>,
    depth: u128,
    diff: &mut TreeDiff,
) -> (r: Result<(), Error>)
    requires
        path@ == joined(components),
    ensures
        ({
            let expected = compared_entry(
                store@,
                old_entry@,
                view_of(new_entry),
                components,
                depth as nat,
            );
            match r {
                Ok(()) => expected is Ok && final(diff)@ == extended(
                    old(diff)@,
                    expected->Ok_0,
                ),
                Err(e) => expected == Err::<Changes, ErrorV>(e@),
            }
        }),
    decreases depth, 1int,
{
    proof {
        lemma_extended_twice(diff@, no_changes(), no_changes());
    }
    let new_entry = match new_entry {
        None => {
            let r = collect_paths(
                store,
                old_entry,
                path,
                Ghost(components),
                depth,
                &mut diff.removed,
            );
            proof {
                if r is Ok {
                    let removed = collected(
                        store@,
                        old_entry@,
                        components,
                        depth as nat,
                    )->Ok_0;
                    assert(path_texts(seq![]) =~= seq![]);
                    assert(diff@ =~= extended(
                        old(diff)@,
                        (Changes { removed, ..no_changes() }),
                    ));
                }
            }
            return r;
        },
        Some(entry) => entry,
    };
    let old_is_tree = old_entry.kind().is_tree();
    let new_is_tree = new_entry.kind().is_tree();
    if old_is_tree && new_is_tree {
        // Both directories: descend (cheap if the sub-tree ids match).
        diff_into(
            store,
            &old_entry.id(),
            &new_entry.id(),
            path,
            Ghost(components),
            depth,
            diff,
        )
    } else if !old_is_tree && !new_is_tree {
        // Both files or symlinks: a modification iff the (kind, id) pair differs.
        if old_entry.id() != new_entry.id() || old_entry.kind() != new_entry.kind() {
            push_path(&mut diff.modified, path, Ghost(components));
            proof {
                assert(path_texts(seq![]) =~= seq![]);
                assert(diff@ =~= extended(
                    old(diff)@,
                    (Changes { modified: seq![components], ..no_changes() }),
                ));
            }
        }
        Ok(())
    } else {
        // The old thing is removed and the new thing is added.
        match collect_paths(
            store,
            old_entry,
            path,
            Ghost(components),
            depth,
            &mut diff.removed,
        ) {
            Ok(()) => {},
            Err(e) => {
                return Err(e);
            },
        }
        match collect_paths(store, &new_entry, path, Ghost(components), depth, &mut diff.added) {
            Ok(()) => {
                proof {
                    let removed = collected(store@, old_entry@, components, depth as nat)->Ok_0;
                    let added = collected(store@, new_entry@, components, depth as nat)->Ok_0;
                    assert(path_texts(seq![]) =~= seq![]);
                    assert(diff@ =~= extended(
                        old(diff)@,
                        (Changes { added, removed, modified: seq![] }),
                    ));
                }
                Ok(())
            },
            Err(e) => Err(e),
        }
    }
}

/// What an optional entry stands for.
spec fn view_of(entry: Option<TreeEntry>) -> Option<TreeEntryV> {
    match entry {
        Some(entry) => Some(entry@),
        None => None,
    }
}

/// Diffs two sub-trees at the same `prefix`.
fn diff_into(
    store: &ObjectStore,
    from_tree: &ObjectId,
    to_tree: &ObjectId,
    prefix: &str,
    Ghost(components): Ghost<Components>,
    depth: u128,
    diff: &mut TreeDiff,
) -> (r: Result<(), Error>)
    requires
        prefix@ == joined(components),
    ensures
        ({
            let expected = compared(store@, from_tree@, to_tree@, components, depth as nat);
            match r {
                Ok(()) => expected is Ok && final(diff)@ == extended(
                    old(diff)@,
                    expected->Ok_0,
                ),
                Err(e) => expected == Err::<Changes, ErrorV>(e@),
            }
        }),
    decreases depth, 0int,
{
    proof {
        lemma_extended_twice(diff@, no_changes(), no_changes());
    }
    // Identical sub-trees cannot contain any change: content addressing.
    if *from_tree == *to_tree {
        return Ok(());
    }
    if depth == 0 {
        return Err(in_a_cycle());
    }
    let from = match store.get_tree(from_tree) {
        Ok(tree) => tree,
        Err(e) => {
            return Err(e);
        },
    };
    let to = match store.get_tree(to_tree) {
        Ok(tree) => tree,
        Err(e) => {
            return Err(e);
        },
    };
    let from_map = entry_map(from.entries());
    let to_map = entry_map(to.entries());
    match diff_maps(
        store,
        from_map.as_slice(),
        to_map.as_slice(),
        prefix,
        Ghost(components),
        depth - 1,
        diff,
    ) {
        Ok(()) => {},
        Err(e) => {
            return Err(e);
        },
    }
    let ghost some = compared_all(
        store@,
        encoding::views(from_map@),
        encoding::views(to_map@),
        components,
        (depth - 1) as nat,
    )->Ok_0;
    match add_new_entries(
        store,
        to_map.as_slice(),
        from_map.as_slice(),
        prefix,
        Ghost(components),
        depth - 1,
        &mut diff.added,
    ) {
        Ok(()) => {
            proof {
                let added = only_there(
                    store@,
                    encoding::views(to_map@),
                    encoding::views(from_map@),
                    components,
                    (depth - 1) as nat,
                )->Ok_0;
                assert(path_texts(some.added + added) =~= path_texts(some.added) + path_texts(
                    added,
                ));
                assert(diff@ =~= extended(
                    old(diff)@,
                    (Changes { added: some.added + added, ..some }),
                ));
            }
            Ok(())
        },
        Err(e) => Err(e),
    }
}

/// Diffs the entries that were there.
fn diff_maps(
    store: &ObjectStore,
    from_map: &[TreeEntry],
    to_map: &[TreeEntry],
    prefix: &str,
    Ghost(components): Ghost<Components>,
    depth: u128,
    diff: &mut TreeDiff,
) -> (r: Result<(), Error>)
    requires
        prefix@ == joined(components),
    ensures
        ({
            let expected = compared_all(
                store@,
                encoding::views(from_map@),
                encoding::views(to_map@),
                components,
                depth as nat,
            );
            match r {
                Ok(()) => expected is Ok && final(diff)@ == extended(
                    old(diff)@,
                    expected->Ok_0,
                ),
                Err(e) => expected == Err::<Changes, ErrorV>(e@),
            }
        }),
    decreases depth, 2int,
{
    let ghost olds = encoding::views(from_map@);
    let ghost news = encoding::views(to_map@);
    let ghost d = depth as nat;
    let mut i: usize = 0;
    proof {
        assert(olds.take(0) =~= seq![]);
        assert(olds.take(olds.len() as int) =~= olds);
        lemma_extended_twice(diff@, no_changes(), no_changes());
    }
    while i < from_map.len()
        invariant
            i <= from_map@.len(),
            olds == encoding::views(from_map@),
            news == encoding::views(to_map@),
            olds.take(olds.len() as int) == olds,
            d == depth as nat,
            prefix@ == joined(components),
            compared_all(store@, olds.take(i as int), news, components, d) is Ok,
            diff@ == extended(
                old(diff)@,
                compared_all(store@, olds.take(i as int), news, components, d)->Ok_0,
            ),
        decreases from_map.len() - i,
    {
        let entry = &from_map[i];
        let ghost name = entry@.name;
        let ghost before = compared_all(
            store@,
            olds.take(i as int),
            news,
            components,
            d,
        )->Ok_0;
        let child = child_path(prefix, entry.name());
        proof {
            assert(olds.take(i + 1).drop_last() =~= olds.take(i as int));
            assert(olds.take(i + 1).last() == entry@);
            assert(components.push(name).drop_last() =~= components);
        }
        let new_entry = find_entry(to_map, entry.name());
        let ghost new_view = view_of(new_entry);
        match diff_entry(
            store,
            entry,
            new_entry,
            child.as_str(),
            Ghost(components.push(name)),
            depth,
            diff,
        ) {
            Ok(()) => {
                proof {
                    let more = compared_entry(
                        store@,
                        entry@,
                        new_view,
                        components.push(name),
                        d,
                    )->Ok_0;
                    lemma_extended_twice(old(diff)@, before, more);
                }
            },
            Err(e) => {
                proof {
                    lemma_compared_all_fails(store@, olds, news, components, d, i + 1);
                }
                return Err(e);
            },
        }
        i += 1;
    }
    Ok(())
}

/// Collects the files of the entries whose names are new.
fn add_new_entries(
    store: &ObjectStore,
    map: &[TreeEntry],
    other: &[TreeEntry],
    prefix: &str,
    Ghost(components): Ghost<Components>,
    depth: u128,
    out: &mut Vec<RepoPath>,
) -> (r: Result<(), Error>)
    requires
        prefix@ == joined(components),
    ensures
        ({
            let expected = only_there(
                store@,
                encoding::views(map@),
                encoding::views(other@),
                components,
                depth as nat,
            );
            match r {
                Ok(()) => expected is Ok && encoding::views(final(out)@) == encoding::views(old(out)@) + path_texts(
                    expected->Ok_0,
                ),
                Err(e) => expected == Err::<Seq<Components>, ErrorV>(e@),
            }
        }),
{
    let ghost here = encoding::views(map@);
    let ghost there = encoding::views(other@);
    let ghost d = depth as nat;
    let mut i: usize = 0;
    proof {
        assert(here.take(0) =~= seq![]);
        assert(here.take(here.len() as int) =~= here);
        assert(path_texts(seq![]) =~= seq![]);
        assert(encoding::views(out@) =~= encoding::views(old(out)@) + path_texts(seq![]));
    }
    while i < map.len()
        invariant
            i <= map@.len(),
            here == encoding::views(map@),
            there == encoding::views(other@),
            here.take(here.len() as int) == here,
            d == depth as nat,
            prefix@ == joined(components),
            only_there(store@, here.take(i as int), there, components, d) is Ok,
            encoding::views(out@) == encoding::views(old(out)@) + path_texts(
                only_there(store@, here.take(i as int), there, components, d)->Ok_0,
            ),
        decreases map.len() - i,
    {
        let entry = &map[i];
        let ghost name = entry@.name;
        let ghost before = only_there(store@, here.take(i as int), there, components, d)->Ok_0;
        proof {
            assert(here.take(i + 1).drop_last() =~= here.take(i as int));
            assert(here.take(i + 1).last() == entry@);
            assert(components.push(name).drop_last() =~= components);
        }
        if find_entry(other, entry.name()).is_none() {
            let child = child_path(prefix, entry.name());
            match collect_paths(
                store,
                entry,
                child.as_str(),
                Ghost(components.push(name)),
                depth,
                out,
            ) {
                Ok(()) => {
                    proof {
                        let more = collected(store@, entry@, components.push(name), d)->Ok_0;
                        assert(path_texts(before + more) =~= path_texts(before) + path_texts(
                            more,
                        ));
                        assert(encoding::views(out@) =~= encoding::views(old(out)@) + path_texts(before + more));
                    }
                },
                Err(e) => {
                    proof {
                        lemma_only_there_fails(store@, here, there, components, d, i + 1);
                    }
                    return Err(e);
                },
            }
        }
        i += 1;
    }
    Ok(())
}

/// Diffs the tree `from_tree` against the tree `to_tree`, file by file.
///
/// If the two are the same `ObjectId` the diff is empty and nothing is read.
pub fn diff_trees(store: &ObjectStore, from_tree: &ObjectId, to_tree: &ObjectId) -> (r: Result<
    TreeDiff,
    Error,
>)
    ensures
        match r {
            Ok(diff) => tree_changes(store@, from_tree@, to_tree@) is Ok && diff@ == diff_of(
                tree_changes(store@, from_tree@, to_tree@)->Ok_0,
            ),
            Err(e) => tree_changes(store@, from_tree@, to_tree@) == Err::<Changes, ErrorV>(e@),
        },
{
    let mut diff = TreeDiff::empty();
    let ghost start = diff@;
    let depth: u128 = store.len() as u128 + 1;
    let ghost none: Components = seq![];
    proof {
        assert(joined(none) =~= ""@) by {
            reveal_strlit("");
        }
    }
    match diff_into(store, from_tree, to_tree, "", Ghost(none), depth, &mut diff) {
        Ok(()) => {},
        Err(e) => {
            return Err(e);
        },
    }
    proof {
        let changes = tree_changes(store@, from_tree@, to_tree@)->Ok_0;
        assert(diff@.added =~= path_texts(changes.added));
        assert(diff@.removed =~= path_texts(changes.removed));
        assert(diff@.modified =~= path_texts(changes.modified));
    }
    diff.sort();
    Ok(diff)
}

// ── laws ─────────────────────────────────────────────────────────────────────

/// A path comes before another where it is a beginning of it, where its bytes are smaller at
/// the first difference, or where a component of it ends there and that of the other goes on.
pub proof fn law_path_order(a: Seq<char>, b: Seq<char>, k: int)
    requires
        ({
            let x = encode_utf8(a);
            let y = encode_utf8(b);
            0 <= k <= x.len() && k < y.len() && x.take(k) == y.take(k)
        }),
    ensures
        ({
            let x = encode_utf8(a);
            let y = encode_utf8(b);
            let first = order::lex_lt(path_rank(a), path_rank(b));
            &&& k == x.len() ==> first
            &&& k < x.len() && x[k] == 47 && y[k] != 47 ==> first
            &&& k < x.len() && x[k] != 47 && y[k] == 47 ==> !first
            &&& k < x.len() && x[k] != 47 && y[k] != 47 && x[k] < y[k] ==> first
            &&& k < x.len() && x[k] != 47 && y[k] != 47 && x[k] > y[k] ==> !first
        }),
{
    let x = encode_utf8(a);
    let y = encode_utf8(b);
    assert forall|i: int| 0 <= i < k implies #[trigger] path_rank(a)[i] == path_rank(b)[i] by {
        assert(x.take(k)[i] == y.take(k)[i]);
    }
    order::lemma_lex_common_prefix(path_rank(a), path_rank(b), k);
}

/// The text of a path is its components with a slash between any two.
pub proof fn law_joined(path: Components, name: Seq<char>)
    requires
        forall|i: int| 0 <= i < path.len() ==> (#[trigger] path[i]).len() > 0,
    ensures
        joined(path) == text::rejoined(path, '/'),
        joined(seq![name]) == name,
        path.len() > 0 ==> joined(path.push(name)) == joined(path) + seq!['/'] + name,
{
    lemma_joined(path);
    assert(seq![name].drop_last() =~= seq![]);
    assert(joined(seq![name].drop_last()).len() == 0);
    assert(path.push(name).drop_last() =~= path);
    if path.len() > 0 {
        assert(joined(path.push(name)) =~= joined(path) + seq!['/'] + name);
    }
}

proof fn lemma_joined(path: Components)
    requires
        forall|i: int| 0 <= i < path.len() ==> (#[trigger] path[i]).len() > 0,
    ensures
        joined(path) == text::rejoined(path, '/'),
        path.len() > 0 ==> joined(path).len() > 0,
    decreases path.len(),
{
    if path.len() > 0 {
        let before = path.drop_last();
        assert(path[path.len() - 1].len() > 0);
        assert forall|i: int| 0 <= i < before.len() implies (#[trigger] before[i]).len() > 0 by {
            assert(path[i].len() > 0);
        }
        lemma_joined(before);
        if before.len() == 0 {
            assert(joined(before) =~= seq![]);
        }
    }
}

/// Of two trees the diff lists a file as added where only the second has it, as removed where
/// only the first has it, and as modified where both have it with another content or of
/// another kind; a file that is the same in both is not listed.
pub proof fn law_diff(objects: Objects, from: Seq<u8>, to: Seq<u8>, path: Components)
    requires
        names_distinct(objects, from),
        names_distinct(objects, to),
        tree_changes(objects, from, to) is Ok,
    ensures
        ({
            let changes = tree_changes(objects, from, to)->Ok_0;
            let added = changes.added.contains(path);
            let removed = changes.removed.contains(path);
            let modified = changes.modified.contains(path);
            match (file_at(objects, from, path), file_at(objects, to, path)) {
                (None, None) => !added && !removed && !modified,
                (None, Some(_)) => added && !removed && !modified,
                (Some(_), None) => !added && removed && !modified,
                (Some(a), Some(b)) => !added && !removed && modified == (a.id != b.id || a.kind
                    != b.kind),
            }
        }),
{
    lemma_diff_is_exact(objects, from, to, path);
}

/// A comparison that has gone as deep as it may ends: the trees are nested in a cycle.
pub proof fn law_cycle(objects: Objects, from: Seq<u8>, to: Seq<u8>, path: Components)
    ensures
        from != to ==> compared(objects, from, to, path, 0) == Err::<Changes, ErrorV>(
            ErrorV::Corruption("trees are nested in a cycle"@),
        ),
{
}

/// A tree holds a file where its first entry of that name is one, or is a directory that holds
/// it; a directory itself is no file.
pub proof fn law_file_at(
    objects: Objects,
    id: Seq<u8>,
    entries: Seq<TreeEntryV>,
    name: Seq<char>,
    rest: Components,
    i: int,
)
    requires
        tree::tree_of(objects, id) matches Ok(tree) && tree.entries == entries,
        tree::first_named(entries, name, i),
    ensures
        ({
            let entry = entries[i];
            let there = file_at(objects, id, seq![name]);
            let below = file_at(objects, id, seq![name] + rest);
            &&& !(entry.kind is Tree) ==> there == Some(entry)
            &&& entry.kind is Tree ==> there is None
            &&& rest.len() > 0 && !(entry.kind is Tree) ==> below is None
            &&& rest.len() > 0 && entry.kind is Tree ==> below == file_at(objects, entry.id, rest)
        }),
{
    tree::law_named(entries, name);
    let none: Components = seq![];
    assert(seq![name].skip(1) =~= none);
    assert((seq![name] + rest).skip(1) =~= rest);
    assert((seq![name] + rest)[0] == name);
    assert(file_at(objects, entries[i].id, none) is None);
}

} // verus!
