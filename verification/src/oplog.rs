//! The operation log: the head of the op DAG and its navigation.
//!
//! The op-log is the **source of truth**; snapshots, trees, blobs and chunks
//! are the immutable content it points into. Every repo-mutating command appends
//! exactly one [`Op`], each with the [`View`](crate::object::View) of the whole
//! repository after it.
//!
//! The only mutable pointer is the `op-head` file: one [`ObjectId`] in lowercase
//! hex. Advancing it is the one commit point of an operation: write the new
//! objects, then rewrite the head. Here the head is what the file holds; reading
//! and writing it is left to the caller.
use vstd::prelude::*;
use vstd::string::*;

use crate::object;
use crate::text;
use crate::store;
use crate::hash;
use crate::error;
use crate::encoding;
use crate::encoding::Encode;
use crate::error::{Error, ErrorV};
use crate::hash::{ObjectId, TypeTag};
use crate::object::{Op, OpMetadata, OpMetadataV, OpV, Timestamp, TimestampV};
use crate::store::{ObjectStore, Objects};
use crate::text::{append_text, debug_quote, trim};

verus! {

/// The control directory under a repository root.
pub const TACK_DIR: &'static str = ".tack";

/// The file under the control directory that records the current op head.
pub const OP_HEAD_FILE: &'static str = "op-head";

// ── the head ─────────────────────────────────────────────────────────────────

/// The head that the contents of the head file stand for; none if there is no
/// file.
pub open spec fn head_in(contents: Option<Seq<char>>) -> Result<Option<Seq<u8>>, ErrorV> {
    match contents {
        None => Ok(None),
        Some(text) => if hash::is_hex_id(text::trimmed(text)) {
            Ok(Some(hash::hex_bytes(text::trimmed(text))))
        } else {
            Err(
                ErrorV::Corruption(
                    "op-head does not contain a valid object id: "@ + text::debug_text(text::trimmed(text)),
                ),
            )
        },
    }
}

/// The characters of an optional text.
pub open spec fn text_of(text: Option<&str>) -> Option<Seq<char>> {
    match text {
        Some(s) => Some(s@),
        None => None,
    }
}

/// The head that is written is the head that is read.
pub proof fn lemma_head_reads_back(id: Seq<u8>)
    requires
        id.len() == 32,
    ensures
        head_in(Some(hash::hex_text(id))) == Ok::<Option<Seq<u8>>, ErrorV>(Some(id)),
{
    hash::lemma_hex_round_trip(id);
    let s = hash::hex_text(id);
    assert forall|i: int| 0 <= i < 64 implies !text::white(#[trigger] s[i]) by {
        assert(hash::hex_value(s[i]) >= 0);
    }
    assert(text::trimmed(s) == s);
}

/// Reads the current op head from the contents of the head file.
///
/// `Ok(None)` if there is no file (a fresh store before its first op).
pub fn op_head(contents: Option<&str>) -> (r: Result<Option<ObjectId>, Error>)
    ensures
        match r {
            Ok(Some(id)) => head_in(text_of(contents)) == Ok::<Option<Seq<u8>>, ErrorV>(Some(id@)),
            Ok(None) => head_in(text_of(contents)) == Ok::<Option<Seq<u8>>, ErrorV>(None),
            Err(e) => head_in(text_of(contents)) == Err::<Option<Seq<u8>>, ErrorV>(e@),
        },
{
    match contents {
        None => Ok(None),
        Some(text) => {
            let trimmed_text = trim(text);
            match ObjectId::from_str(trimmed_text.as_str()) {
                Ok(id) => Ok(Some(id)),
                Err(_) => {
                    let mut message = "op-head does not contain a valid object id: ".to_owned();
                    append_text(&mut message, debug_quote(trimmed_text.as_str()).as_str());
                    Err(Error::Corruption(message))
                },
            }
        },
    }
}

/// What the head file is to hold for the head `id`.
pub fn set_op_head(id: ObjectId) -> (r: String)
    ensures
        r@ == hash::hex_text(id@),
        head_in(Some(r@)) == Ok::<Option<Seq<u8>>, ErrorV>(Some(id@)),
{
    proof {
        hash::lemma_id_len(id);
        lemma_head_reads_back(id@);
    }
    id.to_hex()
}

/// The op under `id`.
pub open spec fn op_at(objects: Objects, id: Seq<u8>) -> Result<OpV, ErrorV> {
    store::read_as::<Op>(objects, id, TypeTag::Op)
}

/// The op at the head.
pub open spec fn head_op(objects: Objects, contents: Option<Seq<char>>) -> Result<OpV, ErrorV> {
    match head_in(contents) {
        Err(e) => Err(e),
        Ok(None) => Err(
            ErrorV::Corruption("repository has no op-head; was it initialized?"@),
        ),
        Ok(Some(id)) => op_at(objects, id),
    }
}

/// Loads the [`Op`] at the head of the op-log.
///
/// A repository always has at least the root op, so an absent head is a
/// structural error here (unlike [`op_head`], which reports it as `None`).
pub fn current_op(store: &ObjectStore, contents: Option<&str>) -> (r: Result<Op, Error>)
    ensures
        error::outcome(r) == head_op(store@, text_of(contents)),
{
    match op_head(contents) {
        Err(e) => Err(e),
        Ok(None) => Err(
            Error::Corruption("repository has no op-head; was it initialized?".to_owned()),
        ),
        Ok(Some(id)) => store.get_op(&id),
    }
}

/// The op that records a command: it starts and ends at the same moment.
pub open spec fn recorded_op(
    parents: Seq<Seq<u8>>,
    view: Seq<u8>,
    now: TimestampV,
    hostname: Seq<char>,
    username: Seq<char>,
    description: Seq<char>,
    command: Seq<Seq<char>>,
) -> OpV {
    OpV {
        parents,
        view,
        metadata: OpMetadataV { start: now, end: now, hostname, username, command },
        description,
    }
}

/// Builds and stores a new [`Op`], and returns its id: the new head.
///
/// The op records `parents` (the preceding heads; empty only for the root op),
/// the `view_id` of the state at the end of the operation, a `description` and
/// the literal `command`. One moment, `now`, is both its start and its end.
pub fn append_op(
    store: &mut ObjectStore,
    parents: Vec<ObjectId>,
    view_id: ObjectId,
    now: Timestamp,
    hostname: &str,
    username: &str,
    description: &str,
    command: Vec<String>,
) -> (r: ObjectId)
    ensures
        ({
            let op = recorded_op(
                encoding::views(parents@),
                view_id@,
                now@,
                hostname@,
                username@,
                description@,
                encoding::views(command@),
            );
            &&& r@ == hash::content_id(TypeTag::Op, Op::format(op))
            &&& final(store)@ == store::stored(old(store)@, TypeTag::Op, Op::format(op))
        }),
{
    let metadata = OpMetadata::new(now, now, hostname, username, command);
    let op = Op::new(parents, view_id, metadata, description);
    store.put_op(&op)
}

// ── the log ──────────────────────────────────────────────────────────────────

/// `found`, followed by those of `ids` that are not yet there, each once.
pub open spec fn with_new(found: Seq<Seq<u8>>, ids: Seq<Seq<u8>>) -> Seq<Seq<u8>>
    decreases ids.len(),
{
    if ids.len() == 0 {
        found
    } else {
        let before = with_new(found, ids.drop_last());
        if before.contains(ids.last()) {
            before
        } else {
            before.push(ids.last())
        }
    }
}

/// The ids that a breadth-first walk over the parents finds, in the order in
/// which it finds them, once the first `done` of those that were `found` have
/// been visited.
///
/// No more ids can be visited than there are objects.
pub open spec fn walked(objects: Objects, found: Seq<Seq<u8>>, done: int) -> Result<
    Seq<Seq<u8>>,
    ErrorV,
>
    decreases objects.dom().len() + 1 - done,
{
    if done >= found.len() || done > objects.dom().len() {
        Ok(found)
    } else {
        match op_at(objects, found[done]) {
            Err(e) => Err(e),
            Ok(op) => walked(objects, with_new(found, op.parents), done + 1),
        }
    }
}

/// The op under `id`, which is readable.
pub open spec fn op_of(objects: Objects, id: Seq<u8>) -> OpV {
    op_at(objects, id)->Ok_0
}

/// Whether none of the ids has `ids[i]` as a parent.
pub open spec fn childless(objects: Objects, ids: Seq<Seq<u8>>, i: int) -> bool {
    forall|c: int|
        0 <= c < ids.len() ==> !op_of(objects, #[trigger] ids[c]).parents.contains(ids[i])
}

/// The first index from `from` on at which an id stands that is a parent of none;
/// the number of ids if there is none.
pub open spec fn first_childless(objects: Objects, ids: Seq<Seq<u8>>, from: int) -> int
    decreases ids.len() - from,
{
    if from >= ids.len() {
        ids.len() as int
    } else if childless(objects, ids, from) {
        from
    } else {
        first_childless(objects, ids, from + 1)
    }
}

/// The ids with each one before its parents: again and again the first that is a
/// parent of none of those that are left. Where each of those is a parent, they
/// keep their order.
pub open spec fn newest_first(objects: Objects, ids: Seq<Seq<u8>>) -> Seq<Seq<u8>>
    decreases ids.len(),
{
    let i = first_childless(objects, ids, 0);
    if 0 <= i < ids.len() {
        seq![ids[i]] + newest_first(objects, ids.remove(i))
    } else {
        ids
    }
}

/// The ids of the log from the head on: those that a walk over the parents
/// finds, each before its parents.
pub open spec fn log_ids(objects: Objects, head: Seq<u8>) -> Result<Seq<Seq<u8>>, ErrorV> {
    match walked(objects, seq![head], 0) {
        Err(e) => Err(e),
        Ok(ids) => Ok(newest_first(objects, ids)),
    }
}

/// The log that the contents of the head file lead to.
pub open spec fn log_of(objects: Objects, contents: Option<Seq<char>>) -> Result<
    Seq<OpV>,
    ErrorV,
> {
    match head_in(contents) {
        Err(e) => Err(e),
        Ok(None) => Ok(seq![]),
        Ok(Some(head)) => match log_ids(objects, head) {
            Err(e) => Err(e),
            Ok(ids) => Ok(ids.map_values(|id: Seq<u8>| op_of(objects, id))),
        },
    }
}

/// What `with_new` keeps and adds.
proof fn lemma_with_new(found: Seq<Seq<u8>>, ids: Seq<Seq<u8>>)
    requires
        found.no_duplicates(),
    ensures
        with_new(found, ids).no_duplicates(),
        found.len() <= with_new(found, ids).len(),
        forall|i: int| 0 <= i < found.len() ==> with_new(found, ids)[i] == found[i],
        forall|i: int|
            found.len() <= i < with_new(found, ids).len() ==> ids.contains(
                #[trigger] with_new(found, ids)[i],
            ),
        forall|i: int| 0 <= i < ids.len() ==> with_new(found, ids).contains(#[trigger] ids[i]),
    decreases ids.len(),
{
    if ids.len() > 0 {
        let before = with_new(found, ids.drop_last());
        let now = with_new(found, ids);
        lemma_with_new(found, ids.drop_last());
        assert forall|i: int| found.len() <= i < now.len() implies ids.contains(
            #[trigger] now[i],
        ) by {
            if i < before.len() {
                assert(now[i] == before[i]);
                let k = choose|k: int|
                    0 <= k < ids.drop_last().len() && ids.drop_last()[k] == before[i];
                assert(ids[k] == now[i]);
            } else {
                assert(ids[ids.len() - 1] == now[i]);
            }
        }
        assert forall|i: int| 0 <= i < ids.len() implies now.contains(#[trigger] ids[i]) by {
            if i < ids.len() - 1 {
                assert(ids.drop_last()[i] == ids[i]);
                let k = choose|k: int| 0 <= k < before.len() && before[k] == ids[i];
                assert(now[k] == ids[i]);
            } else if !before.contains(ids.last()) {
                assert(now[now.len() - 1] == ids[i]);
            }
        }
    }
}

/// Distinct ids of objects are no more than the objects.
proof fn lemma_no_more_than_objects(objects: Objects, ids: Seq<Seq<u8>>)
    requires
        objects.dom().finite(),
        ids.no_duplicates(),
        forall|i: int| 0 <= i < ids.len() ==> objects.dom().contains(#[trigger] ids[i]),
    ensures
        ids.len() <= objects.dom().len(),
{
    ids.unique_seq_to_set();
    assert(ids.to_set().subset_of(objects.dom()));
    vstd::set_lib::lemma_len_subset(ids.to_set(), objects.dom());
}

/// Whether the ids up to `n` are those of readable ops.
pub open spec fn readable(objects: Objects, ids: Seq<Seq<u8>>, n: int) -> bool {
    forall|i: int| 0 <= i < n ==> op_at(objects, #[trigger] ids[i]) is Ok
}

/// Whether the parents of the ids up to `n` are among the ids.
pub open spec fn complete(objects: Objects, ids: Seq<Seq<u8>>, n: int) -> bool {
    forall|i: int, k: int|
        0 <= i < n && 0 <= k < op_of(objects, ids[i]).parents.len() ==> ids.contains(
            #[trigger] op_of(objects, #[trigger] ids[i]).parents[k],
        )
}

/// Whether `ids[j]` is a parent of one of the ids before it.
pub open spec fn has_child_before(objects: Objects, ids: Seq<Seq<u8>>, j: int) -> bool {
    exists|i: int| 0 <= i < j && op_of(objects, #[trigger] ids[i]).parents.contains(ids[j])
}

/// Whether each id but the first is a parent of one before it.
pub open spec fn connected(objects: Objects, ids: Seq<Seq<u8>>) -> bool {
    forall|j: int| 0 < j < ids.len() ==> #[trigger] has_child_before(objects, ids, j)
}

/// One step of a walk keeps what was found to be so.
proof fn lemma_walked_step(objects: Objects, found: Seq<Seq<u8>>, done: int)
    requires
        found.no_duplicates(),
        0 <= done < found.len(),
        op_at(objects, found[done]) is Ok,
        readable(objects, found, done),
        complete(objects, found, done),
        connected(objects, found),
    ensures
        ({
            let next = with_new(found, op_of(objects, found[done]).parents);
            &&& next.no_duplicates()
            &&& readable(objects, next, done + 1)
            &&& complete(objects, next, done + 1)
            &&& connected(objects, next)
        }),
{
    let parents = op_of(objects, found[done]).parents;
    let next = with_new(found, parents);
    lemma_with_new(found, parents);
    assert forall|i: int, k: int|
        0 <= i < done + 1 && 0 <= k < op_of(objects, next[i]).parents.len() implies next.contains(
        #[trigger] op_of(objects, #[trigger] next[i]).parents[k]) by {
        assert(next[i] == found[i]);
        let p = op_of(objects, found[i]).parents[k];
        if i < done {
            assert(found.contains(p));
            let m = choose|m: int| 0 <= m < found.len() && found[m] == p;
            assert(next[m] == p);
        } else {
            assert(parents[k] == p);
        }
    }
    assert forall|j: int| 0 < j < next.len() implies #[trigger] has_child_before(
        objects,
        next,
        j,
    ) by {
        if j < found.len() {
            assert(has_child_before(objects, found, j));
            let i = choose|i: int|
                0 <= i < j && op_of(objects, #[trigger] found[i]).parents.contains(found[j]);
            assert(next[i] == found[i]);
        } else {
            assert(next[done] == found[done]);
            assert(op_of(objects, next[done]).parents.contains(next[j]));
        }
    }
    assert forall|i: int| 0 <= i < done + 1 implies op_at(objects, #[trigger] next[i]) is Ok by {
        assert(next[i] == found[i]);
    }
}

/// What a walk that succeeds has found.
proof fn lemma_walked(objects: Objects, found: Seq<Seq<u8>>, done: int)
    requires
        objects.dom().finite(),
        found.no_duplicates(),
        0 <= done <= found.len(),
        readable(objects, found, done),
        complete(objects, found, done),
        connected(objects, found),
        walked(objects, found, done) is Ok,
    ensures
        ({
            let ids = walked(objects, found, done)->Ok_0;
            &&& found.len() <= ids.len()
            &&& forall|i: int| 0 <= i < found.len() ==> ids[i] == found[i]
            &&& ids.no_duplicates()
            &&& readable(objects, ids, ids.len() as int)
            &&& complete(objects, ids, ids.len() as int)
            &&& connected(objects, ids)
        }),
    decreases objects.dom().len() + 1 - done,
{
    assert(done <= objects.dom().len()) by {
        let visited = found.take(done);
        assert forall|i: int| 0 <= i < visited.len() implies objects.dom().contains(
            #[trigger] visited[i],
        ) by {
            assert(op_at(objects, found[i]) is Ok);
        }
        lemma_no_more_than_objects(objects, visited);
    }
    if done < found.len() {
        lemma_with_new(found, op_of(objects, found[done]).parents);
        lemma_walked_step(objects, found, done);
        lemma_walked(objects, with_new(found, op_of(objects, found[done]).parents), done + 1);
    }
}

/// What the search for an id that is a parent of none finds.
proof fn lemma_first_childless(objects: Objects, ids: Seq<Seq<u8>>, from: int)
    requires
        0 <= from,
    ensures
        from <= ids.len() ==> from <= first_childless(objects, ids, from) <= ids.len(),
        first_childless(objects, ids, from) < ids.len() ==> childless(
            objects,
            ids,
            first_childless(objects, ids, from),
        ),
        forall|k: int|
            from <= k < first_childless(objects, ids, from) && k < ids.len() ==> !#[trigger] childless(
                objects,
                ids,
                k,
            ),
    decreases ids.len() - from,
{
    if from < ids.len() && !childless(objects, ids, from) {
        lemma_first_childless(objects, ids, from + 1);
    }
}

/// Whether each id stands before those of its parents that are among the ids.
pub open spec fn before_parents(objects: Objects, ids: Seq<Seq<u8>>) -> bool {
    forall|i: int, j: int|
        0 <= i < ids.len() && 0 <= j < ids.len() && op_of(
            objects,
            #[trigger] ids[i],
        ).parents.contains(#[trigger] ids[j]) ==> i < j
}

/// Whether each id is a parent of the one before it.
pub open spec fn is_lineage(objects: Objects, ids: Seq<Seq<u8>>) -> bool {
    forall|i: int, j: int|
        0 <= i < ids.len() && j == i + 1 && j < ids.len() ==> op_of(
            objects,
            #[trigger] ids[i],
        ).parents.contains(#[trigger] ids[j])
}

/// Whether a lineage leads from an op back to it.
pub open spec fn own_ancestor(objects: Objects, id: Seq<u8>) -> bool {
    exists|line: Seq<Seq<u8>>| #[trigger]
        is_lineage(objects, line) && line.len() > 1 && line[0] == id && line.last() == id
}

/// Whether none of the ids is that of an op that is its own ancestor.
pub open spec fn acyclic(objects: Objects, ids: Seq<Seq<u8>>) -> bool {
    forall|i: int| 0 <= i < ids.len() ==> !own_ancestor(objects, #[trigger] ids[i])
}

/// Where each id is a parent of one of them, there are lineages of any length.
proof fn lemma_long_lineage(objects: Objects, ids: Seq<Seq<u8>>, n: nat) -> (line: Seq<Seq<u8>>)
    requires
        ids.len() > 0,
        forall|i: int| 0 <= i < ids.len() ==> !#[trigger] childless(objects, ids, i),
    ensures
        line.len() == n + 1,
        is_lineage(objects, line),
        forall|i: int| 0 <= i < line.len() ==> ids.contains(#[trigger] line[i]),
    decreases n,
{
    if n == 0 {
        let line = seq![ids[0]];
        assert(line[0] == ids[0]);
        line
    } else {
        let rest = lemma_long_lineage(objects, ids, (n - 1) as nat);
        assert(ids.contains(rest[0]));
        let k = choose|k: int| 0 <= k < ids.len() && ids[k] == rest[0];
        assert(!childless(objects, ids, k));
        let c = choose|c: int|
            0 <= c < ids.len() && op_of(objects, #[trigger] ids[c]).parents.contains(ids[k]);
        let line = seq![ids[c]] + rest;
        assert forall|i: int, j: int|
            0 <= i < line.len() && j == i + 1 && j < line.len() implies op_of(
            objects,
            #[trigger] line[i],
        ).parents.contains(#[trigger] line[j]) by {
            assert(line[j] == rest[j - 1]);
            if i > 0 {
                assert(line[i] == rest[i - 1]);
            }
        }
        assert forall|i: int| 0 <= i < line.len() implies ids.contains(#[trigger] line[i]) by {
            if i > 0 {
                assert(line[i] == rest[i - 1]);
            }
        }
        line
    }
}

/// Where no op is its own ancestor, one is a parent of none.
proof fn lemma_some_childless(objects: Objects, ids: Seq<Seq<u8>>)
    requires
        ids.len() > 0,
        acyclic(objects, ids),
    ensures
        first_childless(objects, ids, 0) < ids.len(),
{
    lemma_first_childless(objects, ids, 0);
    if first_childless(objects, ids, 0) == ids.len() {
        let line = lemma_long_lineage(objects, ids, ids.len());
        if line.no_duplicates() {
            line.unique_seq_to_set();
            assert(line.to_set().subset_of(ids.to_set()));
            vstd::seq_lib::seq_to_set_is_finite(ids);
            vstd::set_lib::lemma_len_subset(line.to_set(), ids.to_set());
            ids.lemma_cardinality_of_set();
            assert(false);
        }
        let (i, j) = choose|i: int, j: int|
            0 <= i < line.len() && 0 <= j < line.len() && i != j && line[i] == line[j];
        let a = if i < j { i } else { j };
        let b = if i < j { j } else { i };
        let loop_line = line.subrange(a, b + 1);
        assert forall|x: int, y: int|
            0 <= x < loop_line.len() && y == x + 1 && y < loop_line.len() implies op_of(
            objects,
            #[trigger] loop_line[x],
        ).parents.contains(#[trigger] loop_line[y]) by {
            assert(loop_line[x] == line[a + x] && loop_line[y] == line[a + y]);
        }
        assert(loop_line[0] == line[a] && loop_line.last() == line[b]);
        assert(is_lineage(objects, loop_line));
        assert(own_ancestor(objects, line[a]));
        assert(ids.contains(line[a]));
        let k = choose|k: int| 0 <= k < ids.len() && ids[k] == line[a];
        assert(!own_ancestor(objects, ids[k]));
    }
}

/// What is left after one id was taken out.
proof fn lemma_left(ids: Seq<Seq<u8>>, i: int)
    requires
        ids.no_duplicates(),
        0 <= i < ids.len(),
    ensures
        ids.remove(i).no_duplicates(),
        forall|id: Seq<u8>| #[trigger]
            ids.remove(i).contains(id) <==> ids.contains(id) && id != ids[i],
{
    let left = ids.remove(i);
    assert forall|a: int, b: int| 0 <= a < left.len() && 0 <= b < left.len() && a != b implies
        left[a] != left[b] by {
        let x = if a < i { a } else { a + 1 };
        let y = if b < i { b } else { b + 1 };
        assert(left[a] == ids[x] && left[b] == ids[y]);
    }
    assert forall|id: Seq<u8>| #[trigger] left.contains(id) <==> ids.contains(id) && id
        != ids[i] by {
        if left.contains(id) {
            let a = choose|a: int| 0 <= a < left.len() && left[a] == id;
            let x = if a < i { a } else { a + 1 };
            assert(ids[x] == id);
        }
        if ids.contains(id) && id != ids[i] {
            let x = choose|x: int| 0 <= x < ids.len() && ids[x] == id;
            let a = if x < i { x } else { x - 1 };
            assert(left[a] == id);
        }
    }
}

/// Putting ids in order keeps them.
proof fn lemma_ordered(objects: Objects, ids: Seq<Seq<u8>>)
    requires
        ids.no_duplicates(),
    ensures
        ({
            let r = newest_first(objects, ids);
            &&& r.len() == ids.len()
            &&& r.no_duplicates()
            &&& forall|id: Seq<u8>| #[trigger] r.contains(id) <==> ids.contains(id)
        }),
    decreases ids.len(),
{
    let r = newest_first(objects, ids);
    let i = first_childless(objects, ids, 0);
    lemma_first_childless(objects, ids, 0);
    if i < ids.len() {
        let left = ids.remove(i);
        let rest = newest_first(objects, left);
        lemma_left(ids, i);
        lemma_ordered(objects, left);
        assert(r =~= seq![ids[i]] + rest);
        assert forall|id: Seq<u8>| #[trigger] r.contains(id) <==> ids.contains(id) by {
            if r.contains(id) {
                let a = choose|a: int| 0 <= a < r.len() && r[a] == id;
                if a > 0 {
                    assert(rest[a - 1] == id);
                    assert(rest.contains(id));
                    assert(left.contains(id));
                }
            }
            if ids.contains(id) {
                if id == ids[i] {
                    assert(r[0] == id);
                } else {
                    assert(left.contains(id));
                    assert(rest.contains(id));
                    let a = choose|a: int| 0 <= a < rest.len() && rest[a] == id;
                    assert(r[a + 1] == id);
                }
            }
        }
        assert forall|a: int| 0 <= a < rest.len() implies #[trigger] rest[a] != ids[i] by {
            assert(rest.contains(rest[a]));
            assert(left.contains(rest[a]));
        }
        assert forall|a: int, b: int| 0 <= a < r.len() && 0 <= b < r.len() && a != b implies r[a]
            != r[b] by {
            if a > 0 && b > 0 {
                assert(r[a] == rest[a - 1] && r[b] == rest[b - 1]);
            } else if a > 0 {
                assert(r[a] == rest[a - 1]);
            } else {
                assert(r[b] == rest[b - 1]);
            }
        }
    }
}

/// Where no op is its own ancestor, each is put before its parents.
proof fn lemma_parents_follow(objects: Objects, ids: Seq<Seq<u8>>)
    requires
        ids.no_duplicates(),
        acyclic(objects, ids),
    ensures
        before_parents(objects, newest_first(objects, ids)),
    decreases ids.len(),
{
    let r = newest_first(objects, ids);
    if ids.len() > 0 {
        let i = first_childless(objects, ids, 0);
        lemma_first_childless(objects, ids, 0);
        lemma_some_childless(objects, ids);
        let left = ids.remove(i);
        let rest = newest_first(objects, left);
        lemma_left(ids, i);
        assert forall|k: int| 0 <= k < left.len() implies !own_ancestor(
            objects,
            #[trigger] left[k],
        ) by {
            let x = if k < i { k } else { k + 1 };
            assert(left[k] == ids[x]);
        }
        lemma_parents_follow(objects, left);
        lemma_ordered(objects, ids);
        assert(r =~= seq![ids[i]] + rest);
        assert forall|a: int, b: int|
            0 <= a < r.len() && 0 <= b < r.len() && op_of(
                objects,
                #[trigger] r[a],
            ).parents.contains(#[trigger] r[b]) implies a < b by {
            assert(r.contains(r[a]));
            let c = choose|c: int| 0 <= c < ids.len() && ids[c] == r[a];
            if b == 0 {
                assert(!op_of(objects, ids[c]).parents.contains(ids[i]));
            } else if a > 0 {
                assert(op_of(objects, rest[a - 1]).parents.contains(rest[b - 1]));
            }
        }
    }
}

/// Whether `x` stands before `y`.
spec fn stands_before(ids: Seq<Seq<u8>>, x: Seq<u8>, y: Seq<u8>) -> bool {
    exists|i: int, j: int|
        0 <= i < j < ids.len() && #[trigger] ids[i] == x && #[trigger] ids[j] == y
}

/// An op that stands before one of its parents is put before it.
proof fn lemma_stays_before(objects: Objects, ids: Seq<Seq<u8>>, a: int, b: int)
    requires
        ids.no_duplicates(),
        0 <= a < b < ids.len(),
        op_of(objects, ids[a]).parents.contains(ids[b]),
    ensures
        stands_before(newest_first(objects, ids), ids[a], ids[b]),
    decreases ids.len(),
{
    let r = newest_first(objects, ids);
    let i = first_childless(objects, ids, 0);
    lemma_first_childless(objects, ids, 0);
    if i < ids.len() {
        let left = ids.remove(i);
        let rest = newest_first(objects, left);
        assert(r =~= seq![ids[i]] + rest);
        assert(i != b) by {
            if i == b {
                assert(!op_of(objects, ids[a]).parents.contains(ids[i]));
            }
        }
        if i == a {
            lemma_ordered(objects, ids);
            assert(r.contains(ids[b]));
            let j = choose|j: int| 0 <= j < r.len() && r[j] == ids[b];
            assert(r[0] == ids[a]);
            assert(j > 0);
        } else {
            let x = if a < i { a } else { a - 1 };
            let y = if b < i { b } else { b - 1 };
            assert(left[x] == ids[a] && left[y] == ids[b]);
            lemma_left(ids, i);
            lemma_stays_before(objects, left, x, y);
            let (m, n) = choose|m: int, n: int|
                0 <= m < n < rest.len() && #[trigger] rest[m] == ids[a] && #[trigger] rest[n]
                    == ids[b];
            assert(r[m + 1] == ids[a] && r[n + 1] == ids[b]);
        }
    } else {
        assert(r[a] == ids[a] && r[b] == ids[b]);
    }
}

/// Of the ids that a walk finds only the first can be a parent of none.
proof fn lemma_first_is_head(objects: Objects, ids: Seq<Seq<u8>>)
    requires
        ids.len() > 0,
        connected(objects, ids),
    ensures
        newest_first(objects, ids)[0] == ids[0],
{
    lemma_first_childless(objects, ids, 0);
    let i = first_childless(objects, ids, 0);
    if 0 < i < ids.len() {
        assert(has_child_before(objects, ids, i));
        let c = choose|c: int|
            0 <= c < i && op_of(objects, #[trigger] ids[c]).parents.contains(ids[i]);
        assert(!op_of(objects, ids[c]).parents.contains(ids[i]));
    }
}

/// The log starts at the head, holds each op once, holds the parents of every
/// op that it holds, and holds nothing that the head does not lead to. Where no op
/// is its own ancestor, an op always appears before its parents.
pub proof fn lemma_log_is_the_history(objects: Objects, head: Seq<u8>)
    requires
        objects.dom().finite(),
        log_ids(objects, head) is Ok,
    ensures
        ({
            let ids = log_ids(objects, head)->Ok_0;
            &&& ids.len() > 0
            &&& ids[0] == head
            &&& ids.no_duplicates()
            &&& readable(objects, ids, ids.len() as int)
            &&& complete(objects, ids, ids.len() as int)
            &&& connected(objects, ids)
            &&& acyclic(objects, ids) ==> before_parents(objects, ids)
        }),
{
    let found = walked(objects, seq![head], 0)->Ok_0;
    let ids = log_ids(objects, head)->Ok_0;
    lemma_walked(objects, seq![head], 0);
    lemma_ordered(objects, found);
    lemma_first_is_head(objects, found);
    assert forall|i: int| 0 <= i < ids.len() implies op_at(objects, #[trigger] ids[i]) is Ok by {
        assert(ids.contains(ids[i]));
        let k = choose|k: int| 0 <= k < found.len() && found[k] == ids[i];
        assert(op_at(objects, found[k]) is Ok);
    }
    assert forall|i: int, k: int|
        0 <= i < ids.len() && 0 <= k < op_of(objects, ids[i]).parents.len() implies ids.contains(
        #[trigger] op_of(objects, #[trigger] ids[i]).parents[k]) by {
        assert(ids.contains(ids[i]));
        let m = choose|m: int| 0 <= m < found.len() && found[m] == ids[i];
        assert(found.contains(op_of(objects, found[m]).parents[k]));
    }
    assert forall|j: int| 0 < j < ids.len() implies #[trigger] has_child_before(
        objects,
        ids,
        j,
    ) by {
        assert(ids.contains(ids[j]));
        let m = choose|m: int| 0 <= m < found.len() && found[m] == ids[j];
        assert(found[0] == head);
        assert(m > 0);
        assert(has_child_before(objects, found, m));
        let c = choose|c: int|
            0 <= c < m && op_of(objects, #[trigger] found[c]).parents.contains(found[m]);
        lemma_stays_before(objects, found, c, m);
        let (x, y) = choose|x: int, y: int|
            0 <= x < y < ids.len() && #[trigger] ids[x] == found[c] && #[trigger] ids[y]
                == found[m];
        assert(y == j);
        assert(op_of(objects, ids[x]).parents.contains(ids[j]));
    }
    if acyclic(objects, ids) {
        assert forall|k: int| 0 <= k < found.len() implies !own_ancestor(
            objects,
            #[trigger] found[k],
        ) by {
            assert(ids.contains(found[k]));
            let i = choose|i: int| 0 <= i < ids.len() && ids[i] == found[k];
            assert(!own_ancestor(objects, ids[i]));
        }
        lemma_parents_follow(objects, found);
    }
}

/// An op always appears before its parents: each parent of an op of the log
/// stands in the log, further on. That is so where no op of the log is its own
/// ancestor.
pub proof fn lemma_newest_first(objects: Objects, head: Seq<u8>, i: int, k: int)
    requires
        objects.dom().finite(),
        log_ids(objects, head) is Ok,
        acyclic(objects, log_ids(objects, head)->Ok_0),
        0 <= i < log_ids(objects, head)->Ok_0.len(),
        0 <= k < op_of(objects, log_ids(objects, head)->Ok_0[i]).parents.len(),
    ensures
        ({
            let ids = log_ids(objects, head)->Ok_0;
            exists|j: int|
                i < j < ids.len() && #[trigger] ids[j] == op_of(objects, ids[i]).parents[k]
        }),
{
    let ids = log_ids(objects, head)->Ok_0;
    lemma_log_is_the_history(objects, head);
    let p = op_of(objects, ids[i]).parents[k];
    assert(ids.contains(p));
    let j = choose|j: int| 0 <= j < ids.len() && ids[j] == p;
    assert(op_of(objects, ids[i]).parents.contains(ids[j]));
}

/// Stores in which the ids stand for the same ops put them in the same order.
proof fn lemma_same_order(a: Objects, b: Objects, ids: Seq<Seq<u8>>)
    requires
        forall|i: int| 0 <= i < ids.len() ==> op_of(a, #[trigger] ids[i]) == op_of(b, ids[i]),
    ensures
        newest_first(a, ids) == newest_first(b, ids),
    decreases ids.len(),
{
    assert forall|i: int| 0 <= i < ids.len() implies childless(a, ids, i) == childless(
        b,
        ids,
        i,
    ) by {
        if childless(a, ids, i) {
            assert forall|c: int| 0 <= c < ids.len() implies !op_of(
                b,
                #[trigger] ids[c],
            ).parents.contains(ids[i]) by {
                assert(!op_of(a, ids[c]).parents.contains(ids[i]));
            }
        }
        if childless(b, ids, i) {
            assert forall|c: int| 0 <= c < ids.len() implies !op_of(
                a,
                #[trigger] ids[c],
            ).parents.contains(ids[i]) by {
                assert(!op_of(b, ids[c]).parents.contains(ids[i]));
            }
        }
    }
    lemma_same_first(a, b, ids, 0);
    let i = first_childless(a, ids, 0);
    lemma_first_childless(a, ids, 0);
    if i < ids.len() {
        let left = ids.remove(i);
        assert forall|k: int| 0 <= k < left.len() implies op_of(a, #[trigger] left[k]) == op_of(
            b,
            left[k],
        ) by {
            let x = if k < i { k } else { k + 1 };
            assert(left[k] == ids[x]);
        }
        lemma_same_order(a, b, left);
    }
}

proof fn lemma_same_first(a: Objects, b: Objects, ids: Seq<Seq<u8>>, from: int)
    requires
        0 <= from,
        forall|i: int| 0 <= i < ids.len() ==> #[trigger] childless(a, ids, i) == childless(b, ids, i),
    ensures
        first_childless(a, ids, from) == first_childless(b, ids, from),
    decreases ids.len() - from,
{
    if from < ids.len() {
        assert(childless(a, ids, from) == childless(b, ids, from));
        lemma_same_first(a, b, ids, from + 1);
    }
}

proof fn lemma_walk_survives(before: Objects, after: Objects, found: Seq<Seq<u8>>, done: int)
    requires
        before.dom().finite(),
        after.dom().finite(),
        store::extends(before, after),
        found.no_duplicates(),
        0 <= done <= found.len(),
        readable(before, found, done),
        walked(before, found, done) is Ok,
    ensures
        walked(after, found, done) == walked(before, found, done),
    decreases before.dom().len() + 1 - done,
{
    assert(before.dom().len() <= after.dom().len()) by {
        assert(before.dom().subset_of(after.dom()));
        vstd::set_lib::lemma_len_subset(before.dom(), after.dom());
    }
    assert(done <= before.dom().len()) by {
        let visited = found.take(done);
        assert forall|i: int| 0 <= i < visited.len() implies before.dom().contains(
            #[trigger] visited[i],
        ) by {
            assert(op_at(before, found[i]) is Ok);
        }
        lemma_no_more_than_objects(before, visited);
    }
    if done < found.len() {
        let parents = op_of(before, found[done]).parents;
        lemma_with_new(found, parents);
        store::lemma_reads_survive::<Op>(before, after, found[done], TypeTag::Op);
        let next = with_new(found, parents);
        assert forall|i: int| 0 <= i < done + 1 implies op_at(before, #[trigger] next[i]) is Ok by {
            assert(next[i] == found[i]);
        }
        lemma_walk_survives(before, after, next, done + 1);
    }
}

/// No reachable state is ever destroyed: whatever is written later, the log from
/// a head on stays what it was, op by op.
pub proof fn lemma_history_survives(before: Objects, after: Objects, head: Seq<u8>)
    requires
        before.dom().finite(),
        after.dom().finite(),
        store::extends(before, after),
        log_ids(before, head) is Ok,
    ensures
        log_ids(after, head) == log_ids(before, head),
        ({
            let ids = log_ids(before, head)->Ok_0;
            forall|i: int| 0 <= i < ids.len() ==> op_of(after, #[trigger] ids[i]) == op_of(
                before,
                ids[i],
            )
        }),
{
    lemma_walk_survives(before, after, seq![head], 0);
    lemma_walked(before, seq![head], 0);
    let found = walked(before, seq![head], 0)->Ok_0;
    assert forall|i: int| 0 <= i < found.len() implies op_of(before, #[trigger] found[i]) == op_of(
        after,
        found[i],
    ) by {
        store::lemma_reads_survive::<Op>(before, after, found[i], TypeTag::Op);
    }
    lemma_same_order(before, after, found);
    lemma_log_is_the_history(before, head);
    let ids = log_ids(before, head)->Ok_0;
    assert forall|i: int| 0 <= i < ids.len() implies op_of(after, #[trigger] ids[i]) == op_of(
        before,
        ids[i],
    ) by {
        store::lemma_reads_survive::<Op>(before, after, ids[i], TypeTag::Op);
    }
}

proof fn lemma_with_new_behind(new: Seq<u8>, found: Seq<Seq<u8>>, ids: Seq<Seq<u8>>)
    requires
        !ids.contains(new),
    ensures
        with_new(seq![new] + found, ids) == seq![new] + with_new(found, ids),
    decreases ids.len(),
{
    if ids.len() > 0 {
        let rest = ids.drop_last();
        assert forall|i: int| 0 <= i < rest.len() implies rest[i] != new by {
            assert(rest[i] == ids[i]);
        }
        lemma_with_new_behind(new, found, rest);
        let before = with_new(found, rest);
        let shifted = seq![new] + before;
        let id = ids.last();
        assert(ids[ids.len() - 1] != new);
        if before.contains(id) {
            let k = choose|k: int| 0 <= k < before.len() && before[k] == id;
            assert(shifted[k + 1] == id);
        } else if shifted.contains(id) {
            let k = choose|k: int| 0 <= k < shifted.len() && shifted[k] == id;
            assert(before[k - 1] == id);
        }
        assert(shifted.push(id) =~= seq![new] + before.push(id));
    }
}

proof fn lemma_walk_behind(
    before: Objects,
    after: Objects,
    new: Seq<u8>,
    found: Seq<Seq<u8>>,
    done: int,
)
    requires
        after.dom().finite(),
        store::extends(before, after),
        op_at(after, new) is Ok,
        found.no_duplicates(),
        0 <= done <= found.len(),
        readable(before, found, done),
        walked(before, found, done) is Ok,
        !walked(before, found, done)->Ok_0.contains(new),
        done <= before.dom().len(),
        before.dom().finite(),
    ensures
        found.len() <= walked(before, found, done)->Ok_0.len(),
        forall|i: int|
            0 <= i < found.len() ==> walked(before, found, done)->Ok_0[i] == found[i],
        walked(after, seq![new] + found, done + 1) == Ok::<Seq<Seq<u8>>, ErrorV>(
            seq![new] + walked(before, found, done)->Ok_0,
        ),
    decreases before.dom().len() + 1 - done,
{
    let ids = walked(before, found, done)->Ok_0;
    if done < found.len() {
        let parents = op_of(before, found[done]).parents;
        let next = with_new(found, parents);
        lemma_with_new(found, parents);
        assert forall|i: int| 0 <= i < done + 1 implies op_at(before, #[trigger] next[i]) is Ok by {
            assert(next[i] == found[i]);
        }
        assert(done + 1 <= before.dom().len()) by {
            let visited = next.take(done + 1);
            assert forall|i: int| 0 <= i < visited.len() implies before.dom().contains(
                #[trigger] visited[i],
            ) by {
                assert(op_at(before, next[i]) is Ok);
            }
            lemma_no_more_than_objects(before, visited);
        }
        lemma_walk_behind(before, after, new, next, done + 1);
        assert forall|i: int| 0 <= i < found.len() implies ids[i] == found[i] by {
            assert(next[i] == found[i]);
        }
        assert forall|k: int| 0 <= k < parents.len() implies parents[k] != new by {
            assert(next.contains(parents[k]));
            let j = choose|j: int| 0 <= j < next.len() && next[j] == parents[k];
            assert(ids[j] == parents[k]);
        }
        lemma_with_new_behind(new, found, parents);
        store::lemma_reads_survive::<Op>(before, after, found[done], TypeTag::Op);
        assert((seq![new] + found)[done + 1] == found[done]);
        assert(done + 1 <= after.dom().len()) by {
            assert(before.dom().subset_of(after.dom()));
            vstd::set_lib::lemma_len_subset(before.dom(), after.dom());
        }
    }
}

/// Appending an op to the head puts it in front of the log, and leaves the rest
/// of the log as it was. That is so of a new op, and of one whose object was
/// stored before, where the log does not hold it yet.
pub proof fn lemma_append_extends_the_log(objects: Objects, head: Seq<u8>, op: OpV)
    requires
        objects.dom().finite(),
        log_ids(objects, head) is Ok,
        object::op_fits(op),
        op.parents == seq![head],
        ({
            let id = hash::content_id(TypeTag::Op, Op::format(op));
            &&& objects.dom().contains(id) ==> objects[id] == (TypeTag::Op, Op::format(op))
            &&& !log_ids(objects, head)->Ok_0.contains(id)
        }),
    ensures
        ({
            let id = hash::content_id(TypeTag::Op, Op::format(op));
            let after = store::stored(objects, TypeTag::Op, Op::format(op));
            &&& op_at(after, id) == Ok::<OpV, ErrorV>(op)
            &&& log_ids(after, id) == Ok::<Seq<Seq<u8>>, ErrorV>(
                seq![id] + log_ids(objects, head)->Ok_0,
            )
        }),
{
    let id = hash::content_id(TypeTag::Op, Op::format(op));
    let after = store::stored(objects, TypeTag::Op, Op::format(op));
    let ids = log_ids(objects, head)->Ok_0;
    let found = walked(objects, seq![head], 0)->Ok_0;
    object::lemma_op_round_trip(op, seq![]);
    assert(Op::format(op) + seq![] =~= Op::format(op));
    store::lemma_read_back::<Op>(objects, TypeTag::Op, op);
    store::lemma_stored_extends(objects, TypeTag::Op, Op::format(op));
    lemma_walked(objects, seq![head], 0);
    lemma_ordered(objects, found);
    assert(!found.contains(id)) by {
        if found.contains(id) {
            assert(ids.contains(id));
        }
    }
    lemma_walk_behind(objects, after, id, seq![head], 0);
    assert(found[0] == head);
    assert(head != id);
    reveal_with_fuel(with_new, 3);
    assert(op.parents.drop_last() =~= seq![]);
    assert(!seq![id].contains(head)) by {
        if seq![id].contains(head) {
            assert(seq![id][0] == head);
        }
    }
    assert(with_new(seq![id], op.parents) =~= seq![id] + seq![head]);
    assert(walked(after, seq![id], 0) == walked(after, seq![id] + seq![head], 1));
    let all = seq![id] + found;
    assert(walked(after, seq![id], 0) == Ok::<Seq<Seq<u8>>, ErrorV>(all));
    assert forall|i: int| 0 <= i < found.len() implies op_of(objects, #[trigger] found[i]) == op_of(
        after,
        found[i],
    ) by {
        store::lemma_reads_survive::<Op>(objects, after, found[i], TypeTag::Op);
    }
    lemma_same_order(objects, after, found);
    assert(childless(after, all, 0)) by {
        assert forall|c: int| 0 <= c < all.len() implies !op_of(
            after,
            #[trigger] all[c],
        ).parents.contains(all[0]) by {
            if c == 0 {
                if op.parents.contains(id) {
                    let k = choose|k: int| 0 <= k < op.parents.len() && op.parents[k] == id;
                    assert(op.parents[k] == head);
                }
            } else {
                assert(all[c] == found[c - 1]);
                let parents = op_of(objects, found[c - 1]).parents;
                if parents.contains(id) {
                    let k = choose|k: int| 0 <= k < parents.len() && parents[k] == id;
                    assert(found.contains(op_of(objects, found[c - 1]).parents[k]));
                }
            }
        }
    }
    assert(first_childless(after, all, 0) == 0);
    assert(all.remove(0) =~= found);
}

/// Whether `id` is among the ids.
fn is_among(ids: &[ObjectId], id: &ObjectId) -> (r: bool)
    ensures
        r == encoding::views(ids@).contains(id@),
{
    let ghost all = encoding::views(ids@);
    let mut i: usize = 0;
    while i < ids.len()
        invariant
            i <= ids@.len(),
            all == encoding::views(ids@),
            forall|k: int| 0 <= k < i ==> (#[trigger] ids@[k])@ != id@,
        decreases ids.len() - i,
    {
        if ids[i] == *id {
            assert(all[i as int] == id@);
            return true;
        }
        i += 1;
    }
    assert forall|k: int| 0 <= k < all.len() implies all[k] != id@ by {
        assert(all[k] == ids@[k]@);
    }
    false
}

/// Appends those of `ids` that are not yet found, each once.
fn add_new(found: &mut Vec<ObjectId>, ids: &[ObjectId])
    ensures
        encoding::views(final(found)@) == with_new(encoding::views(old(found)@), encoding::views(ids@)),
{
    let ghost start = encoding::views(found@);
    let ghost all = encoding::views(ids@);
    let mut i: usize = 0;
    assert(all.take(0) =~= seq![]);
    while i < ids.len()
        invariant
            i <= ids@.len(),
            all == encoding::views(ids@),
            encoding::views(found@) == with_new(start, all.take(i as int)),
        decreases ids.len() - i,
    {
        proof {
            assert(all.take(i + 1).drop_last() =~= all.take(i as int));
            assert(all.take(i + 1).last() == ids@[i as int]@);
        }
        if !is_among(found.as_slice(), &ids[i]) {
            let ghost was = found@;
            found.push(ids[i]);
            assert(encoding::views(found@) =~= encoding::views(was).push(ids@[i as int]@));
        }
        i += 1;
    }
    assert(all.take(i as int) =~= all);
}

/// Whether the id is a parent of one of the ops.
fn is_parent(ops: &[Op], id: &ObjectId) -> (r: bool)
    ensures
        r == exists|c: int|
            0 <= c < ops@.len() && (#[trigger] ops@[c]).model().parents.contains(id@),
{
    let mut c: usize = 0;
    while c < ops.len()
        invariant
            c <= ops@.len(),
            forall|k: int| 0 <= k < c ==> !(#[trigger] ops@[k]).model().parents.contains(id@),
        decreases ops.len() - c,
    {
        if is_among(ops[c].parents(), id) {
            assert(ops@[c as int].model().parents.contains(id@));
            return true;
        }
        c += 1;
    }
    false
}

/// Whether the ops are those under the ids.
spec fn stand_for(objects: Objects, ids: Seq<Seq<u8>>, ops: Seq<Op>) -> bool {
    &&& ids.len() == ops.len()
    &&& forall|i: int|
        0 <= i < ids.len() ==> op_at(objects, ids[i]) == Ok::<OpV, ErrorV>(
            (#[trigger] ops[i]).model(),
        )
}

/// Puts ops in order, each before its parents.
fn in_order(ids: Vec<ObjectId>, ops: Vec<Op>, Ghost(objects): Ghost<Objects>) -> (r: Vec<Op>)
    requires
        stand_for(objects, encoding::views(ids@), ops@),
    ensures
        encoding::views(r@) == newest_first(objects, encoding::views(ids@)).map_values(
            |id: Seq<u8>| op_of(objects, id),
        ),
{
    let ghost all = encoding::views(ids@);
    let ghost mut done: Seq<Seq<u8>> = seq![];
    let mut pending = ids;
    let mut waiting = ops;
    let mut out: Vec<Op> = Vec::new();
    proof {
        assert(done + newest_first(objects, all) =~= newest_first(objects, all));
        assert(encoding::views(out@) =~= done.map_values(|id: Seq<u8>| op_of(objects, id)));
    }
    while pending.len() > 0
        invariant
            all == encoding::views(ids@),
            stand_for(objects, encoding::views(pending@), waiting@),
            newest_first(objects, all) == done + newest_first(objects, encoding::views(pending@)),
            encoding::views(out@) == done.map_values(|id: Seq<u8>| op_of(objects, id)),
        decreases pending.len(),
    {
        let ghost left = encoding::views(pending@);
        let mut i: usize = 0;
        while i < pending.len() && is_parent(waiting.as_slice(), &pending[i])
            invariant
                i <= pending@.len(),
                left == encoding::views(pending@),
                stand_for(objects, left, waiting@),
                first_childless(objects, left, 0) == first_childless(objects, left, i as int),
            decreases pending.len() - i,
        {
            proof {
                let c = choose|c: int|
                    0 <= c < waiting@.len() && (#[trigger] waiting@[c]).model().parents.contains(
                        pending@[i as int]@,
                    );
                assert(op_of(objects, left[c]).parents.contains(left[i as int]));
                assert(!childless(objects, left, i as int));
            }
            i += 1;
        }
        if i == pending.len() {
            let ghost listed = out@;
            let ghost last = waiting@;
            out.append(&mut waiting);
            proof {
                assert forall|k: int| 0 <= k < left.len() implies op_of(objects, #[trigger] left[k])
                    == last[k].model() by {
                    assert(op_at(objects, left[k]) == Ok::<OpV, ErrorV>(last[k].model()));
                }
                assert(encoding::views(out@) =~= encoding::views(listed) + encoding::views(last));
                assert(encoding::views(out@) =~= (done + left).map_values(
                    |id: Seq<u8>| op_of(objects, id),
                ));
            }
            return out;
        }
        assert(childless(objects, left, i as int)) by {
            assert forall|c: int| 0 <= c < left.len() implies !op_of(
                objects,
                #[trigger] left[c],
            ).parents.contains(left[i as int]) by {
                assert(op_at(objects, left[c]) == Ok::<OpV, ErrorV>(waiting@[c].model()));
                assert(left[i as int] == pending@[i as int]@);
            }
        }
        let ghost was = waiting@;
        let ghost listed = out@;
        let ghost before = done;
        let _ = pending.remove(i);
        let op = waiting.remove(i);
        out.push(op);
        proof {
            let id = left[i as int];
            assert(encoding::views(pending@) =~= left.remove(i as int));
            assert(op_at(objects, left[i as int]) == Ok::<OpV, ErrorV>(was[i as int].model()));
            assert forall|k: int| 0 <= k < pending@.len() implies op_at(
                objects,
                encoding::views(pending@)[k],
            ) == Ok::<OpV, ErrorV>((#[trigger] waiting@[k]).model()) by {
                let x = if k < i { k } else { k + 1 };
                assert(waiting@[k] == was[x]);
                assert(op_at(objects, left[x]) == Ok::<OpV, ErrorV>(was[x].model()));
            }
            done = before.push(id);
            let rest = newest_first(objects, left.remove(i as int));
            assert(before + (seq![id] + rest) =~= done + rest);
            assert(encoding::views(out@) =~= encoding::views(listed).push(op.model()));
            assert(encoding::views(out@) =~= done.map_values(|id: Seq<u8>| op_of(objects, id)));
        }
    }
    proof {
        assert(encoding::views(pending@) =~= seq![]);
        assert(done + seq![] =~= done);
    }
    out
}

/// Walks the op DAG from the head via `parents`, returning every reachable op
/// **newest-first**.
///
/// The walk is breadth-first and visits no op twice (a merge op can be reached
/// by several paths). The order is a topological "newest first": the head is the
/// first element, and an op always appears before its parents. Ops that lead back
/// to themselves are listed once each, in the order of the walk.
pub fn op_log(store: &ObjectStore, contents: Option<&str>) -> (r: Result<Vec<Op>, Error>)
    ensures
        match r {
            Ok(ops) => log_of(store@, text_of(contents)) == Ok::<Seq<OpV>, ErrorV>(encoding::views(ops@)),
            Err(e) => log_of(store@, text_of(contents)) == Err::<Seq<OpV>, ErrorV>(e@),
        },
{
    let head = match op_head(contents) {
        Ok(Some(id)) => id,
        Ok(None) => {
            let none: Vec<Op> = Vec::new();
            assert(encoding::views(none@) =~= seq![]);
            return Ok(none);
        },
        Err(e) => {
            return Err(e);
        },
    };
    let _ = store.len();
    let mut found: Vec<ObjectId> = Vec::new();
    found.push(head);
    let mut out: Vec<Op> = Vec::new();
    let mut done: usize = 0;
    let ghost objects = store@;
    assert(encoding::views(found@) =~= seq![head@]);
    while done < found.len()
        invariant
            objects == store@,
            objects.dom().finite(),
            head_in(text_of(contents)) == Ok::<Option<Seq<u8>>, ErrorV>(Some(head@)),
            done <= found@.len(),
            out@.len() == done,
            encoding::views(found@).no_duplicates(),
            readable(objects, encoding::views(found@), done as int),
            forall|i: int|
                0 <= i < done ==> op_at(objects, encoding::views(found@)[i]) == Ok::<OpV, ErrorV>(
                    (#[trigger] out@[i]).model(),
                ),
            walked(objects, encoding::views(found@), done as int) == walked(
                objects,
                seq![head@],
                0,
            ),
            done <= objects.dom().len(),
        decreases objects.dom().len() + 1 - done,
    {
        let ghost now = encoding::views(found@);
        proof {
            assert(now[done as int] == found@[done as int]@);
        }
        let op = match store.get_op(&found[done]) {
            Ok(op) => op,
            Err(e) => {
                return Err(e);
            },
        };
        add_new(&mut found, op.parents());
        proof {
            let next = encoding::views(found@);
            lemma_with_new(now, op.model().parents);
            assert forall|i: int| 0 <= i < done + 1 implies op_at(
                objects,
                #[trigger] next[i],
            ) is Ok by {
                assert(next[i] == now[i]);
            }
            let visited = next.take(done + 1);
            assert forall|i: int| 0 <= i < visited.len() implies objects.dom().contains(
                #[trigger] visited[i],
            ) by {
                assert(op_at(objects, next[i]) is Ok);
            }
            lemma_no_more_than_objects(objects, visited);
        }
        out.push(op);
        done += 1;
    }
    Ok(in_order(found, out, Ghost(objects)))
}

// ── clock and environment ────────────────────────────────────────────────────

/// The seconds of a clock that stands so long after the Unix epoch.
pub open spec fn seconds_of(since_epoch: Option<u64>) -> int {
    match since_epoch {
        None => 0int,
        Some(secs) => if secs <= i64::MAX {
            secs as int
        } else {
            i64::MAX as int
        },
    }
}

/// The time so many seconds after the Unix epoch, in UTC; the epoch itself if
/// the clock stands before it.
pub fn now_timestamp(since_epoch: Option<u64>) -> (r: Timestamp)
    ensures
        r@.tz_offset_mins == 0,
        r@.unix_secs == seconds_of(since_epoch),
{
    let unix_secs: i64 = match since_epoch {
        None => 0,
        Some(secs) => if secs <= i64::MAX as u64 {
            secs as i64
        } else {
            i64::MAX
        },
    };
    Timestamp::new(unix_secs, 0)
}

/// The first of two texts that is there, or the fallback.
pub open spec fn first_of(
    first: Option<Seq<char>>,
    second: Option<Seq<char>>,
    fallback: Seq<char>,
) -> Seq<char> {
    match (first, second) {
        (Some(s), _) => s,
        (None, Some(s)) => s,
        (None, None) => fallback,
    }
}

/// The machine hostname: the value of `COMPUTERNAME`, else of `HOSTNAME`, else
/// `"unknown-host"`.
pub fn hostname(windows: Option<&str>, unix: Option<&str>) -> (r: String)
    ensures
        r@ == first_of(text_of(windows), text_of(unix), "unknown-host"@),
{
    match (windows, unix) {
        (Some(s), _) => s.to_owned(),
        (None, Some(s)) => s.to_owned(),
        (None, None) => "unknown-host".to_owned(),
    }
}

/// The current username: the value of `USERNAME`, else of `USER`, else
/// `"unknown-user"`.
pub fn username(windows: Option<&str>, unix: Option<&str>) -> (r: String)
    ensures
        r@ == first_of(text_of(windows), text_of(unix), "unknown-user"@),
{
    match (windows, unix) {
        (Some(s), _) => s.to_owned(),
        (None, Some(s)) => s.to_owned(),
        (None, None) => "unknown-user".to_owned(),
    }
}

// ── laws ─────────────────────────────────────────────────────────────────────

/// The head file names the head by its id, whatever white space stands round it. Where there
/// is no file there is no head, and any other text is damage.
pub proof fn law_head(before: Seq<char>, id: Seq<u8>, after: Seq<char>, other: Seq<char>)
    requires
        id.len() == 32,
        text::all_white(before),
        text::all_white(after),
    ensures
        head_in(None) == Ok::<Option<Seq<u8>>, ErrorV>(None),
        head_in(Some(before + hash::hex_text(id) + after)) == Ok::<Option<Seq<u8>>, ErrorV>(
            Some(id),
        ),
        other.len() < 64 ==> head_in(Some(other)) == Err::<Option<Seq<u8>>, ErrorV>(
            ErrorV::Corruption(
                "op-head does not contain a valid object id: "@ + text::debug_text(
                    text::trimmed(other),
                ),
            ),
        ),
{
    hash::lemma_hex_round_trip(id);
    let hex = hash::hex_text(id);
    let whole = before + hex + after;
    assert(hash::hex_value(hex[0]) >= 0);
    assert(hash::hex_value(hex[63]) >= 0);
    text::law_ascii_white(hex[0]);
    text::law_ascii_white(hex[63]);
    text::lemma_trimmed_is(before, hex, after);
    text::law_trimmed(other);
    let core = text::trimmed(other);
    let (b, a) = choose|b: Seq<char>, a: Seq<char>|
        text::all_white(b) && text::all_white(a) && other == #[trigger] ((b + core) + a);
    assert(core.len() <= other.len());
}

/// The op that records a command begins and ends at its one moment, and holds what it is
/// given.
pub proof fn law_recorded_op(
    parents: Seq<Seq<u8>>,
    view: Seq<u8>,
    now: TimestampV,
    hostname: Seq<char>,
    username: Seq<char>,
    description: Seq<char>,
    command: Seq<Seq<char>>,
)
    ensures
        ({
            let op = recorded_op(parents, view, now, hostname, username, description, command);
            &&& op.parents == parents
            &&& op.view == view
            &&& op.description == description
            &&& op.metadata.start == now
            &&& op.metadata.end == now
            &&& op.metadata.hostname == hostname
            &&& op.metadata.username == username
            &&& op.metadata.command == command
        }),
{
}

/// The op at the head is the one that the head file names; without a head there is none.
pub proof fn law_head_op(objects: Objects, contents: Seq<char>)
    ensures
        head_op(objects, None) == Err::<OpV, ErrorV>(
            ErrorV::Corruption("repository has no op-head; was it initialized?"@),
        ),
        head_in(Some(contents)) matches Ok(Some(id)) ==> head_op(objects, Some(contents))
            == store::read_as::<Op>(objects, id, TypeTag::Op),
        head_in(Some(contents)) matches Err(e) ==> head_op(objects, Some(contents)) == Err::<
            OpV,
            ErrorV,
        >(e),
{
}

/// The name of a machine or a user is the first that is given, and otherwise the fallback.
pub proof fn law_first_of(a: Seq<char>, b: Option<Seq<char>>, fallback: Seq<char>)
    ensures
        first_of(Some(a), b, fallback) == a,
        first_of(None, Some(a), fallback) == a,
        first_of(None, None, fallback) == fallback,
{
}

/// The seconds of a moment are those of the clock, as far as they can be counted; a clock that
/// stands before the epoch counts none.
pub proof fn law_seconds(secs: u64)
    ensures
        secs < 0x8000_0000_0000_0000 ==> seconds_of(Some(secs)) == secs,
        secs >= 0x8000_0000_0000_0000 ==> seconds_of(Some(secs)) == 0x7fff_ffff_ffff_ffff,
        seconds_of(None) == 0,
{
}

/// The log begins at the head: its ops are those of the ids of the history of the head, in the
/// same order. Without a head it is empty, and a damaged head file is an error.
pub proof fn law_log(objects: Objects, contents: Seq<char>, head: Seq<u8>, i: int)
    ensures
        log_of(objects, None) matches Ok(ops) && ops.len() == 0,
        head_in(Some(contents)) == Ok::<Option<Seq<u8>>, ErrorV>(Some(head)) ==> match log_ids(
            objects,
            head,
        ) {
            Err(e) => log_of(objects, Some(contents)) == Err::<Seq<OpV>, ErrorV>(e),
            Ok(ids) => log_of(objects, Some(contents)) matches Ok(ops) && ops.len() == ids.len() && (
            0 <= i < ids.len() && op_at(objects, ids[i]) is Ok ==> Ok::<OpV, ErrorV>(ops[i])
                == op_at(objects, ids[i])),
        },
        head_in(Some(contents)) matches Err(e) ==> log_of(objects, Some(contents)) == Err::<
            Seq<OpV>,
            ErrorV,
        >(e),
{
}

} // verus!
