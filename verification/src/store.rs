//! The content-addressed object store.
//!
//! An [`ObjectStore`] maps ids to objects: a type tag and the canonical bytes.
//! Writing is idempotent, because the id is the digest of what is written. A
//! read hashes the bytes again, so that what comes back is what the id names.
use vstd::prelude::*;
use vstd::string::*;

use crate::order;
use crate::hash;
use crate::error;
use crate::codec;
use crate::codec::Parsed;
use crate::encoding::{Decode, Decoder, Encode};
use crate::error::{Error, ErrorV};
use crate::hash::{hash_object, ObjectId, TypeTag};
use crate::object::{encode_to_vec, Blob, Chunk, Op, Snapshot, Tree};
use crate::order::Ranked;
use crate::text::append_text;

verus! {

/// What the store holds: a tag and bytes under each id.
pub type Objects = Map<Seq<u8>, (TypeTag, Seq<u8>)>;

/// The objects after `bytes` were written: the id is the digest, and an object
/// that is already there stays.
pub open spec fn stored(objects: Objects, tag: TypeTag, bytes: Seq<u8>) -> Objects {
    let id = hash::content_id(tag, bytes);
    if objects.dom().contains(id) {
        objects
    } else {
        objects.insert(id, (tag, bytes))
    }
}

/// Why an object is refused whose bytes do not have its id.
pub open spec fn integrity_error(id: Seq<u8>) -> ErrorV {
    ErrorV::Corruption("object "@ + hash::hex_text(id).take(12) + " does not match its id"@)
}

/// Why an object of another kind is refused.
pub open spec fn kind_error(id: Seq<u8>) -> ErrorV {
    ErrorV::Corruption("object "@ + hash::hex_text(id).take(12) + " has an unexpected type tag"@)
}

/// The object under `id`, if it is there and its bytes have that id.
pub open spec fn lookup(objects: Objects, id: Seq<u8>) -> Result<(TypeTag, Seq<u8>), ErrorV> {
    if !objects.dom().contains(id) {
        Err(ErrorV::ObjectNotFound(id))
    } else if hash::content_id(objects[id].0, objects[id].1) != id {
        Err(integrity_error(id))
    } else {
        Ok(objects[id])
    }
}

/// The value that all the bytes stand for.
pub open spec fn whole<T>(p: Parsed<T>, len: nat) -> Result<T, ErrorV> {
    match p.value {
        Ok(v) => if p.used < len {
            Err(ErrorV::TrailingBytes)
        } else {
            Ok(v)
        },
        Err(e) => Err(e),
    }
}

/// The value of the object under `id`, which must have the given tag.
pub open spec fn read_as<T: Decode>(objects: Objects, id: Seq<u8>, tag: TypeTag) -> Result<
    <T as View>::V,
    ErrorV,
> {
    match lookup(objects, id) {
        Err(e) => Err(e),
        Ok(object) => if object.0 != tag {
            Err(kind_error(id))
        } else {
            whole(T::parse(object.1), object.1.len())
        },
    }
}

/// What is written is read back: after a value was stored, the object under its
/// id is that value, unless another object with the same digest was there.
pub proof fn lemma_read_back<T: Encode + Decode>(objects: Objects, tag: TypeTag, v: <T as View>::V)
    requires
        T::parse(T::format(v)) == codec::done(v, T::format(v).len()),
        objects.dom().contains(hash::content_id(tag, T::format(v))) ==> objects[hash::content_id(
            tag,
            T::format(v),
        )] == (tag, T::format(v)),
    ensures
        read_as::<T>(
            stored(objects, tag, T::format(v)),
            hash::content_id(tag, T::format(v)),
            tag,
        ) == Ok::<<T as View>::V, ErrorV>(v),
{
}

/// Writing changes no object that is there.
pub proof fn lemma_stored_keeps(objects: Objects, tag: TypeTag, bytes: Seq<u8>, id: Seq<u8>)
    requires
        objects.dom().contains(id),
    ensures
        stored(objects, tag, bytes).dom().contains(id),
        stored(objects, tag, bytes)[id] == objects[id],
{
}

/// Whether every object of `before` is in `after`, as it was.
pub open spec fn extends(before: Objects, after: Objects) -> bool {
    forall|id: Seq<u8>| #[trigger]
        before.dom().contains(id) ==> after.dom().contains(id) && after[id] == before[id]
}

/// Writing only adds.
pub proof fn lemma_stored_extends(objects: Objects, tag: TypeTag, bytes: Seq<u8>)
    ensures
        extends(objects, stored(objects, tag, bytes)),
{
}

/// What can be read stays readable, and reads the same, whatever is written
/// later.
pub proof fn lemma_reads_survive<T: Decode>(
    before: Objects,
    after: Objects,
    id: Seq<u8>,
    tag: TypeTag,
)
    requires
        extends(before, after),
        read_as::<T>(before, id, tag) is Ok,
    ensures
        read_as::<T>(after, id, tag) == read_as::<T>(before, id, tag),
{
    assert(before.dom().contains(id));
}

/// Writing the same bytes twice is writing them once.
pub proof fn lemma_stored_idempotent(objects: Objects, tag: TypeTag, bytes: Seq<u8>)
    ensures
        stored(stored(objects, tag, bytes), tag, bytes) == stored(objects, tag, bytes),
{
}

// ── ObjectStore ──────────────────────────────────────────────────────────────

/// One object: its id, its tag, and its canonical bytes.
#[derive(Debug)]
struct StoredObject {
    id: ObjectId,
    tag: TypeTag,
    bytes: Vec<u8>,
}

/// A content-addressed store of objects, kept in the order of their ids.
#[derive(Debug)]
pub struct ObjectStore {
    objects: Vec<StoredObject>,
}

/// Whether the ids ascend.
spec fn ascending(objects: Seq<StoredObject>) -> bool {
    forall|i: int, j: int|
        0 <= i < j < objects.len() ==> order::lex_lt(
            (#[trigger] objects[i]).id.rank(),
            (#[trigger] objects[j]).id.rank(),
        )
}

/// Whether the object at `i` has the given id.
spec fn held_at(objects: Seq<StoredObject>, id: Seq<u8>, i: int) -> bool {
    0 <= i < objects.len() && objects[i].id@ == id
}

spec fn index_of(objects: Seq<StoredObject>, id: Seq<u8>) -> int {
    choose|i: int| held_at(objects, id, i)
}

spec fn contents(objects: Seq<StoredObject>) -> Objects {
    Map::new(
        |id: Seq<u8>| exists|i: int| held_at(objects, id, i),
        |id: Seq<u8>|
            (objects[index_of(objects, id)].tag, objects[index_of(objects, id)].bytes@),
    )
}

proof fn lemma_ids_distinct(objects: Seq<StoredObject>, i: int, j: int)
    requires
        ascending(objects),
        0 <= i < objects.len(),
        0 <= j < objects.len(),
        objects[i].id@ == objects[j].id@,
    ensures
        i == j,
{
    order::lemma_lex_irreflexive(objects[i].id.rank());
}

proof fn lemma_contents_at(objects: Seq<StoredObject>, i: int)
    requires
        ascending(objects),
        0 <= i < objects.len(),
    ensures
        contents(objects).dom().contains(objects[i].id@),
        contents(objects)[objects[i].id@] == (objects[i].tag, objects[i].bytes@),
{
    let id = objects[i].id@;
    assert(held_at(objects, id, i));
    lemma_ids_distinct(objects, i, index_of(objects, id));
}

/// The number of objects is the number of ids.
proof fn lemma_contents_len(objects: Seq<StoredObject>)
    requires
        ascending(objects),
    ensures
        contents(objects).dom().finite(),
        contents(objects).dom().len() == objects.len(),
    decreases objects.len(),
{
    if objects.len() == 0 {
        assert(contents(objects).dom() =~= Set::empty());
    } else {
        let front = objects.drop_last();
        let last = objects.last().id@;
        assert(ascending(front)) by {
            assert forall|i: int, j: int| 0 <= i < j < front.len() implies order::lex_lt(
                (#[trigger] front[i]).id.rank(),
                (#[trigger] front[j]).id.rank(),
            ) by {
                assert(front[i] == objects[i] && front[j] == objects[j]);
            }
        }
        lemma_contents_len(front);
        assert(!contents(front).dom().contains(last)) by {
            if contents(front).dom().contains(last) {
                let i = choose|i: int| held_at(front, last, i);
                assert(objects[i].id@ == last);
                lemma_ids_distinct(objects, i, objects.len() - 1);
            }
        }
        assert(contents(objects).dom() =~= contents(front).dom().insert(last)) by {
            assert forall|id: Seq<u8>|
                contents(objects).dom().contains(id) == contents(front).dom().insert(
                    last,
                ).contains(id) by {
                if contents(objects).dom().contains(id) {
                    let i = choose|i: int| held_at(objects, id, i);
                    if i < front.len() {
                        assert(held_at(front, id, i));
                    }
                }
                if contents(front).dom().contains(id) {
                    let i = choose|i: int| held_at(front, id, i);
                    assert(held_at(objects, id, i));
                }
                if id == last {
                    assert(held_at(objects, id, objects.len() - 1));
                }
            }
        }
    }
}

/// Placing a new object between those with smaller and those with larger ids
/// adds it to the contents.
proof fn lemma_contents_insert(objects: Seq<StoredObject>, p: int, object: StoredObject)
    requires
        ascending(objects),
        0 <= p <= objects.len(),
        forall|i: int| 0 <= i < p ==> order::lex_lt((#[trigger] objects[i]).id.rank(), object.id.rank()),
        forall|i: int|
            p <= i < objects.len() ==> order::lex_lt(object.id.rank(), (#[trigger] objects[i]).id.rank()),
    ensures
        ascending(objects.insert(p, object)),
        !contents(objects).dom().contains(object.id@),
        contents(objects.insert(p, object)) == contents(objects).insert(
            object.id@,
            (object.tag, object.bytes@),
        ),
{
    let after = objects.insert(p, object);
    assert forall|i: int, j: int| 0 <= i < j < after.len() implies order::lex_lt(
        (#[trigger] after[i]).id.rank(),
        (#[trigger] after[j]).id.rank(),
    ) by {
        if i < p {
            assert(after[i] == objects[i]);
        } else if i > p {
            assert(after[i] == objects[i - 1]);
        }
        if j < p {
            assert(after[j] == objects[j]);
        } else if j > p {
            assert(after[j] == objects[j - 1]);
        }
    }
    assert forall|i: int| 0 <= i < objects.len() implies (#[trigger] objects[i]).id@
        != object.id@ by {
        order::lemma_lex_irreflexive(object.id.rank());
    }
    assert(contents(after) =~= contents(objects).insert(
        object.id@,
        (object.tag, object.bytes@),
    )) by {
        assert forall|id: Seq<u8>|
            contents(after).dom().contains(id) == contents(objects).insert(
                object.id@,
                (object.tag, object.bytes@),
            ).dom().contains(id) by {
            if contents(after).dom().contains(id) {
                let i = choose|i: int| held_at(after, id, i);
                if i < p {
                    assert(held_at(objects, id, i));
                } else if i > p {
                    assert(held_at(objects, id, i - 1));
                }
            }
            if contents(objects).dom().contains(id) {
                let i = choose|i: int| held_at(objects, id, i);
                if i < p {
                    assert(held_at(after, id, i));
                } else {
                    assert(held_at(after, id, i + 1));
                }
            }
            if id == object.id@ {
                assert(held_at(after, id, p));
            }
        }
        assert forall|id: Seq<u8>| #[trigger]
            contents(after).dom().contains(id) implies contents(after)[id] == contents(
            objects,
        ).insert(object.id@, (object.tag, object.bytes@))[id] by {
            let i = choose|i: int| held_at(after, id, i);
            lemma_contents_at(after, i);
            if i < p {
                lemma_contents_at(objects, i);
            } else if i > p {
                lemma_contents_at(objects, i - 1);
            }
        }
    }
}

impl View for ObjectStore {
    type V = Objects;

    closed spec fn view(&self) -> Objects {
        contents(self.objects@)
    }
}

impl ObjectStore {
    #[verifier::type_invariant]
    spec fn in_order(&self) -> bool {
        ascending(self.objects@)
    }

    /// Creates an empty store.
    pub fn new() -> (r: Self)
        ensures
            r@ == Map::<Seq<u8>, (TypeTag, Seq<u8>)>::empty(),
    {
        let r = ObjectStore { objects: Vec::new() };
        assert(r@ =~= Map::<Seq<u8>, (TypeTag, Seq<u8>)>::empty());
        r
    }

    /// Returns the number of objects.
    pub fn len(&self) -> (r: usize)
        ensures
            self@.dom().finite(),
            r == self@.dom().len(),
    {
        proof {
            use_type_invariant(self);
            lemma_contents_len(self.objects@);
        }
        self.objects.len()
    }

    /// Finds the object with the given id (`Ok`), or the place where it belongs
    /// (`Err`).
    fn find(&self, id: &ObjectId) -> (r: Result<usize, usize>)
        ensures
            match r {
                Ok(i) => i < self.objects@.len() && self.objects@[i as int].id@ == id@,
                Err(p) => {
                    &&& p <= self.objects@.len()
                    &&& forall|i: int|
                        0 <= i < p ==> order::lex_lt(
                            (#[trigger] self.objects@[i]).id.rank(),
                            id.rank(),
                        )
                    &&& forall|i: int|
                        p <= i < self.objects@.len() ==> order::lex_lt(
                            id.rank(),
                            (#[trigger] self.objects@[i]).id.rank(),
                        )
                },
            },
    {
        proof {
            use_type_invariant(self);
        }
        let mut low: usize = 0;
        let mut high: usize = self.objects.len();
        while low < high
            invariant
                low <= high <= self.objects@.len(),
                ascending(self.objects@),
                forall|i: int|
                    0 <= i < low ==> order::lex_lt((#[trigger] self.objects@[i]).id.rank(), id.rank()),
                forall|i: int|
                    high <= i < self.objects@.len() ==> order::lex_lt(
                        id.rank(),
                        (#[trigger] self.objects@[i]).id.rank(),
                    ),
            decreases high - low,
        {
            let mid: usize = low + (high - low) / 2;
            if self.objects[mid].id.precedes(id) {
                assert forall|i: int| 0 <= i <= mid implies order::lex_lt(
                    (#[trigger] self.objects@[i]).id.rank(),
                    id.rank(),
                ) by {
                    if i < mid {
                        order::lemma_lex_transitive(
                            self.objects@[i].id.rank(),
                            self.objects@[mid as int].id.rank(),
                            id.rank(),
                        );
                    }
                }
                low = mid + 1;
            } else if id.precedes(&self.objects[mid].id) {
                assert forall|i: int| mid <= i < self.objects@.len() implies order::lex_lt(
                    id.rank(),
                    (#[trigger] self.objects@[i]).id.rank(),
                ) by {
                    if i > mid {
                        order::lemma_lex_transitive(
                            id.rank(),
                            self.objects@[mid as int].id.rank(),
                            self.objects@[i].id.rank(),
                        );
                    }
                }
                high = mid;
            } else {
                proof {
                    let a = self.objects@[mid as int].id;
                    order::lemma_lex_total(a.rank(), id.rank());
                    assert forall|k: int| 0 <= k < a@.len() implies a@[k] == id@[k] by {
                        assert(a.rank()[k] == id.rank()[k]);
                    }
                    assert(a.rank().len() == id.rank().len());
                    assert(a@ =~= id@);
                }
                return Ok(mid);
            }
        }
        Err(low)
    }

    /// Whether an object with the given id is there.
    pub fn contains(&self, id: &ObjectId) -> (r: bool)
        ensures
            r == self@.dom().contains(id@),
    {
        proof {
            use_type_invariant(self);
        }
        match self.find(id) {
            Ok(i) => {
                proof {
                    lemma_contents_at(self.objects@, i as int);
                }
                true
            },
            Err(_) => {
                proof {
                    order::lemma_lex_irreflexive(id.rank());
                    if self@.dom().contains(id@) {
                        let i = choose|i: int| held_at(self.objects@, id@, i);
                        assert(self.objects@[i].id.rank() == id.rank());
                    }
                }
                false
            },
        }
    }

    /// Puts an object under `id`, unless one is there. Nothing is checked: this
    /// takes over what a medium holds, and reads check it.
    pub fn load(&mut self, id: ObjectId, tag: TypeTag, bytes: Vec<u8>)
        ensures
            final(self)@ == (if old(self)@.dom().contains(id@) {
                old(self)@
            } else {
                old(self)@.insert(id@, (tag, bytes@))
            }),
    {
        proof {
            use_type_invariant(&*self);
        }
        if self.contains(&id) {
            return;
        }
        match self.find(&id) {
            Ok(i) => {
                proof {
                    lemma_contents_at(self.objects@, i as int);
                }
            },
            Err(p) => {
                let object = StoredObject { id, tag, bytes };
                proof {
                    lemma_contents_insert(self.objects@, p as int, object);
                }
                let mut objects: Vec<StoredObject> = Vec::new();
                std::mem::swap(&mut objects, &mut self.objects);
                objects.insert(p, object);
                self.objects = objects;
            },
        }
    }

    /// Writes an object and returns its id.
    pub fn put(&mut self, tag: TypeTag, bytes: Vec<u8>) -> (r: ObjectId)
        ensures
            r@ == hash::content_id(tag, bytes@),
            final(self)@ == stored(old(self)@, tag, bytes@),
    {
        let id = hash_object(tag, bytes.as_slice());
        self.load(id, tag, bytes);
        id
    }

    /// Reads an object and checks that its bytes have its id.
    pub fn get(&self, id: &ObjectId) -> (r: Result<(TypeTag, &[u8]), Error>)
        ensures
            match r {
                Ok(object) => lookup(self@, id@) == Ok::<(TypeTag, Seq<u8>), ErrorV>(
                    (object.0, object.1@),
                ),
                Err(e) => lookup(self@, id@) == Err::<(TypeTag, Seq<u8>), ErrorV>(e@),
            },
    {
        proof {
            use_type_invariant(self);
        }
        if !self.contains(id) {
            return Err(Error::ObjectNotFound(*id));
        }
        match self.find(id) {
            Ok(i) => {
                proof {
                    lemma_contents_at(self.objects@, i as int);
                }
                let object = &self.objects[i];
                if hash_object(object.tag, object.bytes.as_slice()) != *id {
                    return Err(Error::Corruption(about(id, " does not match its id")));
                }
                Ok((object.tag, object.bytes.as_slice()))
            },
            Err(_) => {
                proof {
                    order::lemma_lex_irreflexive(id.rank());
                    let i = choose|i: int| held_at(self.objects@, id@, i);
                    assert(self.objects@[i].id.rank() == id.rank());
                    assert(false);
                }
                Err(Error::ObjectNotFound(*id))
            },
        }
    }

    /// Reads an object of the kind `tag` and decodes it.
    pub fn get_as<T: Decode>(&self, id: &ObjectId, tag: TypeTag) -> (r: Result<T, Error>)
        ensures
            error::outcome(r) == read_as::<T>(self@, id@, tag),
    {
        let object = match self.get(id) {
            Ok(object) => object,
            Err(e) => {
                return Err(e);
            },
        };
        if object.0 != tag {
            return Err(Error::Corruption(about(id, " has an unexpected type tag")));
        }
        let mut decoder = Decoder::new(object.1);
        let value = match T::decode(&mut decoder) {
            Ok(value) => value,
            Err(e) => {
                return Err(e);
            },
        };
        match decoder.finish() {
            Ok(()) => Ok(value),
            Err(e) => Err(e),
        }
    }

    /// Writes a chunk.
    pub fn put_chunk(&mut self, chunk: &Chunk) -> (r: ObjectId)
        ensures
            r@ == hash::content_id(TypeTag::Chunk, Chunk::format(chunk@)),
            final(self)@ == stored(old(self)@, TypeTag::Chunk, Chunk::format(chunk@)),
    {
        self.put(TypeTag::Chunk, encode_to_vec(chunk))
    }

    /// Writes a blob.
    pub fn put_blob(&mut self, blob: &Blob) -> (r: ObjectId)
        ensures
            r@ == hash::content_id(TypeTag::Blob, Blob::format(blob@)),
            final(self)@ == stored(old(self)@, TypeTag::Blob, Blob::format(blob@)),
    {
        self.put(TypeTag::Blob, encode_to_vec(blob))
    }

    /// Writes a tree.
    pub fn put_tree(&mut self, tree: &Tree) -> (r: ObjectId)
        ensures
            r@ == hash::content_id(TypeTag::Tree, Tree::format(tree@)),
            final(self)@ == stored(old(self)@, TypeTag::Tree, Tree::format(tree@)),
    {
        self.put(TypeTag::Tree, encode_to_vec(tree))
    }

    /// Writes a snapshot.
    pub fn put_snapshot(&mut self, snapshot: &Snapshot) -> (r: ObjectId)
        ensures
            r@ == hash::content_id(TypeTag::Snapshot, Snapshot::format(snapshot@)),
            final(self)@ == stored(old(self)@, TypeTag::Snapshot, Snapshot::format(snapshot@)),
    {
        self.put(TypeTag::Snapshot, encode_to_vec(snapshot))
    }

    /// Writes a view.
    pub fn put_view(&mut self, view: &crate::object::View) -> (r: ObjectId)
        ensures
            r@ == hash::content_id(TypeTag::View, crate::object::View::format(view@)),
            final(self)@ == stored(old(self)@, TypeTag::View, crate::object::View::format(view@)),
    {
        self.put(TypeTag::View, encode_to_vec(view))
    }

    /// Writes an op.
    pub fn put_op(&mut self, op: &Op) -> (r: ObjectId)
        ensures
            r@ == hash::content_id(TypeTag::Op, Op::format(op.model())),
            final(self)@ == stored(old(self)@, TypeTag::Op, Op::format(op.model())),
    {
        self.put(TypeTag::Op, encode_to_vec(op))
    }

    /// Reads a chunk.
    pub fn get_chunk(&self, id: &ObjectId) -> (r: Result<Chunk, Error>)
        ensures
            error::outcome(r) == read_as::<Chunk>(self@, id@, TypeTag::Chunk),
    {
        self.get_as::<Chunk>(id, TypeTag::Chunk)
    }

    /// Reads a blob.
    pub fn get_blob(&self, id: &ObjectId) -> (r: Result<Blob, Error>)
        ensures
            error::outcome(r) == read_as::<Blob>(self@, id@, TypeTag::Blob),
    {
        self.get_as::<Blob>(id, TypeTag::Blob)
    }

    /// Reads a tree.
    pub fn get_tree(&self, id: &ObjectId) -> (r: Result<Tree, Error>)
        ensures
            error::outcome(r) == read_as::<Tree>(self@, id@, TypeTag::Tree),
    {
        self.get_as::<Tree>(id, TypeTag::Tree)
    }

    /// Reads a snapshot.
    pub fn get_snapshot(&self, id: &ObjectId) -> (r: Result<Snapshot, Error>)
        ensures
            error::outcome(r) == read_as::<Snapshot>(self@, id@, TypeTag::Snapshot),
    {
        self.get_as::<Snapshot>(id, TypeTag::Snapshot)
    }

    /// Reads a view.
    pub fn get_view(&self, id: &ObjectId) -> (r: Result<crate::object::View, Error>)
        ensures
            error::outcome(r) == read_as::<crate::object::View>(self@, id@, TypeTag::View),
    {
        self.get_as::<crate::object::View>(id, TypeTag::View)
    }

    /// Reads an op.
    pub fn get_op(&self, id: &ObjectId) -> (r: Result<Op, Error>)
        ensures
            error::outcome(r) == read_as::<Op>(self@, id@, TypeTag::Op),
    {
        self.get_as::<Op>(id, TypeTag::Op)
    }
}

/// A message about the object with the given id.
fn about(id: &ObjectId, what: &str) -> (r: String)
    ensures
        r@ == "object "@ + hash::hex_text(id@).take(12) + what@,
{
    let mut out = "object ".to_owned();
    append_text(&mut out, id.short().as_str());
    append_text(&mut out, what);
    out
}

} // verus!
