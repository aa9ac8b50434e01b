//! JSON values: what the agent-facing formats are built from and read out of.
//!
//! An object is a list of members; a key stands for its first member. Numbers
//! are kept as their text. Reading and printing JSON text is left to `serde_json`.
use vstd::prelude::*;
use vstd::string::*;

use crate::text::same_text;

verus! {

/// A JSON value.
#[derive(Debug)]
pub enum Json {
    /// `null`.
    Null,
    /// `true` or `false`.
    Bool(bool),
    /// A number, as its text.
    Number(String),
    /// A string.
    Text(String),
    /// An array.
    Array(Vec<Json>),
    /// An object, member by member.
    Object(Vec<(String, Json)>),
}

/// A JSON value, with texts as characters.
pub enum JsonV {
    Null,
    Bool(bool),
    Number(Seq<char>),
    Text(Seq<char>),
    Array(Seq<JsonV>),
    Object(Members),
}

/// The members of an object.
pub type Members = Seq<(Seq<char>, JsonV)>;

/// What a JSON value stands for.
pub open spec fn value_of(json: Json) -> JsonV
    decreases json,
{
    match json {
        Json::Null => JsonV::Null,
        Json::Bool(b) => JsonV::Bool(b),
        Json::Number(s) => JsonV::Number(s@),
        Json::Text(s) => JsonV::Text(s@),
        Json::Array(items) => JsonV::Array(values_of(items@)),
        Json::Object(members) => JsonV::Object(members_of(members@)),
    }
}

/// What JSON values stand for.
pub open spec fn values_of(items: Seq<Json>) -> Seq<JsonV>
    decreases items,
{
    if items.len() == 0 {
        seq![]
    } else {
        values_of(items.drop_last()).push(value_of(items[items.len() - 1]))
    }
}

/// What the members of an object stand for.
pub open spec fn members_of(members: Seq<(String, Json)>) -> Members
    decreases members,
{
    if members.len() == 0 {
        seq![]
    } else {
        let last = members[members.len() - 1];
        members_of(members.drop_last()).push((last.0@, value_of(last.1)))
    }
}

impl View for Json {
    type V = JsonV;

    open spec fn view(&self) -> JsonV {
        value_of(*self)
    }
}

/// The value of the first member with the key.
pub open spec fn member(members: Members, key: Seq<char>) -> Option<JsonV>
    decreases members.len(),
{
    if members.len() == 0 {
        None
    } else if members[0].0 == key {
        Some(members[0].1)
    } else {
        member(members.skip(1), key)
    }
}

/// The members with `value` under the key: in the place of the first member
/// with that key, or at the end.
pub open spec fn with_member(members: Members, key: Seq<char>, value: JsonV) -> Members
    decreases members.len(),
{
    if members.len() == 0 {
        seq![(key, value)]
    } else if members[0].0 == key {
        seq![(key, value)] + members.skip(1)
    } else {
        seq![members[0]] + with_member(members.skip(1), key, value)
    }
}

/// The members without the first one with the key.
pub open spec fn without_member(members: Members, key: Seq<char>) -> Members
    decreases members.len(),
{
    if members.len() == 0 {
        members
    } else if members[0].0 == key {
        members.skip(1)
    } else {
        seq![members[0]] + without_member(members.skip(1), key)
    }
}

/// The value under a key, if the value is an object that has it.
pub open spec fn get(json: JsonV, key: Seq<char>) -> Option<JsonV> {
    match json {
        JsonV::Object(members) => member(members, key),
        _ => None,
    }
}

/// The text under a key, if there is one.
pub open spec fn get_text(json: JsonV, key: Seq<char>) -> Option<Seq<char>> {
    match get(json, key) {
        Some(JsonV::Text(s)) => Some(s),
        _ => None,
    }
}

/// Setting a member changes what its key stands for, and nothing else.
pub proof fn lemma_with_member(members: Members, key: Seq<char>, value: JsonV, other: Seq<char>)
    ensures
        member(with_member(members, key, value), other) == (if other == key {
            Some(value)
        } else {
            member(members, other)
        }),
    decreases members.len(),
{
    let r = with_member(members, key, value);
    if members.len() == 0 {
        assert(r.skip(1) =~= members);
    } else if members[0].0 == key {
        assert(r.skip(1) =~= members.skip(1));
    } else {
        lemma_with_member(members.skip(1), key, value, other);
        assert(r.skip(1) =~= with_member(members.skip(1), key, value));
    }
}

/// Setting a member to what it is changes nothing.
pub proof fn lemma_with_same_member(members: Members, key: Seq<char>)
    requires
        member(members, key) is Some,
    ensures
        with_member(members, key, member(members, key)->Some_0) == members,
    decreases members.len(),
{
    let value = member(members, key)->Some_0;
    if members[0].0 == key {
        assert(with_member(members, key, value) =~= members);
    } else {
        lemma_with_same_member(members.skip(1), key);
        assert(with_member(members, key, value) =~= members);
    }
}

/// Of two values set under one key the second stays.
pub proof fn lemma_with_member_twice(members: Members, key: Seq<char>, a: JsonV, b: JsonV)
    ensures
        with_member(with_member(members, key, a), key, b) == with_member(members, key, b),
    decreases members.len(),
{
    let once = with_member(members, key, a);
    if members.len() == 0 {
        assert(once.skip(1) =~= members);
        assert(with_member(once, key, b) =~= with_member(members, key, b));
    } else if members[0].0 == key {
        assert(once.skip(1) =~= members.skip(1));
        assert(with_member(once, key, b) =~= with_member(members, key, b));
    } else {
        lemma_with_member_twice(members.skip(1), key, a, b);
        assert(once.skip(1) =~= with_member(members.skip(1), key, a));
        assert(with_member(once, key, b) =~= with_member(members, key, b));
    }
}

/// Taking out a member that was put in undoes that, if the key was free.
pub proof fn lemma_without_new_member(members: Members, key: Seq<char>, value: JsonV)
    requires
        member(members, key) is None,
    ensures
        without_member(with_member(members, key, value), key) == members,
    decreases members.len(),
{
    let more = with_member(members, key, value);
    if members.len() == 0 {
        assert(more.skip(1) =~= members);
    } else {
        lemma_without_new_member(members.skip(1), key, value);
        assert(more.skip(1) =~= with_member(members.skip(1), key, value));
        assert(without_member(more, key) =~= members);
    }
}

/// One more value.
pub proof fn lemma_values_push(items: Seq<Json>, item: Json)
    ensures
        values_of(items.push(item)) == values_of(items).push(item@),
{
    assert(items.push(item).drop_last() =~= items);
}

/// One more member.
pub proof fn lemma_members_push(members: Seq<(String, Json)>, m: (String, Json))
    ensures
        members_of(members.push(m)) == members_of(members).push((m.0@, m.1@)),
{
    assert(members.push(m).drop_last() =~= members);
}

/// The values, one by one.
pub proof fn lemma_values_at(items: Seq<Json>)
    ensures
        values_of(items).len() == items.len(),
        forall|i: int| 0 <= i < items.len() ==> #[trigger] values_of(items)[i] == items[i]@,
    decreases items.len(),
{
    if items.len() > 0 {
        lemma_values_at(items.drop_last());
        assert forall|i: int| 0 <= i < items.len() implies #[trigger] values_of(items)[i]
            == items[i]@ by {
            if i < items.len() - 1 {
                assert(values_of(items.drop_last())[i] == items.drop_last()[i]@);
            }
        }
    }
}

/// The members, one by one.
pub proof fn lemma_members_at(members: Seq<(String, Json)>)
    ensures
        members_of(members).len() == members.len(),
        forall|i: int|
            0 <= i < members.len() ==> #[trigger] members_of(members)[i] == (
                members[i].0@,
                members[i].1@,
            ),
    decreases members.len(),
{
    if members.len() > 0 {
        lemma_members_at(members.drop_last());
        assert forall|i: int| 0 <= i < members.len() implies #[trigger] members_of(members)[i] == (
            members[i].0@,
            members[i].1@,
        ) by {
            if i < members.len() - 1 {
                assert(members_of(members.drop_last())[i] == (
                    members.drop_last()[i].0@,
                    members.drop_last()[i].1@,
                ));
            }
        }
    }
}

/// A copy of the values.
fn copy_values(items: &Vec<Json>) -> (r: Vec<Json>)
    ensures
        values_of(r@) == values_of(items@),
    decreases items,
{
    let mut out: Vec<Json> = Vec::new();
    let mut i: usize = 0;
    assert(items@.take(0) =~= seq![]);
    while i < items.len()
        invariant
            i <= items@.len(),
            values_of(out@) == values_of(items@.take(i as int)),
        decreases items.len() - i,
    {
        let item = items[i].copy();
        proof {
            lemma_values_push(out@, item);
            lemma_values_push(items@.take(i as int), items@[i as int]);
            assert(items@.take(i + 1) =~= items@.take(i as int).push(items@[i as int]));
        }
        out.push(item);
        i += 1;
    }
    assert(items@.take(i as int) =~= items@);
    out
}

/// A copy of the members.
fn copy_members(members: &Vec<(String, Json)>) -> (r: Vec<(String, Json)>)
    ensures
        members_of(r@) == members_of(members@),
    decreases members,
{
    let mut out: Vec<(String, Json)> = Vec::new();
    let mut i: usize = 0;
    assert(members@.take(0) =~= seq![]);
    while i < members.len()
        invariant
            i <= members@.len(),
            members_of(out@) == members_of(members@.take(i as int)),
        decreases members.len() - i,
    {
        let m = (members[i].0.clone(), members[i].1.copy());
        proof {
            lemma_members_push(out@, m);
            lemma_members_push(members@.take(i as int), members@[i as int]);
            assert(members@.take(i + 1) =~= members@.take(i as int).push(members@[i as int]));
        }
        out.push(m);
        i += 1;
    }
    assert(members@.take(i as int) =~= members@);
    out
}

impl Json {
    /// A copy of the value.
    pub fn copy(&self) -> (r: Json)
        ensures
            r@ == self@,
        decreases self,
    {
        match self {
            Json::Null => Json::Null,
            Json::Bool(b) => Json::Bool(*b),
            Json::Number(s) => Json::Number(s.clone()),
            Json::Text(s) => Json::Text(s.clone()),
            Json::Array(items) => Json::Array(copy_values(items)),
            Json::Object(members) => Json::Object(copy_members(members)),
        }
    }
}

/// The first index that has the key.
proof fn lemma_member_at(members: Members, key: Seq<char>, p: int)
    requires
        0 <= p <= members.len(),
        forall|k: int| 0 <= k < p ==> (#[trigger] members[k]).0 != key,
        p < members.len() ==> members[p].0 == key,
    ensures
        member(members, key) == (if p < members.len() {
            Some(members[p].1)
        } else {
            None
        }),
        forall|value: JsonV| #[trigger]
            with_member(members, key, value) == (if p < members.len() {
                members.update(p, (key, value))
            } else {
                members.push((key, value))
            }),
        without_member(members, key) == (if p < members.len() {
            members.remove(p)
        } else {
            members
        }),
    decreases p,
{
    if p == 0 {
        assert forall|value: JsonV| #[trigger]
            with_member(members, key, value) == (if p < members.len() {
                members.update(p, (key, value))
            } else {
                members.push((key, value))
            }) by {
            if members.len() == 0 {
                assert(with_member(members, key, value) =~= members.push((key, value)));
            } else {
                assert(with_member(members, key, value) =~= members.update(0, (key, value)));
            }
        }
        if members.len() > 0 {
            assert(members.skip(1) =~= members.remove(0));
        }
    } else {
        assert(members[0].0 != key);
        let rest = members.skip(1);
        assert forall|k: int| 0 <= k < p - 1 implies (#[trigger] rest[k]).0 != key by {
            assert(rest[k] == members[k + 1]);
        }
        lemma_member_at(rest, key, p - 1);
        assert forall|value: JsonV| #[trigger]
            with_member(members, key, value) == (if p < members.len() {
                members.update(p, (key, value))
            } else {
                members.push((key, value))
            }) by {
            let r = with_member(rest, key, value);
            if p < members.len() {
                assert(with_member(members, key, value) =~= members.update(p, (key, value)));
            } else {
                assert(with_member(members, key, value) =~= members.push((key, value)));
            }
        }
        if p < members.len() {
            assert(without_member(members, key) =~= members.remove(p));
        } else {
            assert(without_member(members, key) =~= members);
        }
    }
}

/// The index of the first member with the key, or the number of members.
fn find_member(members: &[(String, Json)], key: &str) -> (r: usize)
    ensures
        r <= members@.len(),
        forall|k: int| 0 <= k < r ==> (#[trigger] members_of(members@)[k]).0 != key@,
        r < members@.len() ==> members_of(members@)[r as int].0 == key@,
{
    proof {
        lemma_members_at(members@);
    }
    let mut p: usize = 0;
    while p < members.len() && !same_text(members[p].0.as_str(), key)
        invariant
            p <= members@.len(),
            members_of(members@).len() == members@.len(),
            forall|i: int|
                0 <= i < members@.len() ==> #[trigger] members_of(members@)[i] == (
                    members@[i].0@,
                    members@[i].1@,
                ),
            forall|k: int| 0 <= k < p ==> (#[trigger] members_of(members@)[k]).0 != key@,
        decreases members.len() - p,
    {
        assert(members_of(members@)[p as int].0 == members@[p as int].0@);
        p += 1;
    }
    assert(p < members@.len() ==> members_of(members@)[p as int].0 == members@[p as int].0@);
    p
}

/// Adds a member at the end.
pub fn add_member(members: &mut Vec<(String, Json)>, key: &str, value: Json)
    ensures
        members_of(final(members)@) == members_of(old(members)@).push((key@, value@)),
{
    let m = (key.to_owned(), value);
    proof {
        lemma_members_push(members@, m);
    }
    members.push(m);
}

/// Adds a text at the end.
pub fn add_text(members: &mut Vec<(String, Json)>, key: &str, value: &str)
    ensures
        members_of(final(members)@) == members_of(old(members)@).push(
            (key@, JsonV::Text(value@)),
        ),
{
    add_member(members, key, Json::Text(value.to_owned()));
}

/// Sets a member: in the place of the first one with its key, or at the end.
pub fn set_member(members: &mut Vec<(String, Json)>, key: &str, value: Json)
    ensures
        members_of(final(members)@) == with_member(members_of(old(members)@), key@, value@),
{
    let p = find_member(members.as_slice(), key);
    let ghost was = members@;
    let ghost v = value@;
    proof {
        lemma_members_at(was);
        lemma_member_at(members_of(was), key@, p as int);
    }
    if p < members.len() {
        members.set(p, (key.to_owned(), value));
        proof {
            lemma_members_at(members@);
            assert(members_of(members@) =~= members_of(was).update(p as int, (key@, v)));
            assert(with_member(members_of(was), key@, v) == members_of(was).update(
                p as int,
                (key@, v),
            ));
        }
    } else {
        add_member(members, key, value);
        proof {
            assert(with_member(members_of(was), key@, v) == members_of(was).push((key@, v)));
        }
    }
}

/// Takes away the first member with the key, and says what it was.
pub fn take_member(members: &mut Vec<(String, Json)>, key: &str) -> (r: Option<Json>)
    ensures
        members_of(final(members)@) == without_member(members_of(old(members)@), key@),
        match r {
            Some(value) => member(members_of(old(members)@), key@) == Some(value@),
            None => member(members_of(old(members)@), key@) is None && final(members)@ == old(
                members,
            )@,
        },
{
    let p = find_member(members.as_slice(), key);
    let ghost was = members@;
    proof {
        lemma_members_at(was);
        lemma_member_at(members_of(was), key@, p as int);
    }
    if p < members.len() {
        let m = members.remove(p);
        proof {
            lemma_members_at(members@);
            assert(members_of(members@) =~= members_of(was).remove(p as int));
            assert(members_of(was)[p as int] == (was[p as int].0@, was[p as int].1@));
        }
        Some(m.1)
    } else {
        None
    }
}

impl Json {
    /// A JSON string.
    pub fn text(s: &str) -> (r: Json)
        ensures
            r@ == JsonV::Text(s@),
    {
        Json::Text(s.to_owned())
    }

    /// A JSON object without members.
    pub fn empty_object() -> (r: Json)
        ensures
            r@ == JsonV::Object(seq![]),
    {
        let members: Vec<(String, Json)> = Vec::new();
        assert(members_of(members@) =~= seq![]);
        Json::Object(members)
    }

    /// The value under a key, if this is an object that has it.
    pub fn get(&self, key: &str) -> (r: Option<&Json>)
        ensures
            match r {
                Some(value) => self::get(self@, key@) == Some(value@),
                None => self::get(self@, key@) is None,
            },
    {
        match self {
            Json::Object(members) => {
                let p = find_member(members.as_slice(), key);
                proof {
                    lemma_members_at(members@);
                    lemma_member_at(members_of(members@), key@, p as int);
                    assert(p < members@.len() ==> members_of(members@)[p as int].1
                        == members@[p as int].1@);
                }
                if p < members.len() {
                    Some(&members[p].1)
                } else {
                    None
                }
            },
            _ => None,
        }
    }

    /// The text, if this is a string.
    pub fn as_str(&self) -> (r: Option<&str>)
        ensures
            match r {
                Some(s) => self@ == JsonV::Text(s@),
                None => !(self@ is Text),
            },
    {
        match self {
            Json::Text(s) => Some(s.as_str()),
            _ => None,
        }
    }

    /// The items, if this is an array.
    pub fn as_array(&self) -> (r: Option<&[Json]>)
        ensures
            match r {
                Some(items) => self@ == JsonV::Array(values_of(items@)),
                None => !(self@ is Array),
            },
    {
        match self {
            Json::Array(items) => Some(items.as_slice()),
            _ => None,
        }
    }

    /// The text under a key, if there is one.
    pub fn get_str(&self, key: &str) -> (r: Option<&str>)
        ensures
            match r {
                Some(s) => get_text(self@, key@) == Some(s@),
                None => get_text(self@, key@) is None,
            },
    {
        match self.get(key) {
            Some(value) => value.as_str(),
            None => None,
        }
    }
}

// ── text ─────────────────────────────────────────────────────────────────────

/// The values of `serde_json`.
#[verifier::external_type_specification]
#[verifier::external_body]
pub struct ExValue(serde_json::Value);

/// A value of `serde_json`, as one of this crate: `serde_json::Value` taken apart
/// and put together again, with a number as its `Display` text. Nothing is claimed
/// of it alone; what is claimed of a parsed text stands at [`parse_json`].
#[verifier::external_body]
fn json_of(value: serde_json::Value) -> (r: Json) {
    match value {
        serde_json::Value::Null => Json::Null,
        serde_json::Value::Bool(b) => Json::Bool(b),
        serde_json::Value::Number(n) => Json::Number(n.to_string()),
        serde_json::Value::String(s) => Json::Text(s),
        serde_json::Value::Array(a) => Json::Array(a.into_iter().map(json_of).collect()),
        serde_json::Value::Object(m) => {
            Json::Object(m.into_iter().map(|(k, v)| (k, json_of(v))).collect())
        },
    }
}

/// A value of this crate, as one of `serde_json`: the reverse of the above. A
/// number that `serde_json::Number` does not read is `null`, and of two members
/// with one key the first counts. Nothing is claimed of it alone; what is claimed
/// of a printed value stands at [`render_json`] and [`render_pretty`].
#[verifier::external_body]
fn value_for(json: &Json) -> (r: serde_json::Value) {
    match json {
        Json::Null => serde_json::Value::Null,
        Json::Bool(b) => serde_json::Value::Bool(*b),
        Json::Number(n) => n.parse().map_or(serde_json::Value::Null, serde_json::Value::Number),
        Json::Text(s) => serde_json::Value::String(s.clone()),
        Json::Array(a) => serde_json::Value::Array(a.iter().map(value_for).collect()),
        Json::Object(m) => serde_json::Value::Object(
            m.iter().rev().map(|(k, v)| (k.clone(), value_for(v))).collect(),
        ),
    }
}

/// A value in which each key stands for one member, the first, at every level.
pub open spec fn keys_once(json: JsonV) -> JsonV
    decreases json,
{
    match json {
        JsonV::Array(items) => JsonV::Array(values_once(items)),
        JsonV::Object(members) => JsonV::Object(members_once(members)),
        _ => json,
    }
}

/// Values in which each key stands for one member.
pub open spec fn values_once(items: Seq<JsonV>) -> Seq<JsonV>
    decreases items,
{
    if items.len() == 0 {
        seq![]
    } else {
        values_once(items.drop_last()).push(keys_once(items[items.len() - 1]))
    }
}

/// The first member of each key.
pub open spec fn members_once(members: Members) -> Members
    decreases members,
{
    if members.len() == 0 {
        seq![]
    } else {
        let last = members[members.len() - 1];
        let before = members_once(members.drop_last());
        if member(before, last.0) is Some {
            before
        } else {
            before.push((last.0, keys_once(last.1)))
        }
    }
}

/// The value that a text stands for, or why it stands for none: what
/// `serde_json::from_str` gives.
pub uninterp spec fn parsed_json(text: Seq<char>) -> Result<JsonV, Seq<char>>;

/// `serde_json::from_str` into a `serde_json::Value`, with the `Display` text of
/// its error.
///
/// The result depends on the text alone. The grammar, and the words of an error,
/// are left to the crate.
#[verifier::external_body]
pub fn parse_json(text: &str) -> (r: Result<Json, String>)
    ensures
        match r {
            Ok(json) => parsed_json(text@) == Ok::<JsonV, Seq<char>>(json@),
            Err(reason) => parsed_json(text@) == Err::<JsonV, Seq<char>>(reason@),
        },
{
    match serde_json::from_str::<serde_json::Value>(text) {
        Ok(value) => Ok(json_of(value)),
        Err(e) => Err(e.to_string()),
    }
}

/// The text of a value on one line: what `Display` of `serde_json::Value` gives.
pub uninterp spec fn rendered_json(json: JsonV) -> Seq<char>;

/// `Display` of `serde_json::Value`: the text on one line.
///
/// The text depends on the value alone, and of two members with one key on the
/// first only; its form is left to the crate.
#[verifier::external_body]
pub fn render_json(json: &Json) -> (r: String)
    ensures
        r@ == rendered_json(json@),
        r@ == rendered_json(keys_once(json@)),
{
    value_for(json).to_string()
}

/// The indented text of a value: what `serde_json::to_string_pretty` gives.
pub uninterp spec fn rendered_pretty(json: JsonV) -> Seq<char>;

/// `serde_json::to_string_pretty`: the indented text.
///
/// The text depends on the value alone, and of two members with one key on the
/// first only; its form is left to the crate.
#[verifier::external_body]
pub fn render_pretty(json: &Json) -> (r: String)
    ensures
        r@ == rendered_pretty(json@),
        r@ == rendered_pretty(keys_once(json@)),
{
    serde_json::to_string_pretty(&value_for(json)).unwrap_or_default()
}

// ── laws ─────────────────────────────────────────────────────────────────────

/// Whether member `i` is the first with the key.
pub open spec fn first_at(members: Members, key: Seq<char>, i: int) -> bool {
    &&& 0 <= i < members.len()
    &&& members[i].0 == key
    &&& forall|k: int| 0 <= k < i ==> (#[trigger] members[k]).0 != key
}

/// A key stands for the value of the first member with it, wherever that is; a
/// text that is no member's key stands for nothing.
pub proof fn law_member(members: Members, key: Seq<char>)
    ensures
        forall|i: int| #[trigger] first_at(members, key, i) ==> member(members, key) == Some(members[i].1),
        (forall|k: int| 0 <= k < members.len() ==> (#[trigger] members[k]).0 != key) <==> member(
            members,
            key,
        ) is None,
        get(JsonV::Object(members), key) == member(members, key),
    decreases members.len(),
{
    if members.len() > 0 {
        let rest = members.skip(1);
        law_member(rest, key);
        assert forall|i: int| #[trigger] first_at(members, key, i) implies member(members, key)
            == Some(members[i].1) by {
            if i > 0 {
                assert(members[0].0 != key);
                assert(rest[i - 1] == members[i]);
                assert forall|k: int| 0 <= k < i - 1 implies (#[trigger] rest[k]).0 != key by {
                    assert(members[k + 1].0 != key);
                }
                assert(first_at(rest, key, i - 1));
            }
        }
        if members[0].0 != key {
            if forall|k: int| 0 <= k < members.len() ==> (#[trigger] members[k]).0 != key {
                assert forall|k: int| 0 <= k < rest.len() implies (#[trigger] rest[k]).0 != key by {
                    assert(members[k + 1].0 != key);
                }
            }
            if member(rest, key) is None {
                assert forall|k: int| 0 <= k < members.len() implies (#[trigger] members[k]).0
                    != key by {
                    if k > 0 {
                        assert(rest[k - 1].0 != key);
                    }
                }
            }
        }
    }
}

/// Only an object has members, and only a text is one.
pub proof fn law_get(json: JsonV, key: Seq<char>)
    ensures
        !(json is Object) ==> get(json, key) is None && get_text(json, key) is None,
        get(json, key) is None ==> get_text(json, key) is None,
        get(json, key) matches Some(value) ==> match value {
            JsonV::Text(s) => get_text(json, key) == Some(s),
            _ => get_text(json, key) is None,
        },
{
}

/// A member is set in its place, or at the end where there was none; the others
/// stay where they are.
pub proof fn law_set_member(members: Members, key: Seq<char>, value: JsonV)
    ensures
        forall|i: int| #[trigger]
            first_at(members, key, i) ==> with_member(members, key, value) == members.update(
                i,
                (key, value),
            ),
        (forall|k: int| 0 <= k < members.len() ==> (#[trigger] members[k]).0 != key)
            ==> with_member(members, key, value) == members.push((key, value)),
    decreases members.len(),
{
    let set = with_member(members, key, value);
    if members.len() == 0 {
        assert(set =~= members.push((key, value)));
    } else {
        let rest = members.skip(1);
        law_set_member(rest, key, value);
        assert forall|i: int| #[trigger] first_at(members, key, i) implies set == members.update(
            i,
            (key, value),
        ) by {
            if i > 0 {
                assert(members[0].0 != key);
                assert(rest[i - 1] == members[i]);
                assert forall|k: int| 0 <= k < i - 1 implies (#[trigger] rest[k]).0 != key by {
                    assert(members[k + 1].0 != key);
                }
                assert(first_at(rest, key, i - 1));
            }
            assert(set =~= members.update(i, (key, value)));
        }
        if forall|k: int| 0 <= k < members.len() ==> (#[trigger] members[k]).0 != key {
            assert(members[0].0 != key);
            assert forall|k: int| 0 <= k < rest.len() implies (#[trigger] rest[k]).0 != key by {
                assert(members[k + 1].0 != key);
            }
            assert(set =~= members.push((key, value)));
        }
    }
}

/// Taking a member out takes the first with the key, and no other.
pub proof fn law_take_member(members: Members, key: Seq<char>)
    ensures
        forall|i: int| #[trigger]
            first_at(members, key, i) ==> without_member(members, key) == members.remove(i),
        (forall|k: int| 0 <= k < members.len() ==> (#[trigger] members[k]).0 != key)
            ==> without_member(members, key) == members,
    decreases members.len(),
{
    let less = without_member(members, key);
    if members.len() > 0 {
        let rest = members.skip(1);
        law_take_member(rest, key);
        assert forall|i: int| #[trigger] first_at(members, key, i) implies less == members.remove(
            i,
        ) by {
            if i > 0 {
                assert(members[0].0 != key);
                assert(rest[i - 1] == members[i]);
                assert forall|k: int| 0 <= k < i - 1 implies (#[trigger] rest[k]).0 != key by {
                    assert(members[k + 1].0 != key);
                }
                assert(first_at(rest, key, i - 1));
            }
            assert(less =~= members.remove(i));
        }
        if forall|k: int| 0 <= k < members.len() ==> (#[trigger] members[k]).0 != key {
            assert(members[0].0 != key);
            assert forall|k: int| 0 <= k < rest.len() implies (#[trigger] rest[k]).0 != key by {
                assert(members[k + 1].0 != key);
            }
            assert(less =~= members);
        }
    }
}

/// In a value in which each key stands for one member, no two members of an object
/// have the same key, and each key stands for what it stood for.
pub proof fn law_keys_once(members: Members, key: Seq<char>)
    ensures
        ({
            let once = members_once(members);
            &&& forall|i: int, k: int|
                0 <= i < k < once.len() ==> (#[trigger] once[i]).0 != (#[trigger] once[k]).0
            &&& member(once, key) is Some <==> member(members, key) is Some
            &&& member(members, key) is Some ==> member(once, key) == Some(
                keys_once(member(members, key)->Some_0),
            )
        }),
    decreases members.len(),
{
    if members.len() > 0 {
        let before = members.drop_last();
        let last = members.last();
        let once = members_once(before);
        law_keys_once(before, key);
        law_keys_once(before, last.0);
        law_member(once, last.0);
        lemma_member_push(before, last, key);
        lemma_member_push(once, (last.0, keys_once(last.1)), key);
        assert(before.push(last) =~= members);
    }
}

proof fn lemma_member_push(members: Members, last: (Seq<char>, JsonV), key: Seq<char>)
    ensures
        member(members.push(last), key) == (if member(members, key) is Some {
            member(members, key)
        } else if last.0 == key {
            Some(last.1)
        } else {
            None
        }),
    decreases members.len(),
{
    let more = members.push(last);
    if members.len() == 0 {
        assert(more.skip(1) =~= members);
    } else {
        lemma_member_push(members.skip(1), last, key);
        assert(more.skip(1) =~= members.skip(1).push(last));
    }
}

} // verus!
