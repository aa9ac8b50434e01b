//! Advisory path claims: lightweight coordination for parallel agents.
//!
//! A **claim** is a non-binding assertion that some actor (an agent id or
//! username) intends to work on a repo path, so that other workers can avoid
//! overlapping edits. Claims are deliberately *not* locks: nothing refuses a
//! write to a claimed path.
//!
//! Claims are derived from the op-log and not stored separately. A claim or
//! release is an ordinary [`Op`] whose recorded command is the verb and its
//! arguments (`["tack", "claim", <path>, <holder>, <note>]` or
//! `["tack", "release", <path>, <holder>]`). The claims that are held are what
//! the log leaves when it is replayed from its oldest op to its newest
//! ([`current_claims`]). They live in the log and not in the view, so restoring
//! an old tree does not drop a peer's claim.
use vstd::prelude::*;
use vstd::string::*;
use vstd::utf8::*;

use crate::text;
use crate::order;
use crate::ignore;
use crate::encoding;
use crate::object::{Op, OpV};
use crate::order::{text_before, Ranked};
use crate::text::{same_text, text_begins_with, trim};
use crate::tree::normalize_repo_path;

verus! {

/// The recorded command verb of a claim op (`command[1]`).
pub const CLAIM_VERB: &'static str = "claim";

/// The recorded command verb of a release op (`command[1]`).
pub const RELEASE_VERB: &'static str = "release";

/// One currently-held advisory claim.
///
/// `holder` is an identity *label* (a name or agent id), never an e-mail
/// address.
#[derive(Debug, Clone, PartialEq, Eq)]
pub struct Claim {
    /// The claimed repo-relative path (normalised, forward-slashed). The empty
    /// string is the whole-repo selector.
    pub path: String,
    /// The actor holding the claim.
    pub holder: String,
    /// A free-form advisory note (may be empty).
    pub note: String,
    /// Seconds since the Unix epoch when the claim was (re)asserted.
    pub timestamp: i64,
}

/// A claim, with texts as characters.
pub struct ClaimV {
    pub path: Seq<char>,
    pub holder: Seq<char>,
    pub note: Seq<char>,
    pub timestamp: i64,
}

impl View for Claim {
    type V = ClaimV;

    open spec fn view(&self) -> ClaimV {
        ClaimV {
            path: self.path@,
            holder: self.holder@,
            note: self.note@,
            timestamp: self.timestamp,
        }
    }
}

/// What a claim is found by: its path and its holder.
pub type ClaimKey = (Seq<char>, Seq<char>);

/// The key of a claim.
pub open spec fn key_of(c: ClaimV) -> ClaimKey {
    (c.path, c.holder)
}

/// What an op does to the claims.
pub enum ClaimOpV {
    /// Claims, or claims again.
    Claim(ClaimV),
    /// Gives up the claim with the key.
    Release(ClaimKey),
}

/// What an op does to the claims, if anything: its recorded command decides.
pub open spec fn claim_op(op: OpV) -> Option<ClaimOpV> {
    let command = op.metadata.command;
    if command.len() == 5 && command[0] == "tack"@ && command[1] == CLAIM_VERB@ {
        Some(
            ClaimOpV::Claim(
                ClaimV {
                    path: command[2],
                    holder: command[3],
                    note: command[4],
                    timestamp: op.metadata.start.unix_secs,
                },
            ),
        )
    } else if command.len() == 4 && command[0] == "tack"@ && command[1] == RELEASE_VERB@ {
        Some(ClaimOpV::Release((command[2], command[3])))
    } else {
        None
    }
}

/// The claims that are held after the ops, which are given newest first.
pub open spec fn held_claims(ops: Seq<OpV>) -> Map<ClaimKey, ClaimV>
    decreases ops.len(),
{
    if ops.len() == 0 {
        Map::empty()
    } else {
        let before = held_claims(ops.skip(1));
        match claim_op(ops[0]) {
            Some(ClaimOpV::Claim(c)) => before.insert(key_of(c), c),
            Some(ClaimOpV::Release(key)) => before.remove(key),
            None => before,
        }
    }
}

/// The rank of a claim: it is ordered by its path, then by its holder.
pub open spec fn claim_rank(key: ClaimKey) -> Seq<int> {
    let up = |b: u8| b + 1;
    encode_utf8(key.0).map_values(up).push(0) + encode_utf8(key.1).map_values(up)
}

/// Whether `list` holds the claims of `map`, each once, in ascending order of
/// path and holder.
pub open spec fn lists(list: Seq<ClaimV>, map: Map<ClaimKey, ClaimV>) -> bool {
    &&& forall|i: int, j: int|
        0 <= i < j < list.len() ==> order::lex_lt(
            claim_rank(key_of(#[trigger] list[i])),
            claim_rank(key_of(#[trigger] list[j])),
        )
    &&& forall|i: int|
        0 <= i < list.len() ==> map.contains_key(key_of(#[trigger] list[i]))
            && map[key_of(list[i])] == list[i]
    &&& forall|key: ClaimKey|
        #[trigger] map.contains_key(key) ==> list.contains(map[key]) && key_of(map[key]) == key
}

/// A release leaves no claim with its path and holder.
pub proof fn lemma_release_cancels(ops: Seq<OpV>, op: OpV, key: ClaimKey)
    requires
        claim_op(op) == Some(ClaimOpV::Release(key)),
    ensures
        !held_claims(seq![op] + ops).contains_key(key),
        forall|other: ClaimKey|
            other != key ==> (#[trigger] held_claims(seq![op] + ops).contains_key(other) <==>
                held_claims(ops).contains_key(other)),
        forall|other: ClaimKey|
            other != key && #[trigger] held_claims(ops).contains_key(other) ==> held_claims(
                seq![op] + ops,
            )[other] == held_claims(ops)[other],
{
    assert((seq![op] + ops).skip(1) =~= ops);
}

/// A claim is held once it was made, with the note and the time of the newest
/// assertion, and no other claim changes.
pub proof fn lemma_claim_is_held(ops: Seq<OpV>, op: OpV, claim: ClaimV)
    requires
        claim_op(op) == Some(ClaimOpV::Claim(claim)),
    ensures
        held_claims(seq![op] + ops) == held_claims(ops).insert(key_of(claim), claim),
{
    assert((seq![op] + ops).skip(1) =~= ops);
}

/// Ops of other commands change no claim.
pub proof fn lemma_other_ops_keep_claims(ops: Seq<OpV>, op: OpV)
    requires
        claim_op(op) is None,
    ensures
        held_claims(seq![op] + ops) == held_claims(ops),
{
    assert((seq![op] + ops).skip(1) =~= ops);
}

/// What a list holds is fixed by the map: two listings of one map are equal.
pub proof fn lemma_listing_is_unique(a: Seq<ClaimV>, b: Seq<ClaimV>, map: Map<ClaimKey, ClaimV>)
    requires
        lists(a, map),
        lists(b, map),
    ensures
        a == b,
{
    lemma_listing_at(a, b, map, a.len() as int);
    lemma_listing_at(b, a, map, b.len() as int);
    assert(a =~= b);
}

/// Up to `n`, the claims of `a` stand at the same place in `b`.
proof fn lemma_listing_at(a: Seq<ClaimV>, b: Seq<ClaimV>, map: Map<ClaimKey, ClaimV>, n: int)
    requires
        lists(a, map),
        lists(b, map),
        0 <= n <= a.len(),
    ensures
        n <= b.len(),
        forall|i: int| 0 <= i < n ==> a[i] == b[i],
    decreases n,
{
    if n > 0 {
        lemma_listing_at(a, b, map, n - 1);
        let x = a[n - 1];
        assert(b.contains(x)) by {
            assert(map.contains_key(key_of(a[n - 1])));
        }
        let j = choose|j: int| 0 <= j < b.len() && b[j] == x;
        if j < n - 1 {
            assert(a[j] == b[j]);
            order::lemma_lex_irreflexive(claim_rank(key_of(x)));
        } else if j > n - 1 {
            let y = b[n - 1];
            assert(a.contains(y)) by {
                assert(map.contains_key(key_of(b[n - 1])));
            }
            let k = choose|k: int| 0 <= k < a.len() && a[k] == y;
            order::lemma_lex_irreflexive(claim_rank(key_of(y)));
            if k < n - 1 {
                assert(b[k] == a[k]);
            } else {
                assert(order::lex_lt(claim_rank(key_of(b[n - 1])), claim_rank(key_of(b[j]))));
                if k > n - 1 {
                    assert(order::lex_lt(claim_rank(key_of(a[n - 1])), claim_rank(key_of(a[k]))));
                    order::lemma_lex_transitive(
                        claim_rank(key_of(x)),
                        claim_rank(key_of(y)),
                        claim_rank(key_of(x)),
                    );
                    order::lemma_lex_irreflexive(claim_rank(key_of(x)));
                }
            }
        }
    }
}

// ── the order of claims ──────────────────────────────────────────────────────

/// Pairs are ordered by their first parts, then by their second parts.
proof fn lemma_pair_order(a: Seq<u8>, b: Seq<u8>, x: Seq<u8>, y: Seq<u8>)
    ensures
        ({
            let up = |b: u8| b + 1;
            order::lex_lt(
                a.map_values(up).push(0) + x.map_values(up),
                b.map_values(up).push(0) + y.map_values(up),
            ) == (order::lex_lt(order::ints(a), order::ints(b)) || (a == b && order::lex_lt(order::ints(x), order::ints(y))))
        }),
    decreases a.len(),
{
    let up = |b: u8| b + 1;
    let l = a.map_values(up).push(0) + x.map_values(up);
    let r = b.map_values(up).push(0) + y.map_values(up);
    if a.len() == 0 && b.len() == 0 {
        assert(a =~= b);
        assert(l.skip(1) =~= x.map_values(up));
        assert(r.skip(1) =~= y.map_values(up));
        lemma_shifted_order(x, y);
    } else if a.len() == 0 {
        assert(r[0] == b[0] + 1);
        assert(l[0] == 0);
    } else if b.len() == 0 {
        assert(l[0] == a[0] + 1);
        assert(r[0] == 0);
    } else {
        assert(l[0] == a[0] + 1);
        assert(r[0] == b[0] + 1);
        assert(l.skip(1) =~= a.skip(1).map_values(up).push(0) + x.map_values(up));
        assert(r.skip(1) =~= b.skip(1).map_values(up).push(0) + y.map_values(up));
        lemma_pair_order(a.skip(1), b.skip(1), x, y);
        assert(order::ints(a).skip(1) =~= order::ints(a.skip(1)));
        assert(order::ints(b).skip(1) =~= order::ints(b.skip(1)));
        assert(a =~= seq![a[0]] + a.skip(1));
        assert(b =~= seq![b[0]] + b.skip(1));
    }
}

/// Adding one everywhere keeps the order.
proof fn lemma_shifted_order(x: Seq<u8>, y: Seq<u8>)
    ensures
        ({
            let up = |b: u8| b + 1;
            order::lex_lt(x.map_values(up), y.map_values(up)) == order::lex_lt(order::ints(x), order::ints(y))
        }),
    decreases x.len(),
{
    let up = |b: u8| b + 1;
    if x.len() > 0 && y.len() > 0 {
        assert(x.map_values(up).skip(1) =~= x.skip(1).map_values(up));
        assert(y.map_values(up).skip(1) =~= y.skip(1).map_values(up));
        assert(order::ints(x).skip(1) =~= order::ints(x.skip(1)));
        assert(order::ints(y).skip(1) =~= order::ints(y.skip(1)));
        lemma_shifted_order(x.skip(1), y.skip(1));
    }
}

/// Claims of one rank have one key.
proof fn lemma_rank_is_key(a: ClaimKey, b: ClaimKey)
    requires
        claim_rank(a) == claim_rank(b),
    ensures
        a == b,
{
    let pa = encode_utf8(a.0);
    let pb = encode_utf8(b.0);
    let ha = encode_utf8(a.1);
    let hb = encode_utf8(b.1);
    order::lemma_lex_irreflexive(claim_rank(a));
    lemma_pair_order(pa, pb, ha, hb);
    lemma_pair_order(pb, pa, hb, ha);
    order::lemma_lex_total(order::ints(pa), order::ints(pb));
    order::lemma_text_rank_injective(a.0, b.0);
    order::lemma_lex_total(order::ints(ha), order::ints(hb));
    order::lemma_text_rank_injective(a.1, b.1);
}

impl Ranked for Claim {
    open spec fn rank(&self) -> Seq<int> {
        claim_rank(key_of(self@))
    }

    fn precedes(&self, other: &Self) -> (r: bool) {
        proof {
            lemma_pair_order(
                encode_utf8(self.path@),
                encode_utf8(other.path@),
                encode_utf8(self.holder@),
                encode_utf8(other.holder@),
            );
            if encode_utf8(self.path@) == encode_utf8(other.path@) {
                text::lemma_utf8_injective(self.path@, other.path@);
            }
        }
        text_before(self.path.as_str(), other.path.as_str()) || (same_text(
            self.path.as_str(),
            other.path.as_str(),
        ) && text_before(self.holder.as_str(), other.holder.as_str()))
    }
}

// ── commands ─────────────────────────────────────────────────────────────────

/// The command that records a claim.
pub open spec fn claim_words(path: Seq<char>, holder: Seq<char>, note: Seq<char>) -> Seq<
    Seq<char>,
> {
    seq!["tack"@, CLAIM_VERB@, ignore::normal_path(path), text::trimmed(holder), note]
}

/// The command that records a release.
pub open spec fn release_words(path: Seq<char>, holder: Seq<char>) -> Seq<Seq<char>> {
    seq!["tack"@, RELEASE_VERB@, ignore::normal_path(path), text::trimmed(holder)]
}

/// An op with the command of a claim is a claim of the normalized path by the
/// trimmed holder, at the time of the op.
pub proof fn lemma_claim_command_claims(
    op: OpV,
    path: Seq<char>,
    holder: Seq<char>,
    note: Seq<char>,
)
    requires
        op.metadata.command == claim_words(path, holder, note),
    ensures
        claim_op(op) == Some(
            ClaimOpV::Claim(
                ClaimV {
                    path: ignore::normal_path(path),
                    holder: text::trimmed(holder),
                    note,
                    timestamp: op.metadata.start.unix_secs,
                },
            ),
        ),
{
}

/// An op with the command of a release releases the normalized path of the
/// trimmed holder.
pub proof fn lemma_release_command_releases(op: OpV, path: Seq<char>, holder: Seq<char>)
    requires
        op.metadata.command == release_words(path, holder),
    ensures
        claim_op(op) == Some(ClaimOpV::Release((ignore::normal_path(path), text::trimmed(holder)))),
{
}

/// Builds the op command that records a claim on `path` by `holder` with an
/// advisory `note`.
pub fn claim_command(path: &str, holder: &str, note: &str) -> (r: Vec<String>)
    ensures
        text::texts(r@) == claim_words(path@, holder@, note@),
{
    let mut out: Vec<String> = Vec::new();
    out.push("tack".to_owned());
    out.push(CLAIM_VERB.to_owned());
    out.push(normalize_repo_path(path));
    out.push(trim(holder));
    out.push(note.to_owned());
    assert(text::texts(out@) =~= claim_words(path@, holder@, note@));
    out
}

/// Builds the op command that records the release of `path` by `holder`.
pub fn release_command(path: &str, holder: &str) -> (r: Vec<String>)
    ensures
        text::texts(r@) == release_words(path@, holder@),
{
    let mut out: Vec<String> = Vec::new();
    out.push("tack".to_owned());
    out.push(RELEASE_VERB.to_owned());
    out.push(normalize_repo_path(path));
    out.push(trim(holder));
    assert(text::texts(out@) =~= release_words(path@, holder@));
    out
}

/// A parsed claim or release recovered from an op's command.
enum ClaimOp {
    /// A claim, with its time filled in from the op.
    Claim(Claim),
    /// A release of `(path, holder)`.
    Release { path: String, holder: String },
}

/// Recognises a claim or release op by its recorded command.
fn parse_op(op: &Op) -> (r: Option<ClaimOp>)
    ensures
        match r {
            Some(ClaimOp::Claim(c)) => claim_op(op.model()) == Some(ClaimOpV::Claim(c@)),
            Some(ClaimOp::Release { path, holder }) => claim_op(op.model()) == Some(
                ClaimOpV::Release((path@, holder@)),
            ),
            None => claim_op(op.model()) is None,
        },
{
    let command = op.metadata().command();
    let timestamp: i64 = op.metadata().start().unix_secs();
    proof {
        let words = op.model().metadata.command;
        assert(words == text::texts(command@));
        assert forall|i: int| 0 <= i < command@.len() implies words[i] == (
        #[trigger] command@[i])@ by {}
        reveal_strlit("claim");
        reveal_strlit("release");
    }
    if command.len() == 5 {
        if same_text(command[0].as_str(), "tack") && same_text(command[1].as_str(), CLAIM_VERB) {
            return Some(
                ClaimOp::Claim(
                    Claim {
                        path: command[2].clone(),
                        holder: command[3].clone(),
                        note: command[4].clone(),
                        timestamp,
                    },
                ),
            );
        }
        None
    } else if command.len() == 4 {
        if same_text(command[0].as_str(), "tack") && same_text(command[1].as_str(), RELEASE_VERB) {
            return Some(
                ClaimOp::Release { path: command[2].clone(), holder: command[3].clone() },
            );
        }
        None
    } else {
        None
    }
}

// ── the claims that are held ─────────────────────────────────────────────────

/// Whether the claim has the given path and holder.
fn is_for(claim: &Claim, path: &str, holder: &str) -> (r: bool)
    ensures
        r == (key_of(claim@) == (path@, holder@)),
{
    same_text(claim.path.as_str(), path) && same_text(claim.holder.as_str(), holder)
}

/// Claims, or claims again.
fn assert_claim(held: &mut Vec<Claim>, claim: Claim, Ghost(map): Ghost<Map<ClaimKey, ClaimV>>)
    requires
        lists(encoding::views(old(held)@), map),
    ensures
        lists(encoding::views(final(held)@), map.insert(key_of(claim@), claim@)),
{
    let mut p: usize = 0;
    while p < held.len() && held[p].precedes(&claim)
        invariant
            p <= held@.len(),
            held@ == old(held)@,
            forall|k: int| 0 <= k < p ==> order::lex_lt((#[trigger] held@[k]).rank(), claim.rank()),
        decreases held.len() - p,
    {
        p += 1;
    }
    let ghost was = encoding::views(held@);
    let ghost c = claim@;
    let ghost next = map.insert(key_of(c), c);
    if p < held.len() && is_for(&held[p], claim.path.as_str(), claim.holder.as_str()) {
        held.set(p, claim);
        proof {
            let now = encoding::views(held@);
            assert(now =~= was.update(p as int, c));
            assert forall|i: int| 0 <= i < now.len() implies next.contains_key(
                key_of(#[trigger] now[i]),
            ) && next[key_of(now[i])] == now[i] by {
                if i != p {
                    assert(now[i] == was[i]);
                    lemma_keys_differ(was, map, i, p as int);
                }
            }
            assert forall|i: int, j: int| 0 <= i < j < now.len() implies order::lex_lt(
                claim_rank(key_of(#[trigger] now[i])),
                claim_rank(key_of(#[trigger] now[j])),
            ) by {
                assert(key_of(now[i]) == key_of(was[i]));
                assert(key_of(now[j]) == key_of(was[j]));
            }
            assert forall|key: ClaimKey| #[trigger] next.contains_key(key) implies now.contains(
                next[key],
            ) && key_of(next[key]) == key by {
                if key == key_of(c) {
                    assert(now[p as int] == c);
                } else {
                    assert(map.contains_key(key));
                    let i = choose|i: int| 0 <= i < was.len() && was[i] == map[key];
                    assert(now[i] == was[i]);
                }
            }
        }
    } else {
        proof {
            if p < held@.len() {
                order::lemma_lex_total(claim.rank(), held@[p as int].rank());
                if claim.rank() == held@[p as int].rank() {
                    lemma_rank_is_key(key_of(c), key_of(held@[p as int]@));
                }
            }
        }
        held.insert(p, claim);
        proof {
            let now = encoding::views(held@);
            assert(now =~= was.insert(p as int, c));
            assert forall|i: int, j: int| 0 <= i < j < now.len() implies order::lex_lt(
                claim_rank(key_of(#[trigger] now[i])),
                claim_rank(key_of(#[trigger] now[j])),
            ) by {
                if i == p {
                    assert(now[j] == was[j - 1]);
                    if j - 1 > p {
                        assert(order::lex_lt(
                            claim_rank(key_of(was[p as int])),
                            claim_rank(key_of(was[j - 1])),
                        ));
                        order::lemma_lex_transitive(
                            claim_rank(key_of(c)),
                            claim_rank(key_of(was[p as int])),
                            claim_rank(key_of(was[j - 1])),
                        );
                    }
                } else if j == p {
                    assert(now[i] == old(held)@[i]@);
                } else {
                    let i2 = if i < p { i } else { i - 1 };
                    let j2 = if j < p { j } else { j - 1 };
                    assert(now[i] == was[i2]);
                    assert(now[j] == was[j2]);
                }
            }
            assert forall|i: int| 0 <= i < now.len() implies next.contains_key(
                key_of(#[trigger] now[i]),
            ) && next[key_of(now[i])] == now[i] by {
                if i != p {
                    let i2 = if i < p { i } else { i - 1 };
                    assert(now[i] == was[i2]);
                    if key_of(was[i2]) == key_of(c) {
                        order::lemma_lex_irreflexive(claim_rank(key_of(c)));
                        if i < p {
                            assert(order::lex_lt(old(held)@[i].rank(), claim_rank(key_of(c))));
                        } else {
                            assert(order::lex_lt(
                                claim_rank(key_of(now[p as int])),
                                claim_rank(key_of(now[i])),
                            ));
                        }
                    }
                }
            }
            assert forall|key: ClaimKey| #[trigger] next.contains_key(key) implies now.contains(
                next[key],
            ) && key_of(next[key]) == key by {
                if key == key_of(c) {
                    assert(now[p as int] == c);
                } else {
                    assert(map.contains_key(key));
                    let i = choose|i: int| 0 <= i < was.len() && was[i] == map[key];
                    let i2 = if i < p { i } else { i + 1 };
                    assert(now[i2] == was[i]);
                }
            }
        }
    }
}

/// Two claims of a list differ in path or holder.
proof fn lemma_keys_differ(list: Seq<ClaimV>, map: Map<ClaimKey, ClaimV>, i: int, j: int)
    requires
        lists(list, map),
        0 <= i < list.len(),
        0 <= j < list.len(),
        i != j,
    ensures
        key_of(list[i]) != key_of(list[j]),
{
    order::lemma_lex_irreflexive(claim_rank(key_of(list[i])));
    if i < j {
        assert(order::lex_lt(claim_rank(key_of(list[i])), claim_rank(key_of(list[j]))));
    } else {
        assert(order::lex_lt(claim_rank(key_of(list[j])), claim_rank(key_of(list[i]))));
    }
}

/// Gives up the claim with the path and holder, if there is one.
fn retract_claim(
    held: &mut Vec<Claim>,
    path: &str,
    holder: &str,
    Ghost(map): Ghost<Map<ClaimKey, ClaimV>>,
)
    requires
        lists(encoding::views(old(held)@), map),
    ensures
        lists(encoding::views(final(held)@), map.remove((path@, holder@))),
{
    let ghost key = (path@, holder@);
    let ghost was = encoding::views(held@);
    let mut p: usize = 0;
    while p < held.len() && !is_for(&held[p], path, holder)
        invariant
            p <= held@.len(),
            held@ == old(held)@,
            key == (path@, holder@),
            forall|k: int| 0 <= k < p ==> key_of((#[trigger] held@[k])@) != key,
        decreases held.len() - p,
    {
        p += 1;
    }
    let ghost next = map.remove(key);
    if p < held.len() {
        let _ = held.remove(p);
        proof {
            let now = encoding::views(held@);
            assert(now =~= was.remove(p as int));
            assert forall|i: int, j: int| 0 <= i < j < now.len() implies order::lex_lt(
                claim_rank(key_of(#[trigger] now[i])),
                claim_rank(key_of(#[trigger] now[j])),
            ) by {
                let i2 = if i < p { i } else { i + 1 };
                let j2 = if j < p { j } else { j + 1 };
                assert(now[i] == was[i2]);
                assert(now[j] == was[j2]);
            }
            assert forall|i: int| 0 <= i < now.len() implies next.contains_key(
                key_of(#[trigger] now[i]),
            ) && next[key_of(now[i])] == now[i] by {
                let i2 = if i < p { i } else { i + 1 };
                assert(now[i] == was[i2]);
                lemma_keys_differ(was, map, i2, p as int);
            }
            assert forall|k: ClaimKey| #[trigger] next.contains_key(k) implies now.contains(
                next[k],
            ) && key_of(next[k]) == k by {
                assert(map.contains_key(k));
                let i = choose|i: int| 0 <= i < was.len() && was[i] == map[k];
                assert(i != p);
                let i2 = if i < p { i } else { i - 1 };
                assert(now[i2] == was[i]);
            }
        }
    } else {
        proof {
            assert(!map.contains_key(key)) by {
                if map.contains_key(key) {
                    let i = choose|i: int| 0 <= i < was.len() && was[i] == map[key];
                    assert(key_of(held@[i]@) == key);
                }
            }
            assert(next =~= map);
        }
    }
}

/// Folds an op-log into the set of currently-held claims.
///
/// `ops` is expected newest-first (as produced by
/// [`op_log`](crate::oplog::op_log)); they are replayed oldest-to-newest, so
/// that a later release cancels an earlier claim. A claim is keyed by
/// `(path, holder)`: re-claiming the same pair updates the note and the time;
/// releasing it removes it. The result is sorted by `(path, holder)`.
#[must_use]
pub fn current_claims(ops: &[Op]) -> (r: Vec<Claim>)
    ensures
        lists(encoding::views(r@), held_claims(encoding::views(ops@))),
{
    let mut held: Vec<Claim> = Vec::new();
    let ghost all = encoding::views(ops@);
    let mut i: usize = ops.len();
    proof {
        assert(encoding::views(held@) =~= seq![]);
        assert(all.skip(i as int) =~= seq![]);
    }
    while i > 0
        invariant
            i <= ops@.len(),
            all == encoding::views(ops@),
            lists(encoding::views(held@), held_claims(all.skip(i as int))),
        decreases i,
    {
        let ghost map = held_claims(all.skip(i as int));
        i -= 1;
        proof {
            assert(all.skip(i as int).skip(1) =~= all.skip(i + 1));
            assert(all.skip(i as int)[0] == ops@[i as int].model());
        }
        match parse_op(&ops[i]) {
            Some(ClaimOp::Claim(claim)) => {
                assert_claim(&mut held, claim, Ghost(map));
            },
            Some(ClaimOp::Release { path, holder }) => {
                retract_claim(&mut held, path.as_str(), holder.as_str(), Ghost(map));
            },
            None => {},
        }
    }
    assert(all.skip(0) =~= all);
    held
}

// ── conflicts ────────────────────────────────────────────────────────────────

/// Whether two normalised repo paths overlap: equal, one an ancestor directory
/// of the other, or either the whole repository.
pub open spec fn overlap(a: Seq<char>, b: Seq<char>) -> bool {
    ||| a.len() == 0
    ||| b.len() == 0
    ||| a == b
    ||| text::begins_with(a, b.push('/'))
    ||| text::begins_with(b, a.push('/'))
}

/// Whether a claim stands in the way of a claim on `path` by `holder`.
pub open spec fn in_conflict(path: Seq<char>, holder: Seq<char>) -> spec_fn(ClaimV) -> bool {
    |c: ClaimV| c.holder != text::trimmed(holder) && overlap(c.path, ignore::normal_path(path))
}

/// Overlap is mutual.
pub proof fn lemma_overlap_is_mutual(a: Seq<char>, b: Seq<char>)
    ensures
        overlap(a, b) == overlap(b, a),
{
}

/// No holder is in conflict with its own claims.
pub proof fn lemma_no_conflict_with_oneself(path: Seq<char>, holder: Seq<char>, c: ClaimV)
    requires
        c.holder == text::trimmed(holder),
    ensures
        !in_conflict(path, holder)(c),
{
}

/// Returns the held claims that **overlap** `path` but are held by a
/// *different* holder: the conflicts a would-be claimant should be warned
/// about.
///
/// `path` is normalised before comparison. Two paths overlap when they are
/// equal or one is a directory ancestor of the other. The whole-repo selector
/// (empty path) overlaps everything.
#[must_use]
pub fn conflicts<'a>(existing: &'a [Claim], path: &str, holder: &str) -> (r: Vec<&'a Claim>)
    ensures
        r@.map_values(|c: &Claim| c@) == encoding::views(existing@).filter(in_conflict(path@, holder@)),
{
    let path_ = normalize_repo_path(path);
    let holder_ = trim(holder);
    let mut out: Vec<&'a Claim> = Vec::new();
    let ghost all = encoding::views(existing@);
    let ghost wanted = in_conflict(path@, holder@);
    let ghost seen = |c: &Claim| c@;
    let mut i: usize = 0;
    proof {
        reveal(Seq::filter);
        assert(all.take(0) =~= seq![]);
        assert(out@.map_values(seen) =~= seq![]);
    }
    while i < existing.len()
        invariant
            i <= existing@.len(),
            all == encoding::views(existing@),
            path_@ == ignore::normal_path(path@),
            holder_@ == text::trimmed(holder@),
            wanted == in_conflict(path@, holder@),
            seen == (|c: &Claim| c@),
            out@.map_values(seen) == all.take(i as int).filter(wanted),
        decreases existing.len() - i,
    {
        let claim = &existing[i];
        proof {
            reveal(Seq::filter);
            assert(all.take(i + 1).drop_last() =~= all.take(i as int));
            assert(all.take(i + 1).last() == claim@);
        }
        if !same_text(claim.holder.as_str(), holder_.as_str()) && paths_overlap(
            claim.path.as_str(),
            path_.as_str(),
        ) {
            let ghost was = out@;
            out.push(claim);
            assert(out@.map_values(seen) =~= was.map_values(seen).push(claim@));
        }
        i += 1;
    }
    assert(all.take(i as int) =~= all);
    out
}

/// Returns `true` if two normalised repo paths overlap.
fn paths_overlap(a: &str, b: &str) -> (r: bool)
    ensures
        r == overlap(a@, b@),
{
    if a.is_empty() || b.is_empty() || same_text(a, b) {
        return true;
    }
    let mut below_a = a.to_owned();
    below_a.push('/');
    let mut below_b = b.to_owned();
    below_b.push('/');
    text_begins_with(a, below_b.as_str()) || text_begins_with(b, below_a.as_str())
}

// ── what claims come to ──────────────────────────────────────────────────────

/// Whether `path` lies below the directory `dir`.
pub open spec fn lies_below(path: Seq<char>, dir: Seq<char>) -> bool {
    exists|rest: Seq<char>| path == #[trigger] (dir.push('/') + rest)
}

/// Two paths overlap exactly where they are equal, one is an ancestor directory of
/// the other, or one is the whole repository.
pub proof fn law_overlap(a: Seq<char>, b: Seq<char>)
    ensures
        overlap(a, b) <==> a.len() == 0 || b.len() == 0 || a == b || lies_below(a, b)
            || lies_below(b, a),
{
    text::law_begins_with(a, b.push('/'));
    text::law_begins_with(b, a.push('/'));
}

/// What stands behind a path stays behind it when the slashes at its end go.
proof fn lemma_end_slashes(dir: Seq<char>, rest: Seq<char>)
    requires
        dir.len() > 0,
        dir[0] != '/',
        dir.last() != '/',
    ensures
        ignore::without_slashes(dir.push('/') + rest) == dir || lies_below(
            ignore::without_slashes(dir.push('/') + rest),
            dir,
        ),
    decreases rest.len(),
{
    let path = dir.push('/') + rest;
    assert(path[0] == dir[0]);
    if rest.len() == 0 {
        assert(path.drop_last() =~= dir);
        assert(ignore::without_slashes(dir) == dir);
    } else if rest.last() == '/' {
        assert(path.last() == '/');
        assert(path.drop_last() =~= dir.push('/') + rest.drop_last());
        lemma_end_slashes(dir, rest.drop_last());
    } else {
        assert(path.last() == rest.last());
        assert(ignore::without_slashes(path) == path);
        assert(path == dir.push('/') + rest);
    }
}

/// Whether a text is a path as claims record it: forward slashes only, and none at
/// its ends.
pub open spec fn is_normal(path: Seq<char>) -> bool {
    &&& !path.contains('\\')
    &&& path.len() > 0 ==> path[0] != '/' && path.last() != '/'
}

/// Claims on a directory and on anything below it, by different holders, are in
/// conflict, whichever is there first.
pub proof fn law_ancestors_conflict(
    dir: Seq<char>,
    rest: Seq<char>,
    c: ClaimV,
    holder: Seq<char>,
)
    requires
        dir.len() > 0,
        is_normal(dir),
        c.holder != text::trimmed(holder),
    ensures
        c.path == dir ==> in_conflict(dir.push('/') + rest, holder)(c),
        c.path == dir.push('/') + rest ==> in_conflict(dir, holder)(c),
        c.path == dir ==> in_conflict(dir, holder)(c),
{
    ignore::law_normal_paths_stay(dir);
    let path = dir.push('/') + rest;
    let turn = |c: char| if c == '\\' { '/' } else { c };
    let turned = path.map_values(turn);
    assert(turned =~= dir.push('/') + rest.map_values(turn)) by {
        assert forall|k: int| 0 <= k < dir.len() implies turned[k] == dir[k] by {
            assert(dir.contains(dir[k]));
        }
    }
    lemma_end_slashes(dir, rest.map_values(turn));
    law_overlap(dir, ignore::normal_path(path));
    law_overlap(path, dir);
    law_overlap(dir, dir);
}

/// Claims on paths of which neither is equal to the other nor below it are not in
/// conflict, and nobody is in conflict with their own claims.
pub proof fn law_apart_no_conflict(path: Seq<char>, c: ClaimV, holder: Seq<char>)
    requires
        is_normal(path),
        path.len() > 0,
        c.path.len() > 0,
        c.holder == text::trimmed(holder) || (c.path != path && !lies_below(c.path, path)
            && !lies_below(path, c.path)),
    ensures
        !in_conflict(path, holder)(c),
{
    ignore::law_normal_paths_stay(path);
    law_overlap(c.path, path);
}

/// The whole repository is in conflict with every claim of another holder.
pub proof fn law_whole_repository_conflicts(path: Seq<char>, c: ClaimV, holder: Seq<char>)
    requires
        c.holder != text::trimmed(holder),
    ensures
        c.path.len() == 0 ==> in_conflict(path, holder)(c),
        in_conflict(seq![], holder)(c),
{
    let none: Seq<char> = seq![];
    assert(!none.contains('\\'));
    ignore::law_normal_paths_stay(none);
}

/// The newest op decides: one with the command `tack claim <path> <holder> <note>`
/// leaves that claim held, with its note and the time the op began, and every other
/// claim as it was.
pub proof fn law_claim_command(ops: Seq<OpV>, op: OpV, path: Seq<char>, holder: Seq<char>, note: Seq<char>)
    requires
        op.metadata.command == seq!["tack"@, "claim"@, path, holder, note],
    ensures
        ({
            let held = held_claims(seq![op] + ops);
            let was = held_claims(ops);
            &&& held.contains_key((path, holder))
            &&& held[(path, holder)] == (ClaimV {
                path,
                holder,
                note,
                timestamp: op.metadata.start.unix_secs,
            })
            &&& forall|key: ClaimKey|
                key != (path, holder) ==> (#[trigger] held.contains_key(key) <==> was.contains_key(
                    key,
                )) && (held.contains_key(key) ==> held[key] == was[key])
        }),
{
    assert((seq![op] + ops).skip(1) =~= ops);
}

/// An op with the command `tack release <path> <holder>` leaves that claim not held,
/// and every other claim as it was.
pub proof fn law_release_command(ops: Seq<OpV>, op: OpV, path: Seq<char>, holder: Seq<char>)
    requires
        op.metadata.command == seq!["tack"@, "release"@, path, holder],
    ensures
        ({
            let held = held_claims(seq![op] + ops);
            let was = held_claims(ops);
            &&& !held.contains_key((path, holder))
            &&& forall|key: ClaimKey|
                key != (path, holder) ==> (#[trigger] held.contains_key(key) <==> was.contains_key(
                    key,
                )) && (held.contains_key(key) ==> held[key] == was[key])
        }),
{
    assert((seq![op] + ops).skip(1) =~= ops);
}

/// An op with any other command changes no claim, whatever else it does: no restore
/// and no undo drops one. Without ops nothing is held.
pub proof fn law_other_commands(ops: Seq<OpV>, op: OpV)
    requires
        ({
            let command = op.metadata.command;
            ||| command.len() < 4
            ||| command.len() > 5
            ||| command[0] != "tack"@
            ||| command.len() == 5 && command[1] != "claim"@
            ||| command.len() == 4 && command[1] != "release"@
        }),
    ensures
        held_claims(seq![op] + ops) == held_claims(ops),
        held_claims(seq![]) == Map::<ClaimKey, ClaimV>::empty(),
{
    assert((seq![op] + ops).skip(1) =~= ops);
}

/// The command that is recorded for a claim or a release names the verb, the
/// normalized path and the trimmed holder, and for a claim the note as it is.
pub proof fn law_recorded_commands(path: Seq<char>, holder: Seq<char>, note: Seq<char>)
    ensures
        claim_words(path, holder, note) == seq![
            "tack"@,
            "claim"@,
            ignore::normal_path(path),
            text::trimmed(holder),
            note,
        ],
        release_words(path, holder) == seq![
            "tack"@,
            "release"@,
            ignore::normal_path(path),
            text::trimmed(holder),
        ],
{
}

/// Claims are listed by path, and those of one path by holder, as bytes compare.
pub proof fn law_listing_order(list: Seq<ClaimV>, map: Map<ClaimKey, ClaimV>, i: int, j: int)
    requires
        lists(list, map),
        0 <= i < j < list.len(),
    ensures
        order::lex_lt(order::text_rank(list[i].path), order::text_rank(list[j].path)) || (
        list[i].path == list[j].path && order::lex_lt(
            order::text_rank(list[i].holder),
            order::text_rank(list[j].holder),
        )),
{
    let a = key_of(list[i]);
    let b = key_of(list[j]);
    assert(order::lex_lt(claim_rank(a), claim_rank(b)));
    lemma_pair_order(
        encode_utf8(a.0),
        encode_utf8(b.0),
        encode_utf8(a.1),
        encode_utf8(b.1),
    );
    if encode_utf8(a.0) == encode_utf8(b.0) {
        text::lemma_utf8_injective(a.0, b.0);
    }
}

/// A listing holds exactly the claims that are held: each key of the map once, with
/// its claim.
pub proof fn law_listing_is_complete(list: Seq<ClaimV>, map: Map<ClaimKey, ClaimV>, key: ClaimKey)
    requires
        lists(list, map),
    ensures
        map.contains_key(key) <==> exists|i: int|
            0 <= i < list.len() && (#[trigger] list[i]).path == key.0 && list[i].holder == key.1,
        forall|i: int|
            0 <= i < list.len() && (#[trigger] list[i]).path == key.0 && list[i].holder == key.1
                ==> map.contains_key(key) && list[i] == map[key],
{
    assert forall|i: int|
        0 <= i < list.len() && (#[trigger] list[i]).path == key.0 && list[i].holder
            == key.1 implies map.contains_key(key) && list[i] == map[key] by {
        assert(key_of(list[i]) == key);
    }
    if map.contains_key(key) {
        assert(list.contains(map[key]));
        let i = choose|i: int| 0 <= i < list.len() && list[i] == map[key];
        assert(list[i].path == key.0 && list[i].holder == key.1);
    }
}

} // verus!
