//! Lexicographic order and stable sorting.
//!
//! Every sorted list of the crate is ordered by a *rank*: a sequence of
//! integers that is compared lexicographically. Sorting is stable, which
//! together with the order pins the result down.
use vstd::prelude::*;
use vstd::string::*;
use vstd::utf8::*;

use crate::encoding;
use crate::text;
verus! {

/// Lexicographic order: at the first index where the two differ the smaller
/// integer decides, and a proper prefix comes first.
pub open spec fn lex_lt(a: Seq<int>, b: Seq<int>) -> bool
    decreases a.len(),
{
    if b.len() == 0 {
        false
    } else if a.len() == 0 {
        true
    } else if a[0] != b[0] {
        a[0] < b[0]
    } else {
        lex_lt(a.skip(1), b.skip(1))
    }
}

/// The bytes as integers.
pub open spec fn ints(bytes: Seq<u8>) -> Seq<int> {
    bytes.map_values(|b: u8| b as int)
}

/// The rank of a text that is ordered by its UTF-8 bytes.
pub open spec fn text_rank(s: Seq<char>) -> Seq<int> {
    ints(encode_utf8(s))
}

/// Bytes with the same integers are the same.
pub proof fn lemma_ints_injective(a: Seq<u8>, b: Seq<u8>)
    requires
        ints(a) == ints(b),
    ensures
        a == b,
{
    assert(a.len() == ints(a).len());
    assert(b.len() == ints(b).len());
    assert forall|i: int| 0 <= i < a.len() implies a[i] == b[i] by {
        assert(ints(a)[i] == a[i] as int);
        assert(ints(b)[i] == b[i] as int);
    }
    assert(a =~= b);
}

/// Texts of one rank are the same.
pub proof fn lemma_text_rank_injective(a: Seq<char>, b: Seq<char>)
    requires
        text_rank(a) == text_rank(b),
    ensures
        a == b,
{
    lemma_ints_injective(encode_utf8(a), encode_utf8(b));
    text::lemma_utf8_injective(a, b);
}

/// No sequence comes before itself.
pub proof fn lemma_lex_irreflexive(a: Seq<int>)
    ensures
        !lex_lt(a, a),
    decreases a.len(),
{
    if a.len() > 0 {
        lemma_lex_irreflexive(a.skip(1));
    }
}

/// The order is transitive.
pub proof fn lemma_lex_transitive(a: Seq<int>, b: Seq<int>, c: Seq<int>)
    requires
        lex_lt(a, b),
        lex_lt(b, c),
    ensures
        lex_lt(a, c),
    decreases a.len(),
{
    if a.len() > 0 && b.len() > 0 && c.len() > 0 && a[0] == b[0] && b[0] == c[0] {
        lemma_lex_transitive(a.skip(1), b.skip(1), c.skip(1));
    }
}

/// Of two different sequences one comes before the other.
pub proof fn lemma_lex_total(a: Seq<int>, b: Seq<int>)
    ensures
        a == b || lex_lt(a, b) || lex_lt(b, a),
    decreases a.len(),
{
    if a.len() > 0 && b.len() > 0 && a[0] == b[0] {
        lemma_lex_total(a.skip(1), b.skip(1));
        if a.skip(1) == b.skip(1) {
            assert(a =~= seq![a[0]] + a.skip(1));
            assert(b =~= seq![b[0]] + b.skip(1));
        }
    } else if a.len() == 0 && b.len() == 0 {
        assert(a =~= b);
    }
}

/// If `b` does not come before `a`, and `c` not before `b`, then `c` does not
/// come before `a`.
pub proof fn lemma_lex_not_after(a: Seq<int>, b: Seq<int>, c: Seq<int>)
    requires
        !lex_lt(b, a),
        !lex_lt(c, b),
    ensures
        !lex_lt(c, a),
{
    if lex_lt(c, a) {
        lemma_lex_total(a, b);
        if a == b {
        } else {
            lemma_lex_transitive(c, a, b);
        }
    }
}

/// Two sequences that agree up to `i`: their order is that of the rests.
pub proof fn lemma_lex_common_prefix(a: Seq<int>, b: Seq<int>, i: int)
    requires
        0 <= i <= a.len(),
        i <= b.len(),
        forall|k: int| 0 <= k < i ==> a[k] == b[k],
    ensures
        lex_lt(a, b) == lex_lt(a.skip(i), b.skip(i)),
    decreases i,
{
    if i == 0 {
        assert(a.skip(0) =~= a);
        assert(b.skip(0) =~= b);
    } else {
        assert forall|k: int| 0 <= k < i - 1 implies a.skip(1)[k] == b.skip(1)[k] by {
            assert(a[k + 1] == b[k + 1]);
        }
        lemma_lex_common_prefix(a.skip(1), b.skip(1), i - 1);
        assert(a.skip(1).skip(i - 1) =~= a.skip(i));
        assert(b.skip(1).skip(i - 1) =~= b.skip(i));
    }
}

/// Whether the bytes `a` come before the bytes `b`.
pub fn bytes_before(a: &[u8], b: &[u8]) -> (r: bool)
    ensures
        r == lex_lt(ints(a@), ints(b@)),
{
    let mut i: usize = 0;
    while i < a.len() && i < b.len() && a[i] == b[i]
        invariant
            i <= a@.len(),
            i <= b@.len(),
            forall|k: int| 0 <= k < i ==> a@[k] == b@[k],
        decreases a.len() - i,
    {
        i += 1;
    }
    proof {
        lemma_lex_common_prefix(ints(a@), ints(b@), i as int);
    }
    if i == b.len() {
        false
    } else if i == a.len() {
        true
    } else {
        a[i] < b[i]
    }
}

/// Whether the text `a` comes before the text `b`, byte by byte.
pub fn text_before(a: &str, b: &str) -> (r: bool)
    ensures
        r == lex_lt(text_rank(a@), text_rank(b@)),
{
    bytes_before(a.as_bytes(), b.as_bytes())
}

/// Values that are ordered by a rank.
pub trait Ranked {
    /// The rank by which the value is ordered.
    spec fn rank(&self) -> Seq<int>;

    /// Whether the value comes strictly before `other`.
    fn precedes(&self, other: &Self) -> (r: bool)
        ensures
            r == lex_lt(self.rank(), other.rank()),
    ;
}

/// Whether no element comes before an earlier one.
pub open spec fn sorted<V>(s: Seq<V>, rank: spec_fn(V) -> Seq<int>) -> bool {
    forall|i: int, j: int| 0 <= i < j < s.len() ==> !lex_lt(rank(s[j]), rank(s[i]))
}

/// `s` with `x` placed behind the last element that it does not precede.
pub open spec fn inserted<V>(s: Seq<V>, x: V, rank: spec_fn(V) -> Seq<int>) -> Seq<V>
    decreases s.len(),
{
    if s.len() > 0 && lex_lt(rank(x), rank(s.last())) {
        inserted(s.drop_last(), x, rank).push(s.last())
    } else {
        s.push(x)
    }
}

/// The stable sort of `s`: each element in turn is inserted among those before
/// it.
pub open spec fn sort_by<V>(s: Seq<V>, rank: spec_fn(V) -> Seq<int>) -> Seq<V>
    decreases s.len(),
{
    if s.len() == 0 {
        s
    } else {
        inserted(sort_by(s.drop_last(), rank), s.last(), rank)
    }
}

/// Inserting adds one element.
pub proof fn lemma_inserted_len<V>(s: Seq<V>, x: V, rank: spec_fn(V) -> Seq<int>)
    ensures
        inserted(s, x, rank).len() == s.len() + 1,
    decreases s.len(),
{
    if s.len() > 0 && lex_lt(rank(x), rank(s.last())) {
        lemma_inserted_len(s.drop_last(), x, rank);
    }
}

/// Where `x` goes: at `p`, if it precedes all from `p` on and not the one
/// before.
proof fn lemma_inserted_at<V>(s: Seq<V>, x: V, p: int, rank: spec_fn(V) -> Seq<int>)
    requires
        0 <= p <= s.len(),
        p > 0 ==> !lex_lt(rank(x), rank(s[p - 1])),
        forall|k: int| p <= k < s.len() ==> lex_lt(rank(x), rank(#[trigger] s[k])),
    ensures
        inserted(s, x, rank) == s.insert(p, x),
    decreases s.len(),
{
    if p < s.len() {
        assert(lex_lt(rank(x), rank(s[s.len() - 1])));
        lemma_inserted_at(s.drop_last(), x, p, rank);
        assert(inserted(s, x, rank) =~= s.insert(p, x));
    } else {
        assert(s.push(x) =~= s.insert(p, x));
    }
}

/// The elements of `inserted(s, x, rank)` are those of `s` and `x`.
proof fn lemma_inserted_elements<V>(s: Seq<V>, x: V, rank: spec_fn(V) -> Seq<int>)
    ensures
        forall|i: int|
            0 <= i < inserted(s, x, rank).len() ==> (s.contains(#[trigger] inserted(s, x, rank)[i])
                || inserted(s, x, rank)[i] == x),
    decreases s.len(),
{
    lemma_inserted_len(s, x, rank);
    if s.len() > 0 && lex_lt(rank(x), rank(s.last())) {
        lemma_inserted_elements(s.drop_last(), x, rank);
        lemma_inserted_len(s.drop_last(), x, rank);
        let r = inserted(s, x, rank);
        assert forall|i: int| 0 <= i < r.len() implies (s.contains(#[trigger] r[i]) || r[i]
            == x) by {
            if i < r.len() - 1 {
                let d = inserted(s.drop_last(), x, rank);
                assert(r[i] == d[i]);
                if s.drop_last().contains(d[i]) {
                    let k = choose|k: int|
                        0 <= k < s.drop_last().len() && s.drop_last()[k] == d[i];
                    assert(s[k] == d[i]);
                }
            } else {
                assert(r[i] == s[s.len() - 1]);
            }
        }
    } else {
        let r = s.push(x);
        assert forall|i: int| 0 <= i < r.len() implies (s.contains(#[trigger] r[i]) || r[i]
            == x) by {
            if i < s.len() {
                assert(s[i] == r[i]);
            }
        }
    }
}

/// Inserting into a sorted sequence leaves it sorted.
proof fn lemma_inserted_sorted<V>(s: Seq<V>, x: V, rank: spec_fn(V) -> Seq<int>)
    requires
        sorted(s, rank),
    ensures
        sorted(inserted(s, x, rank), rank),
    decreases s.len(),
{
    lemma_inserted_len(s, x, rank);
    let r = inserted(s, x, rank);
    if s.len() > 0 && lex_lt(rank(x), rank(s.last())) {
        let d = s.drop_last();
        lemma_inserted_sorted(d, x, rank);
        lemma_inserted_elements(d, x, rank);
        lemma_inserted_len(d, x, rank);
        assert forall|i: int, j: int| 0 <= i < j < r.len() implies !lex_lt(
            rank(r[j]),
            rank(r[i]),
        ) by {
            if j < r.len() - 1 {
                assert(r[j] == inserted(d, x, rank)[j]);
                assert(r[i] == inserted(d, x, rank)[i]);
            } else {
                assert(r[j] == s.last());
                assert(r[i] == inserted(d, x, rank)[i]);
                if d.contains(r[i]) {
                    let k = choose|k: int| 0 <= k < d.len() && d[k] == r[i];
                    assert(s[k] == r[i]);
                } else if lex_lt(rank(s.last()), rank(x)) {
                    lemma_lex_transitive(rank(x), rank(s.last()), rank(x));
                    lemma_lex_irreflexive(rank(x));
                }
            }
        }
    } else {
        assert forall|i: int, j: int| 0 <= i < j < r.len() implies !lex_lt(
            rank(r[j]),
            rank(r[i]),
        ) by {
            if j == s.len() && i < s.len() - 1 {
                assert(!lex_lt(rank(s.last()), rank(s[i])));
                lemma_lex_not_after(rank(s[i]), rank(s.last()), rank(x));
            }
        }
    }
}

/// A stable sort is sorted.
pub proof fn lemma_sort_sorted<V>(s: Seq<V>, rank: spec_fn(V) -> Seq<int>)
    ensures
        sorted(sort_by(s, rank), rank),
        sort_by(s, rank).len() == s.len(),
    decreases s.len(),
{
    if s.len() > 0 {
        lemma_sort_sorted(s.drop_last(), rank);
        lemma_inserted_sorted(sort_by(s.drop_last(), rank), s.last(), rank);
        lemma_inserted_len(sort_by(s.drop_last(), rank), s.last(), rank);
    }
}

/// Inserting adds exactly `x` to the elements.
proof fn lemma_inserted_multiset<V>(s: Seq<V>, x: V, rank: spec_fn(V) -> Seq<int>)
    ensures
        inserted(s, x, rank).to_multiset() == s.to_multiset().insert(x),
    decreases s.len(),
{
    broadcast use vstd::seq_lib::group_to_multiset_ensures;

    if s.len() > 0 && lex_lt(rank(x), rank(s.last())) {
        let d = s.drop_last();
        lemma_inserted_multiset(d, x, rank);
        assert(s =~= d.push(s.last()));
        assert(s.to_multiset() == d.to_multiset().insert(s.last()));
        assert(inserted(s, x, rank).to_multiset() =~= s.to_multiset().insert(x));
    }
}

/// A stable sort holds the same elements, each as often.
pub proof fn lemma_sort_permutes<V>(s: Seq<V>, rank: spec_fn(V) -> Seq<int>)
    ensures
        sort_by(s, rank).to_multiset() == s.to_multiset(),
    decreases s.len(),
{
    broadcast use vstd::seq_lib::group_to_multiset_ensures;

    if s.len() > 0 {
        lemma_sort_permutes(s.drop_last(), rank);
        lemma_inserted_multiset(sort_by(s.drop_last(), rank), s.last(), rank);
        assert(s =~= s.drop_last().push(s.last()));
    }
}

/// Whether the rank of an element is `value`.
pub open spec fn has_rank<V>(rank: spec_fn(V) -> Seq<int>, value: Seq<int>) -> spec_fn(V) -> bool {
    |x: V| rank(x) == value
}

proof fn lemma_inserted_filter<V>(s: Seq<V>, x: V, value: Seq<int>, rank: spec_fn(V) -> Seq<int>)
    ensures
        inserted(s, x, rank).filter(has_rank(rank, value)) == (if rank(x) == value {
            s.filter(has_rank(rank, value)).push(x)
        } else {
            s.filter(has_rank(rank, value))
        }),
    decreases s.len(),
{
    reveal(Seq::filter);
    let r = inserted(s, x, rank);
    if s.len() > 0 && lex_lt(rank(x), rank(s.last())) {
        let d = s.drop_last();
        lemma_inserted_filter(d, x, value, rank);
        lemma_inserted_len(d, x, rank);
        assert(r.drop_last() =~= inserted(d, x, rank));
        assert(r.last() == s.last());
        lemma_lex_irreflexive(rank(x));
    } else {
        assert(r.drop_last() =~= s);
        assert(r.last() == x);
    }
}

/// A stable sort keeps elements of equal rank in their order.
pub proof fn lemma_sort_stable<V>(s: Seq<V>, value: Seq<int>, rank: spec_fn(V) -> Seq<int>)
    ensures
        sort_by(s, rank).filter(has_rank(rank, value)) == s.filter(has_rank(rank, value)),
    decreases s.len(),
{
    reveal(Seq::filter);
    if s.len() > 0 {
        lemma_sort_stable(s.drop_last(), value, rank);
        lemma_inserted_filter(sort_by(s.drop_last(), rank), s.last(), value, rank);
    }
}

/// Whether elements of equal rank are equal.
pub open spec fn rank_tells<V>(s: Seq<V>, rank: spec_fn(V) -> Seq<int>) -> bool {
    forall|i: int, j: int|
        0 <= i < s.len() && 0 <= j < s.len() && rank(#[trigger] s[i]) == rank(#[trigger] s[j])
            ==> s[i] == s[j]
}

/// Two sorted sequences with the same elements, in which equal rank means equal,
/// are the same.
proof fn lemma_sorted_unique<V>(a: Seq<V>, b: Seq<V>, rank: spec_fn(V) -> Seq<int>)
    requires
        sorted(a, rank),
        sorted(b, rank),
        a.to_multiset() == b.to_multiset(),
        rank_tells(a, rank),
    ensures
        a == b,
    decreases a.len(),
{
    broadcast use vstd::seq_lib::group_to_multiset_ensures;

    assert(a.len() == a.to_multiset().len());
    assert(b.len() == b.to_multiset().len());
    if a.len() > 0 {
        let x = a.last();
        let y = b.last();
        assert(a.contains(a[a.len() - 1]));
        assert(b.contains(b[b.len() - 1]));
        assert(b.to_multiset().count(x) > 0);
        assert(a.to_multiset().count(y) > 0);
        let i = choose|i: int| 0 <= i < a.len() && a[i] == y;
        let j = choose|j: int| 0 <= j < b.len() && b[j] == x;
        if i < a.len() - 1 {
            assert(!lex_lt(rank(a[a.len() - 1]), rank(a[i])));
        }
        if j < b.len() - 1 {
            assert(!lex_lt(rank(b[b.len() - 1]), rank(b[j])));
        }
        lemma_lex_irreflexive(rank(x));
        lemma_lex_total(rank(x), rank(y));
        assert(a[i] == a[a.len() - 1]);
        let c = a.drop_last();
        let d = b.drop_last();
        assert(a =~= c.push(x));
        assert(b =~= d.push(x));
        assert(c.to_multiset() =~= a.to_multiset().remove(x));
        assert(d.to_multiset() =~= b.to_multiset().remove(x));
        lemma_sorted_unique(c, d, rank);
    } else {
        assert(a =~= b);
    }
}

/// The order in which elements are given does not matter: sequences with the same
/// elements, in which equal rank means equal, sort to the same.
pub proof fn lemma_sort_ignores_order<V>(a: Seq<V>, b: Seq<V>, rank: spec_fn(V) -> Seq<int>)
    requires
        a.to_multiset() == b.to_multiset(),
        rank_tells(a, rank),
    ensures
        sort_by(a, rank) == sort_by(b, rank),
{
    broadcast use vstd::seq_lib::group_to_multiset_ensures;

    let c = sort_by(a, rank);
    lemma_sort_sorted(a, rank);
    lemma_sort_sorted(b, rank);
    lemma_sort_permutes(a, rank);
    lemma_sort_permutes(b, rank);
    assert forall|i: int, j: int|
        0 <= i < c.len() && 0 <= j < c.len() && rank(#[trigger] c[i]) == rank(#[trigger] c[j])
        implies c[i] == c[j] by {
        assert(c.contains(c[i]));
        assert(c.contains(c[j]));
        assert(a.to_multiset().count(c[i]) > 0);
        assert(a.to_multiset().count(c[j]) > 0);
        let k = choose|k: int| 0 <= k < a.len() && a[k] == c[i];
        let l = choose|l: int| 0 <= l < a.len() && a[l] == c[j];
        assert(rank(a[k]) == rank(a[l]));
    }
    lemma_sorted_unique(c, sort_by(b, rank), rank);
}

/// The rank of a value.
pub open spec fn rank_of<T: Ranked>() -> spec_fn(T) -> Seq<int> {
    |x: T| x.rank()
}

/// The stable sort of `s` by rank.
pub open spec fn stable_sort<T: Ranked>(s: Seq<T>) -> Seq<T> {
    sort_by(s, rank_of::<T>())
}

proof fn lemma_inserted_views<T: Ranked + View>(
    s: Seq<T>,
    x: T,
    rank: spec_fn(<T as View>::V) -> Seq<int>,
)
    requires
        forall|y: T| #[trigger] y.rank() == rank(y@),
    ensures
        encoding::views(inserted(s, x, rank_of::<T>())) == inserted(encoding::views(s), x@, rank),
    decreases s.len(),
{
    let r = inserted(s, x, rank_of::<T>());
    assert(x.rank() == rank(x@));
    if s.len() > 0 {
        assert(s.last().rank() == rank(s.last()@));
        assert(encoding::views(s).last() == s.last()@);
        lemma_inserted_views(s.drop_last(), x, rank);
        assert(encoding::views(s).drop_last() =~= encoding::views(s.drop_last()));
    }
    assert(encoding::views(r) =~= inserted(encoding::views(s), x@, rank));
}

/// Sorting values sorts what they stand for, where the rank depends on that
/// alone.
pub proof fn lemma_sort_views<T: Ranked + View>(
    s: Seq<T>,
    rank: spec_fn(<T as View>::V) -> Seq<int>,
)
    requires
        forall|y: T| #[trigger] y.rank() == rank(y@),
    ensures
        encoding::views(stable_sort(s)) == sort_by(encoding::views(s), rank),
    decreases s.len(),
{
    if s.len() > 0 {
        lemma_sort_views(s.drop_last(), rank);
        lemma_inserted_views(stable_sort(s.drop_last()), s.last(), rank);
        assert(encoding::views(s).drop_last() =~= encoding::views(s.drop_last()));
        assert(encoding::views(s).last() == s.last()@);
    } else {
        assert(encoding::views(stable_sort(s)) =~= sort_by(encoding::views(s), rank));
    }
}

/// Sorts `v`, keeping elements of equal rank in their order.
pub fn sort_stable<T: Ranked>(v: &mut Vec<T>)
    ensures
        final(v)@ == stable_sort(old(v)@),
{
    let mut i: usize = 0;
    while i < v.len()
        invariant
            i <= v@.len(),
            v@.len() == old(v)@.len(),
            v@ =~= stable_sort(old(v)@.take(i as int)) + old(v)@.skip(i as int),
            stable_sort(old(v)@.take(i as int)).len() == i,
            sorted(stable_sort(old(v)@.take(i as int)), rank_of::<T>()),
        decreases v.len() - i,
    {
        let ghost all = old(v)@;
        let ghost head = stable_sort(all.take(i as int));
        let ghost before = v@;
        let mut p: usize = i;
        while p > 0 && v[i].precedes(&v[p - 1])
            invariant
                p <= i < v@.len(),
                v@ == before,
                head.len() == i,
                forall|k: int| 0 <= k < i ==> v@[k] == head[k],
                forall|k: int|
                    p <= k < i ==> lex_lt(v@[i as int].rank(), (#[trigger] head[k]).rank()),
            decreases p,
        {
            p -= 1;
        }
        let x = v.remove(i);
        v.insert(p, x);
        proof {
            let y = all[i as int];
            assert(before[i as int] == y);
            assert(all.take(i + 1).drop_last() =~= all.take(i as int));
            assert(all.take(i + 1).last() == y);
            lemma_inserted_at(head, y, p as int, rank_of::<T>());
            lemma_inserted_sorted(head, y, rank_of::<T>());
            lemma_inserted_len(head, y, rank_of::<T>());
            assert(v@ =~= head.insert(p as int, y) + all.skip(i + 1));
        }
        i += 1;
    }
    assert(old(v)@.take(i as int) =~= old(v)@);
    assert(v@ =~= stable_sort(old(v)@));
}

/// Whether `a` comes before `b` at their first difference, or is a beginning of it.
pub open spec fn comes_first(a: Seq<int>, b: Seq<int>) -> bool {
    exists|k: int|
        {
            &&& 0 <= k <= a.len()
            &&& k < b.len()
            &&& a.take(k) == #[trigger] b.take(k)
            &&& k == a.len() || a[k] < b[k]
        }
}

/// The order compares at the first difference; a beginning comes before the whole.
pub proof fn law_lex(a: Seq<int>, b: Seq<int>)
    ensures
        lex_lt(a, b) <==> comes_first(a, b),
    decreases a.len(),
{
    if a.len() > 0 && b.len() > 0 {
        let x = a.skip(1);
        let y = b.skip(1);
        law_lex(x, y);
        if comes_first(x, y) && a[0] == b[0] {
            let k = choose|k: int|
                {
                    &&& 0 <= k <= x.len()
                    &&& k < y.len()
                    &&& x.take(k) == #[trigger] y.take(k)
                    &&& k == x.len() || x[k] < y[k]
                };
            assert(a.take(k + 1) =~= seq![a[0]] + x.take(k));
            assert(b.take(k + 1) =~= seq![b[0]] + y.take(k));
        }
        if a[0] < b[0] {
            assert(a.take(0) =~= b.take(0));
        }
        if comes_first(a, b) {
            let k = choose|k: int|
                {
                    &&& 0 <= k <= a.len()
                    &&& k < b.len()
                    &&& a.take(k) == #[trigger] b.take(k)
                    &&& k == a.len() || a[k] < b[k]
                };
            if k > 0 {
                assert(a.take(k)[0] == b.take(k)[0]);
                assert(x.take(k - 1) =~= a.take(k).skip(1));
                assert(y.take(k - 1) =~= b.take(k).skip(1));
                assert(x.take(k - 1) == y.take(k - 1));
                assert(k == a.len() || x[k - 1] < y[k - 1]);
                assert(comes_first(x, y));
            }
        }
    } else if a.len() == 0 && b.len() > 0 {
        assert(a.take(0) =~= b.take(0));
        assert(comes_first(a, b));
    } else if comes_first(a, b) {
        let k = choose|k: int|
            {
                &&& 0 <= k <= a.len()
                &&& k < b.len()
                &&& a.take(k) == #[trigger] b.take(k)
                &&& k == a.len() || a[k] < b[k]
            };
        assert(false);
    }
}

} // verus!
