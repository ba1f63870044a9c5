//! Ranking by a distance and, among equal distances, by an id.
//!
//! The order is fixed by a key, a pair of integers: the smaller first
//! component comes first, and among equal first components the smaller
//! second. What is ranked can be anything that has such a key.

use vstd::prelude::*;
use vstd::seq_lib::{to_multiset_build, to_multiset_insert};

verus! {

/// `a` does not come after `b`.
pub open spec fn key_le(a: (int, int), b: (int, int)) -> bool {
    a.0 < b.0 || (a.0 == b.0 && a.1 <= b.1)
}

/// No element comes after one that follows it.
pub open spec fn sorted_by<E>(s: Seq<E>, key: spec_fn(E) -> (int, int)) -> bool {
    forall|i: int, j: int| 0 <= i < j < s.len() ==> key_le(key(s[i]), key(s[j]))
}

/// Where `x` goes into `s`: behind the leading elements that do not come
/// after it.
pub open spec fn insert_index<E>(s: Seq<E>, x: E, key: spec_fn(E) -> (int, int)) -> int
    decreases s.len(),
{
    if s.len() > 0 && key_le(key(s.first()), key(x)) {
        1 + insert_index(s.drop_first(), x, key)
    } else {
        0
    }
}

/// `s` with `x` put in at its place.
pub open spec fn insert_by<E>(s: Seq<E>, x: E, key: spec_fn(E) -> (int, int)) -> Seq<E> {
    s.insert(insert_index(s, x, key), x)
}

/// The elements of `s` in the order of their keys; elements with the same
/// key stay in the order in which `s` has them.
pub open spec fn sort_by<E>(s: Seq<E>, key: spec_fn(E) -> (int, int)) -> Seq<E>
    decreases s.len(),
{
    if s.len() == 0 {
        s
    } else {
        insert_by(sort_by(s.drop_last(), key), s.last(), key)
    }
}

/// The place of `x` lies behind elements that do not come after `x` and, if
/// any element follows, before one that does.
pub proof fn lemma_insert_index<E>(s: Seq<E>, x: E, key: spec_fn(E) -> (int, int))
    ensures
        0 <= insert_index(s, x, key) <= s.len(),
        forall|i: int| 0 <= i < insert_index(s, x, key) ==> key_le(key(#[trigger] s[i]), key(x)),
        insert_index(s, x, key) < s.len() ==> !key_le(key(s[insert_index(s, x, key)]), key(x)),
    decreases s.len(),
{
    if s.len() > 0 && key_le(key(s.first()), key(x)) {
        let rest = s.drop_first();
        lemma_insert_index(rest, x, key);
        let p = insert_index(rest, x, key);
        assert forall|i: int| 0 <= i < p + 1 implies key_le(key(#[trigger] s[i]), key(x)) by {
            if i > 0 {
                assert(s[i] == rest[i - 1]);
            }
        }
        if p + 1 < s.len() {
            assert(s[p + 1] == rest[p]);
        }
    }
}

/// An index with the properties that [`lemma_insert_index`] states is the
/// place of `x`.
pub proof fn lemma_insert_index_is<E>(s: Seq<E>, x: E, key: spec_fn(E) -> (int, int), p: int)
    requires
        0 <= p <= s.len(),
        forall|i: int| 0 <= i < p ==> key_le(key(#[trigger] s[i]), key(x)),
        p < s.len() ==> !key_le(key(s[p]), key(x)),
    ensures
        insert_index(s, x, key) == p,
{
    lemma_insert_index(s, x, key);
    let q = insert_index(s, x, key);
    if p < q {
        assert(key_le(key(s[p]), key(x)));
    } else if q < p {
        assert(key_le(key(s[q]), key(x)));
    }
}

/// Putting an element in at its place keeps a sorted sequence sorted.
pub proof fn lemma_insert_sorted<E>(s: Seq<E>, x: E, key: spec_fn(E) -> (int, int))
    requires
        sorted_by(s, key),
    ensures
        sorted_by(insert_by(s, x, key), key),
{
    lemma_insert_index(s, x, key);
    let p = insert_index(s, x, key);
    let t = insert_by(s, x, key);
    assert forall|i: int, j: int| 0 <= i < j < t.len() implies key_le(key(t[i]), key(t[j])) by {
        if j < p {
            assert(t[i] == s[i] && t[j] == s[j]);
        } else if j == p {
            assert(t[i] == s[i] && t[j] == x);
        } else if i < p {
            assert(t[i] == s[i] && t[j] == s[j - 1]);
        } else if i == p {
            assert(t[i] == x && t[j] == s[j - 1]);
            assert(p <= j - 1);
            if p < j - 1 {
                assert(key_le(key(s[p]), key(s[j - 1])));
            }
        } else {
            assert(t[i] == s[i - 1] && t[j] == s[j - 1]);
        }
    }
}

/// Putting an element in adds it to what the sequence holds and changes
/// nothing else.
pub proof fn lemma_insert_holds<E>(s: Seq<E>, x: E, key: spec_fn(E) -> (int, int))
    ensures
        insert_by(s, x, key).len() == s.len() + 1,
        insert_by(s, x, key).to_multiset() == s.to_multiset().insert(x),
{
    lemma_insert_index(s, x, key);
    to_multiset_insert(s, insert_index(s, x, key), x);
}

/// What sorting returns is sorted, has the length of the sequence it was
/// given and holds what that sequence holds, each element as often.
pub proof fn lemma_sort_by<E>(s: Seq<E>, key: spec_fn(E) -> (int, int))
    ensures
        sorted_by(sort_by(s, key), key),
        sort_by(s, key).len() == s.len(),
        sort_by(s, key).to_multiset() == s.to_multiset(),
    decreases s.len(),
{
    if s.len() > 0 {
        let front = s.drop_last();
        lemma_sort_by(front, key);
        lemma_insert_sorted(sort_by(front, key), s.last(), key);
        lemma_insert_holds(sort_by(front, key), s.last(), key);
        to_multiset_build(front, s.last());
        assert(front.push(s.last()) =~= s);
    }
}

/// A type whose values are ranked by a key of their views.
pub trait Ranked: View + Sized {
    /// The key of a value.
    spec fn rank(v: Self::V) -> (int, int);

    /// Whether `self` does not come after `other`.
    fn ranks_before(&self, other: &Self) -> (before: bool)
        ensures
            before == key_le(Self::rank(self@), Self::rank(other@)),
    ;
}

/// The key of the values of a ranked type.
pub open spec fn rank_of<T: Ranked>() -> spec_fn(T::V) -> (int, int) {
    |v: T::V| T::rank(v)
}

/// The views of a sequence of values.
pub open spec fn views<T: View>(s: Seq<T>) -> Seq<T::V> {
    s.map_values(|t: T| t@)
}

/// Sorts by rank. Values of equal rank keep their order.
pub fn sort_ranked<T: Ranked>(items: Vec<T>) -> (sorted: Vec<T>)
    ensures
        views(sorted@) == sort_by(views(items@), rank_of::<T>()),
        sorted_by(views(sorted@), rank_of::<T>()),
        sorted@.len() == items@.len(),
        sorted@.to_multiset() == items@.to_multiset(),
{
    let mut sorted: Vec<T> = Vec::new();
    let ghost all = items@;
    assert(all.take(0) =~= sorted@);
    for item in it: items
        invariant
            it.seq() == all,
            views(sorted@) == sort_by(views(all.take(it.index() as int)), rank_of::<T>()),
            sorted@.len() == it.index(),
            sorted@.to_multiset() == all.take(it.index() as int).to_multiset(),
    {
        let ghost n = it.index() as int;
        let ghost before = sorted@;
        assert(item == all[n]);
        let mut p: usize = 0;
        loop
            invariant
                p <= sorted.len(),
                sorted@ == before,
                forall|i: int| 0 <= i < p ==> key_le(T::rank(#[trigger] sorted@[i]@), T::rank(item@)),
            ensures
                p < sorted.len() ==> !key_le(T::rank(sorted@[p as int]@), T::rank(item@)),
            decreases sorted.len() - p,
        {
            if p >= sorted.len() {
                break ;
            }
            if !sorted[p].ranks_before(&item) {
                break ;
            }
            p = p + 1;
        }
        proof {
            let key = rank_of::<T>();
            let front = views(all.take(n));
            let next = views(all.take(n + 1));
            assert(next.drop_last() =~= front);
            assert(next.last() == item@);
            assert forall|i: int| 0 <= i < p implies key_le(
                key(#[trigger] views(before)[i]),
                key(item@),
            ) by {
                assert(views(before)[i] == before[i]@);
            }
            lemma_insert_index_is(views(before), item@, key, p as int);
            assert(views(before.insert(p as int, item)) =~= views(before).insert(p as int, item@));
            to_multiset_insert(before, p as int, item);
            to_multiset_build(all.take(n), item);
            assert(all.take(n).push(item) =~= all.take(n + 1));
        }
        sorted.insert(p, item);
    }
    proof {
        assert(all.take(all.len() as int) =~= all);
        lemma_sort_by(views(all), rank_of::<T>());
    }
    sorted
}

} // verus!
