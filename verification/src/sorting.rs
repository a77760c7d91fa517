//! Stable sorting of keyed timetable entries.

use crate::models::OptimizedCourse;
use vstd::prelude::*;

verus! {

/// A course on its way through the decoder, with the key it is ordered by in
/// the current pass and the key kept for the next pass.
#[derive(Debug, Clone, Copy, PartialEq, Eq, Structural)]
pub struct Keyed {
    pub key: i64,
    pub next_key: i64,
    pub course: OptimizedCourse,
}

/// `s` with `e` placed behind the last entry whose key is not greater.
pub open spec fn insert_sorted(s: Seq<Keyed>, e: Keyed) -> Seq<Keyed>
    decreases s.len(),
{
    if s.len() == 0 {
        seq![e]
    } else if s.last().key <= e.key {
        s.push(e)
    } else {
        insert_sorted(s.drop_last(), e).push(s.last())
    }
}

/// The entries of `s` in ascending key order; entries with equal keys keep
/// the order they had in `s`.
pub open spec fn stable_sort(s: Seq<Keyed>) -> Seq<Keyed>
    decreases s.len(),
{
    if s.len() == 0 {
        s
    } else {
        insert_sorted(stable_sort(s.drop_last()), s.last())
    }
}

/// Keys never decrease along `s`.
pub open spec fn ascending(s: Seq<Keyed>) -> bool {
    forall|i: int, j: int| 0 <= i <= j < s.len() ==> s[i].key <= s[j].key
}

/// Inserting at position `at` is what `insert_sorted` does, when `at` is
/// where the keys greater than `e.key` begin at the end of `s`.
pub proof fn lemma_insert_sorted_at(s: Seq<Keyed>, e: Keyed, at: int)
    requires
        0 <= at <= s.len(),
        forall|i: int| at <= i < s.len() ==> s[i].key > e.key,
        at > 0 ==> s[at - 1].key <= e.key,
    ensures
        insert_sorted(s, e) == s.insert(at, e),
    decreases s.len() - at,
{
    if s.len() == 0 {
        assert(s.insert(at, e) =~= seq![e]);
    } else if at == s.len() {
        assert(s.insert(at, e) =~= s.push(e));
    } else {
        lemma_insert_sorted_at(s.drop_last(), e, at);
        assert(s.drop_last().insert(at, e).push(s.last()) =~= s.insert(at, e));
    }
}

/// Inserting keeps every entry and adds the new one.
pub proof fn lemma_insert_sorted_multiset(s: Seq<Keyed>, e: Keyed)
    ensures
        insert_sorted(s, e).len() == s.len() + 1,
        insert_sorted(s, e).to_multiset() == s.to_multiset().insert(e),
    decreases s.len(),
{
    broadcast use vstd::seq_lib::group_to_multiset_ensures;

    if s.len() == 0 {
        assert(seq![e] =~= Seq::<Keyed>::empty().push(e));
        assert(s =~= Seq::<Keyed>::empty());
    } else if s.last().key <= e.key {
    } else {
        lemma_insert_sorted_multiset(s.drop_last(), e);
        assert(s.drop_last().push(s.last()) =~= s);
        assert(insert_sorted(s, e).to_multiset() =~= s.to_multiset().insert(e));
    }
}

/// Inserting into an ascending sequence leaves it ascending.
pub proof fn lemma_insert_sorted_ascending(s: Seq<Keyed>, e: Keyed)
    requires
        ascending(s),
    ensures
        ascending(insert_sorted(s, e)),
        forall|i: int|
            0 <= i < insert_sorted(s, e).len() ==> insert_sorted(s, e)[i] == e || s.contains(
                #[trigger] insert_sorted(s, e)[i],
            ),
    decreases s.len(),
{
    let r = insert_sorted(s, e);
    if s.len() == 0 {
    } else if s.last().key <= e.key {
        assert forall|i: int| 0 <= i < r.len() implies r[i] == e || s.contains(#[trigger] r[i]) by {
            if i < s.len() {
                assert(s[i] == r[i]);
            }
        }
    } else {
        let t = s.drop_last();
        assert forall|i: int, j: int| 0 <= i <= j < t.len() implies t[i].key <= t[j].key by {
            assert(t[i] == s[i] && t[j] == s[j]);
        }
        lemma_insert_sorted_ascending(t, e);
        let u = insert_sorted(t, e);
        assert forall|i: int| 0 <= i < r.len() implies r[i] == e || s.contains(#[trigger] r[i]) by {
            if i < u.len() {
                assert(r[i] == u[i]);
                if u[i] != e {
                    assert(t.contains(u[i]));
                    let k = choose|k: int| 0 <= k < t.len() && t[k] == u[i];
                    assert(s[k] == u[i]);
                }
            } else {
                assert(r[i] == s[s.len() - 1]);
            }
        }
        assert forall|i: int, j: int| 0 <= i <= j < r.len() implies r[i].key <= r[j].key by {
            if j < u.len() {
                assert(r[i] == u[i] && r[j] == u[j]);
            } else if i < u.len() {
                assert(r[i] == u[i]);
                if u[i] != e {
                    assert(t.contains(u[i]));
                    let k = choose|k: int| 0 <= k < t.len() && t[k] == u[i];
                    assert(s[k].key <= s[s.len() - 1].key);
                }
            }
        }
    }
}

/// Sorting keeps every entry, as often as it occurred, and the result is
/// ascending.
pub proof fn lemma_stable_sort_permutes(s: Seq<Keyed>)
    ensures
        stable_sort(s).len() == s.len(),
        stable_sort(s).to_multiset() == s.to_multiset(),
        ascending(stable_sort(s)),
    decreases s.len(),
{
    broadcast use vstd::seq_lib::group_to_multiset_ensures;

    if s.len() == 0 {
    } else {
        lemma_stable_sort_permutes(s.drop_last());
        lemma_insert_sorted_multiset(stable_sort(s.drop_last()), s.last());
        lemma_insert_sorted_ascending(stable_sort(s.drop_last()), s.last());
        assert(s.drop_last().push(s.last()) =~= s);
    }
}

/// The entries of `s` whose key is `k`, in the order they have in `s`.
pub open spec fn with_key(s: Seq<Keyed>, k: i64) -> Seq<Keyed>
    decreases s.len(),
{
    if s.len() == 0 {
        Seq::empty()
    } else if s.last().key == k {
        with_key(s.drop_last(), k).push(s.last())
    } else {
        with_key(s.drop_last(), k)
    }
}

/// Inserting leaves the entries with one key in their order, the new one
/// last among its equals.
pub proof fn lemma_insert_sorted_stable(s: Seq<Keyed>, e: Keyed, k: i64)
    ensures
        with_key(insert_sorted(s, e), k) == if e.key == k {
            with_key(s, k).push(e)
        } else {
            with_key(s, k)
        },
    decreases s.len(),
{
    if s.len() == 0 {
        assert(seq![e].drop_last() =~= s);
    } else if s.last().key <= e.key {
        assert(s.push(e).drop_last() =~= s);
    } else {
        lemma_insert_sorted_stable(s.drop_last(), e, k);
        let u = insert_sorted(s.drop_last(), e);
        assert(u.push(s.last()).drop_last() =~= u);
    }
}

/// Sorting is stable: the entries with one key come out in the order in
/// which they went in.
pub proof fn lemma_stable_sort_stable(s: Seq<Keyed>, k: i64)
    ensures
        with_key(stable_sort(s), k) == with_key(s, k),
    decreases s.len(),
{
    if s.len() > 0 {
        lemma_stable_sort_stable(s.drop_last(), k);
        lemma_insert_sorted_stable(stable_sort(s.drop_last()), s.last(), k);
    }
}

/// Puts `e` into the ascending vector behind the entries whose key is not
/// greater.
pub fn insert_by_key(v: &mut Vec<Keyed>, e: Keyed)
    ensures
        final(v)@ == insert_sorted(old(v)@, e),
{
    let mut at: usize = v.len();
    while at > 0 && v[at - 1].key > e.key
        invariant
            at <= v.len(),
            v@ == old(v)@,
            forall|i: int| at <= i < v.len() ==> v[i].key > e.key,
        decreases at,
    {
        at -= 1;
    }
    proof {
        lemma_insert_sorted_at(v@, e, at as int);
    }
    v.insert(at, e);
}

/// Sorts by key, ascending; entries with equal keys keep their order.
pub fn sort_by_key(v: &Vec<Keyed>) -> (sorted: Vec<Keyed>)
    ensures
        sorted@ == stable_sort(v@),
{
    let mut sorted: Vec<Keyed> = Vec::new();
    let mut i: usize = 0;
    while i < v.len()
        invariant
            i <= v.len(),
            sorted@ == stable_sort(v@.take(i as int)),
        decreases v.len() - i,
    {
        proof {
            assert(v@.take(i + 1).drop_last() =~= v@.take(i as int));
        }
        insert_by_key(&mut sorted, v[i]);
        i += 1;
    }
    proof {
        assert(v@.take(v.len() as int) =~= v@);
    }
    sorted
}

} // verus!
