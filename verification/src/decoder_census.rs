//! Every course that is decoded is on the timetable exactly once.

use crate::decoder::{candidates, day_assigned, day_pass, decoded, decoded_len, time_pass};
use crate::grouping::{distinct_keys, lemma_distinct_keys, members, slot_key, SlotKey};
use crate::models::{CourseRequest, OptimizedCourse};
use crate::packing::{day_packed, time_packed};
use crate::sorting::{insert_sorted, stable_sort, Keyed};
use vstd::multiset::Multiset;
use vstd::prelude::*;

verus! {

/// The request that a session was made from: the session without its place.
pub open spec fn request_of(c: OptimizedCourse) -> CourseRequest {
    CourseRequest {
        id_jadwal: c.id_jadwal,
        id_matkul: c.id_matkul,
        id_dosen: c.id_dosen,
        id_waktu: c.id_waktu,
        id_kelas: c.id_kelas,
        semester: c.semester,
        sks: c.sks,
        prodi: c.prodi,
    }
}

/// The request behind an entry.
pub open spec fn request_of_entry(e: Keyed) -> CourseRequest {
    request_of(e.course)
}

/// A request stands for itself.
pub open spec fn same_request(r: CourseRequest) -> CourseRequest {
    r
}

/// The requests behind the items of `s`, each as often as it occurs.
pub open spec fn census<T>(s: Seq<T>, f: spec_fn(T) -> CourseRequest) -> Multiset<CourseRequest>
    decreases s.len(),
{
    if s.len() == 0 {
        Multiset::empty()
    } else {
        census(s.drop_last(), f).insert(f(s.last()))
    }
}

/// The requests behind the entries of `s` whose key is among `keys`.
pub open spec fn census_of_keys(s: Seq<Keyed>, keys: Seq<SlotKey>) -> Multiset<CourseRequest>
    decreases s.len(),
{
    if s.len() == 0 {
        Multiset::empty()
    } else if keys.contains(slot_key(s.last().course)) {
        census_of_keys(s.drop_last(), keys).insert(request_of(s.last().course))
    } else {
        census_of_keys(s.drop_last(), keys)
    }
}

/// The census of two sequences, one after the other, is that of both
/// together.
pub proof fn lemma_census_concat<T>(s: Seq<T>, t: Seq<T>, f: spec_fn(T) -> CourseRequest)
    ensures
        census(s + t, f) == census(s, f).add(census(t, f)),
    decreases t.len(),
{
    if t.len() == 0 {
        assert(s + t =~= s);
        assert(census(s, f).add(Multiset::empty()) =~= census(s, f));
    } else {
        lemma_census_concat(s, t.drop_last(), f);
        assert((s + t).drop_last() =~= s + t.drop_last());
        assert((s + t).last() == t.last());
        assert(census(s + t, f) =~= census(s, f).add(census(t, f)));
    }
}

/// Sequences whose items stand for the same requests, place by place, have
/// the same census.
pub proof fn lemma_census_pointwise<T, U>(
    s: Seq<T>,
    f: spec_fn(T) -> CourseRequest,
    t: Seq<U>,
    g: spec_fn(U) -> CourseRequest,
)
    requires
        s.len() == t.len(),
        forall|i: int| 0 <= i < s.len() ==> f(#[trigger] s[i]) == g(t[i]),
    ensures
        census(s, f) == census(t, g),
    decreases s.len(),
{
    if s.len() > 0 {
        let s0 = s.drop_last();
        let t0 = t.drop_last();
        assert forall|i: int| 0 <= i < s0.len() implies f(#[trigger] s0[i]) == g(t0[i]) by {
            assert(s0[i] == s[i] && t0[i] == t[i]);
        }
        lemma_census_pointwise(s0, f, t0, g);
        assert(f(s[s.len() - 1]) == g(t[t.len() - 1]));
    }
}

/// Inserting an entry adds its request to the census.
pub proof fn lemma_census_insert(s: Seq<Keyed>, e: Keyed)
    ensures
        census(insert_sorted(s, e), |x: Keyed| request_of_entry(x)) == census(
            s,
            |x: Keyed| request_of_entry(x),
        ).insert(request_of_entry(e)),
    decreases s.len(),
{
    let f = |x: Keyed| request_of_entry(x);
    if s.len() == 0 {
        assert(seq![e].drop_last() =~= s);
        assert(census(seq![e], f) =~= census(s, f).insert(f(e)));
    } else if s.last().key <= e.key {
        assert(s.push(e).drop_last() =~= s);
    } else {
        lemma_census_insert(s.drop_last(), e);
        let u = insert_sorted(s.drop_last(), e);
        assert(u.push(s.last()).drop_last() =~= u);
        assert(census(insert_sorted(s, e), f) =~= census(s, f).insert(f(e)));
    }
}

/// Sorting changes nothing of the census.
pub proof fn lemma_census_sort(s: Seq<Keyed>)
    ensures
        census(stable_sort(s), |x: Keyed| request_of_entry(x)) == census(
            s,
            |x: Keyed| request_of_entry(x),
        ),
    decreases s.len(),
{
    if s.len() > 0 {
        lemma_census_sort(s.drop_last());
        lemma_census_insert(stable_sort(s.drop_last()), s.last());
    }
}

/// The census of a group is that of the entries with the group's key.
pub proof fn lemma_census_members(s: Seq<Keyed>, keys: Seq<SlotKey>, k: SlotKey)
    requires
        !keys.contains(k),
    ensures
        census_of_keys(s, keys.push(k)) == census_of_keys(s, keys).add(
            census(members(s, k), |x: Keyed| request_of_entry(x)),
        ),
    decreases s.len(),
{
    let f = |x: Keyed| request_of_entry(x);
    if s.len() == 0 {
        assert(census_of_keys(s, keys.push(k)) =~= census_of_keys(s, keys).add(
            census(members(s, k), f),
        ));
    } else {
        lemma_census_members(s.drop_last(), keys, k);
        let x = slot_key(s.last().course);
        if x == k {
            assert(keys.push(k)[keys.len() as int] == x);
            assert(members(s, k).drop_last() =~= members(s.drop_last(), k));
        } else {
            if keys.contains(x) {
                let j = choose|j: int| 0 <= j < keys.len() && keys[j] == x;
                assert(keys.push(k)[j] == x);
            }
            if keys.push(k).contains(x) {
                let j = choose|j: int| 0 <= j < keys.push(k).len() && keys.push(k)[j] == x;
                assert(keys[j] == x);
            }
        }
        assert(census_of_keys(s, keys.push(k)) =~= census_of_keys(s, keys).add(
            census(members(s, k), f),
        ));
    }
}

proof fn lemma_census_no_keys(s: Seq<Keyed>)
    ensures
        census_of_keys(s, Seq::<SlotKey>::empty()) == Multiset::<CourseRequest>::empty(),
    decreases s.len(),
{
    if s.len() > 0 {
        lemma_census_no_keys(s.drop_last());
    }
}

proof fn lemma_census_all_keys(s: Seq<Keyed>, keys: Seq<SlotKey>)
    requires
        forall|i: int| 0 <= i < s.len() ==> keys.contains(slot_key(#[trigger] s[i].course)),
    ensures
        census_of_keys(s, keys) == census(s, |x: Keyed| request_of_entry(x)),
    decreases s.len(),
{
    if s.len() > 0 {
        let t = s.drop_last();
        assert forall|i: int| 0 <= i < t.len() implies keys.contains(
            slot_key(#[trigger] t[i].course),
        ) by {
            assert(t[i] == s[i]);
        }
        lemma_census_all_keys(t, keys);
        assert(keys.contains(slot_key(s[s.len() - 1].course)));
    }
}

proof fn lemma_front_lacks_last(keys: Seq<SlotKey>)
    requires
        keys.no_duplicates(),
        keys.len() > 0,
    ensures
        !keys.drop_last().contains(keys.last()),
        keys.drop_last().no_duplicates(),
        keys.drop_last().push(keys.last()) == keys,
{
    let front = keys.drop_last();
    if front.contains(keys.last()) {
        let j = choose|j: int| 0 <= j < front.len() && front[j] == keys.last();
        assert(keys[j] == keys[keys.len() - 1]);
    }
    assert(front.push(keys.last()) =~= keys);
}

/// The day pass keeps the census of the entries whose keys it is given.
pub proof fn lemma_census_day_pass(s: Seq<Keyed>, keys: Seq<SlotKey>)
    requires
        keys.no_duplicates(),
    ensures
        census(day_pass(s, keys), |x: Keyed| request_of_entry(x)) == census_of_keys(s, keys),
    decreases keys.len(),
{
    let f = |x: Keyed| request_of_entry(x);
    if keys.len() == 0 {
        assert(keys =~= Seq::<SlotKey>::empty());
        lemma_census_no_keys(s);
    } else {
        let front = keys.drop_last();
        let g = stable_sort(members(s, keys.last()));
        lemma_front_lacks_last(keys);
        lemma_census_day_pass(s, front);
        lemma_census_concat(day_pass(s, front), day_packed(g), f);
        lemma_census_pointwise(day_packed(g), f, g, f);
        lemma_census_sort(members(s, keys.last()));
        lemma_census_members(s, front, keys.last());
    }
}

/// The time pass keeps the census of the entries whose keys it is given.
pub proof fn lemma_census_time_pass(s: Seq<Keyed>, keys: Seq<SlotKey>)
    requires
        keys.no_duplicates(),
    ensures
        census(time_pass(s, keys), |c: OptimizedCourse| request_of(c)) == census_of_keys(s, keys),
    decreases keys.len(),
{
    let f = |x: Keyed| request_of_entry(x);
    let h = |c: OptimizedCourse| request_of(c);
    if keys.len() == 0 {
        assert(keys =~= Seq::<SlotKey>::empty());
        lemma_census_no_keys(s);
    } else {
        let front = keys.drop_last();
        let g = stable_sort(members(s, keys.last()));
        lemma_front_lacks_last(keys);
        lemma_census_time_pass(s, front);
        lemma_census_concat(time_pass(s, front), time_packed(g, keys.last().id_waktu), h);
        lemma_census_pointwise(time_packed(g, keys.last().id_waktu), h, g, f);
        lemma_census_sort(members(s, keys.last()));
        lemma_census_members(s, front, keys.last());
    }
}

/// The timetable holds the decoded courses, each as often as the course
/// list does among its first `decoded_len` entries: none is lost, none is
/// added, none is changed but for its place.
pub proof fn lemma_decoded_census(position: Seq<i64>, courses: Seq<CourseRequest>)
    ensures
        census(decoded(position, courses), |c: OptimizedCourse| request_of(c)) == census(
            courses.take(decoded_len(position.len(), courses.len()) as int),
            |r: CourseRequest| same_request(r),
        ),
{
    let f = |x: Keyed| request_of_entry(x);
    let c = candidates(position, courses);
    let d = day_assigned(position, courses);
    lemma_distinct_keys(c);
    lemma_distinct_keys(d);
    lemma_census_time_pass(d, distinct_keys(d));
    assert forall|i: int| 0 <= i < d.len() implies distinct_keys(d).contains(
        slot_key(#[trigger] d[i].course),
    ) by {}
    lemma_census_all_keys(d, distinct_keys(d));
    lemma_census_day_pass(c, distinct_keys(c));
    assert forall|i: int| 0 <= i < c.len() implies distinct_keys(c).contains(
        slot_key(#[trigger] c[i].course),
    ) by {}
    lemma_census_all_keys(c, distinct_keys(c));
    lemma_census_pointwise(
        c,
        f,
        courses.take(decoded_len(position.len(), courses.len()) as int),
        |r: CourseRequest| same_request(r),
    );
}

} // verus!
