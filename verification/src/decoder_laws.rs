//! What holds of every decoded timetable.

use crate::decoder::{
    candidates, day_assigned, day_pass, decodable, decoded, decoded_len, lemma_day_pass_fits,
    lemma_sorted_group_fits, time_pass,
};
use crate::grouping::{distinct_keys, lemma_distinct_keys, lemma_members, members, slot_key, SlotKey};
use crate::models::{CourseRequest, OptimizedCourse, MAX_CREDITS};
use crate::packing::{
    credits_fit, day_packed, duration, lemma_start_range, lemma_weekday_range, start_of,
    time_packed, window_end, window_start,
};
use crate::sorting::{lemma_stable_sort_permutes, stable_sort, Keyed};
use vstd::prelude::*;

verus! {

/// A session lies on a weekday from 1 to 5, starts within the window of its
/// band, and lasts 40 minutes for each credit hour; where it is short
/// enough to fit the window at all, it ends within the window.
pub open spec fn well_placed(c: OptimizedCourse) -> bool {
    &&& 1 <= c.hari <= 5
    &&& window_start(c.id_waktu) <= c.jam_mulai <= window_end(c.id_waktu)
    &&& c.jam_akhir - c.jam_mulai == 40 * c.sks
    &&& 40 * c.sks <= window_end(c.id_waktu) - window_start(c.id_waktu) ==> c.jam_akhir
        <= window_end(c.id_waktu)
}

/// The entries of a sorted group are entries of the whole, with the group's
/// key, and as many as the group has.
pub proof fn lemma_sorted_group(s: Seq<Keyed>, k: SlotKey)
    ensures
        stable_sort(members(s, k)).len() == members(s, k).len(),
        forall|i: int|
            0 <= i < stable_sort(members(s, k)).len() ==> s.contains(
                #[trigger] stable_sort(members(s, k))[i],
            ) && slot_key(stable_sort(members(s, k))[i].course) == k,
{
    broadcast use vstd::seq_lib::group_to_multiset_ensures;

    let m = members(s, k);
    let r = stable_sort(m);
    lemma_members(s, k);
    lemma_stable_sort_permutes(m);
    assert forall|i: int| 0 <= i < r.len() implies s.contains(#[trigger] r[i]) && slot_key(
        r[i].course,
    ) == k by {
        assert(r.contains(r[i]));
        assert(r.to_multiset().count(r[i]) > 0);
        assert(m.to_multiset().count(r[i]) > 0);
        assert(m.contains(r[i]));
        let j = choose|j: int| 0 <= j < m.len() && m[j] == r[i];
        assert(slot_key(m[j].course) == k);
        assert(s.contains(m[j]));
    }
}

/// The groups of distinct keys have, together, as many entries as are among
/// the entries whose key is one of them.
pub open spec fn covered(s: Seq<Keyed>, keys: Seq<SlotKey>) -> nat
    decreases s.len(),
{
    if s.len() == 0 {
        0
    } else if keys.contains(slot_key(s.last().course)) {
        covered(s.drop_last(), keys) + 1
    } else {
        covered(s.drop_last(), keys)
    }
}

proof fn lemma_covered_push(s: Seq<Keyed>, keys: Seq<SlotKey>, k: SlotKey)
    requires
        !keys.contains(k),
    ensures
        covered(s, keys.push(k)) == covered(s, keys) + members(s, k).len(),
    decreases s.len(),
{
    if s.len() > 0 {
        lemma_covered_push(s.drop_last(), keys, k);
        let x = slot_key(s.last().course);
        if x == k {
            assert(keys.push(k)[keys.len() as int] == x);
        } else {
            if keys.contains(x) {
                let j = choose|j: int| 0 <= j < keys.len() && keys[j] == x;
                assert(keys.push(k)[j] == x);
            }
            if keys.push(k).contains(x) {
                let j = choose|j: int| 0 <= j < keys.push(k).len() && keys.push(k)[j] == x;
                assert(keys[j] == x);
            }
        }
    }
}

proof fn lemma_covered_all(s: Seq<Keyed>, keys: Seq<SlotKey>)
    requires
        forall|i: int| 0 <= i < s.len() ==> keys.contains(slot_key(#[trigger] s[i].course)),
    ensures
        covered(s, keys) == s.len(),
    decreases s.len(),
{
    if s.len() > 0 {
        let t = s.drop_last();
        assert forall|i: int| 0 <= i < t.len() implies keys.contains(
            slot_key(#[trigger] t[i].course),
        ) by {
            assert(t[i] == s[i]);
        }
        lemma_covered_all(t, keys);
        assert(keys.contains(slot_key(s[s.len() - 1].course)));
    }
}

/// Packing the groups of distinct keys into weekdays gives as many entries
/// as those keys cover.
pub proof fn lemma_day_pass_len(s: Seq<Keyed>, keys: Seq<SlotKey>)
    requires
        keys.no_duplicates(),
    ensures
        day_pass(s, keys).len() == covered(s, keys),
    decreases keys.len(),
{
    if keys.len() == 0 {
        lemma_covered_none(s);
        assert(keys =~= Seq::<SlotKey>::empty());
    } else {
        let front = keys.drop_last();
        lemma_day_pass_len(s, front);
        lemma_sorted_group(s, keys.last());
        assert(!front.contains(keys.last())) by {
            if front.contains(keys.last()) {
                let j = choose|j: int| 0 <= j < front.len() && front[j] == keys.last();
                assert(keys[j] == keys[keys.len() - 1]);
            }
        }
        lemma_covered_push(s, front, keys.last());
        assert(front.push(keys.last()) =~= keys);
    }
}

/// Packing the groups of distinct keys into their windows gives as many
/// sessions as those keys cover.
pub proof fn lemma_time_pass_len(s: Seq<Keyed>, keys: Seq<SlotKey>)
    requires
        keys.no_duplicates(),
    ensures
        time_pass(s, keys).len() == covered(s, keys),
    decreases keys.len(),
{
    if keys.len() == 0 {
        lemma_covered_none(s);
        assert(keys =~= Seq::<SlotKey>::empty());
    } else {
        let front = keys.drop_last();
        lemma_time_pass_len(s, front);
        lemma_sorted_group(s, keys.last());
        assert(!front.contains(keys.last())) by {
            if front.contains(keys.last()) {
                let j = choose|j: int| 0 <= j < front.len() && front[j] == keys.last();
                assert(keys[j] == keys[keys.len() - 1]);
            }
        }
        lemma_covered_push(s, front, keys.last());
        assert(front.push(keys.last()) =~= keys);
    }
}

proof fn lemma_covered_none(s: Seq<Keyed>)
    ensures
        covered(s, Seq::<SlotKey>::empty()) == 0,
    decreases s.len(),
{
    if s.len() > 0 {
        lemma_covered_none(s.drop_last());
    }
}

/// Every course that has both of its keys is on the timetable once: the
/// timetable has as many sessions as courses were decoded.
pub proof fn lemma_decoded_len(position: Seq<i64>, courses: Seq<CourseRequest>)
    ensures
        decoded(position, courses).len() == decoded_len(position.len(), courses.len()),
        decoded(position, courses).len() <= courses.len(),
{
    let c = candidates(position, courses);
    let d = day_assigned(position, courses);
    lemma_distinct_keys(c);
    lemma_day_pass_len(c, distinct_keys(c));
    assert forall|i: int| 0 <= i < c.len() implies distinct_keys(c).contains(
        slot_key(#[trigger] c[i].course),
    ) by {}
    lemma_covered_all(c, distinct_keys(c));
    lemma_distinct_keys(d);
    lemma_time_pass_len(d, distinct_keys(d));
    assert forall|i: int| 0 <= i < d.len() implies distinct_keys(d).contains(
        slot_key(#[trigger] d[i].course),
    ) by {}
    lemma_covered_all(d, distinct_keys(d));
}

/// After the day pass every entry has a weekday from 1 to 5.
pub proof fn lemma_day_pass_weekdays(s: Seq<Keyed>, keys: Seq<SlotKey>)
    ensures
        forall|i: int|
            0 <= i < day_pass(s, keys).len() ==> 1 <= (#[trigger] day_pass(
                s,
                keys,
            )[i]).course.hari <= 5,
    decreases keys.len(),
{
    if keys.len() > 0 {
        lemma_day_pass_weekdays(s, keys.drop_last());
        let g = stable_sort(members(s, keys.last()));
        let head = day_pass(s, keys.drop_last());
        let r = day_pass(s, keys);
        assert forall|i: int| 0 <= i < r.len() implies 1 <= (#[trigger] r[i]).course.hari <= 5 by {
            if i < head.len() {
                assert(r[i] == head[i]);
            } else {
                let j = i - head.len();
                assert(r[i] == day_packed(g)[j]);
                lemma_weekday_range(g, j);
            }
        }
    }
}

/// After the time pass every session is well placed, given that the entries
/// had weekdays from 1 to 5 and credit weights in range.
pub proof fn lemma_time_pass_placed(s: Seq<Keyed>, keys: Seq<SlotKey>)
    requires
        credits_fit(s),
        forall|i: int| 0 <= i < s.len() ==> 1 <= (#[trigger] s[i]).course.hari <= 5,
    ensures
        forall|i: int|
            0 <= i < time_pass(s, keys).len() ==> well_placed(#[trigger] time_pass(s, keys)[i]),
    decreases keys.len(),
{
    if keys.len() > 0 {
        lemma_time_pass_placed(s, keys.drop_last());
        let k = keys.last();
        let g = stable_sort(members(s, k));
        let head = time_pass(s, keys.drop_last());
        let r = time_pass(s, keys);
        lemma_sorted_group(s, k);
        lemma_sorted_group_fits(s, k);
        assert forall|i: int| 0 <= i < r.len() implies well_placed(#[trigger] r[i]) by {
            if i < head.len() {
                assert(r[i] == head[i]);
            } else {
                let j = i - head.len();
                assert(r[i] == time_packed(g, k.id_waktu)[j]);
                assert(s.contains(g[j]));
                let q = choose|q: int| 0 <= q < s.len() && s[q] == g[j];
                assert(1 <= s[q].course.hari <= 5);
                assert(g[j].course.sks <= MAX_CREDITS);
                assert(slot_key(g[j].course) == k);
                lemma_start_range(g, k.id_waktu, j);
                let t = start_of(g, k.id_waktu, j);
                assert(t + duration(g[j].course) <= u32::MAX);
            }
        }
    }
}

/// Every decoded session lies on a weekday from 1 to 5 and lasts 40 minutes
/// for each of its credit hours.
pub proof fn lemma_decoded_well_placed(position: Seq<i64>, courses: Seq<CourseRequest>)
    requires
        decodable(courses),
    ensures
        forall|i: int|
            0 <= i < decoded(position, courses).len() ==> well_placed(
                #[trigger] decoded(position, courses)[i],
            ),
{
    let c = candidates(position, courses);
    let d = day_assigned(position, courses);
    assert forall|i: int| 0 <= i < c.len() implies (#[trigger] c[i]).course.sks <= MAX_CREDITS by {
        assert(courses[i].credits_in_range());
    }
    lemma_day_pass_fits(c, distinct_keys(c));
    lemma_day_pass_weekdays(c, distinct_keys(c));
    lemma_time_pass_placed(d, distinct_keys(d));
}

/// The timetable depends on nothing but the position and the course list.
pub proof fn lemma_decoded_deterministic(
    position_a: Seq<i64>,
    courses_a: Seq<CourseRequest>,
    position_b: Seq<i64>,
    courses_b: Seq<CourseRequest>,
)
    requires
        position_a =~= position_b,
        courses_a =~= courses_b,
    ensures
        decoded(position_a, courses_a) == decoded(position_b, courses_b),
{
}

} // verus!
