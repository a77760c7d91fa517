//! Where a decoded session comes from, and what that says of its room.

use crate::conflicts::same_class;
use crate::decoder::{candidate, candidates, day_assigned, day_pass, decoded, time_pass};
use crate::decoder_laws::lemma_sorted_group;
use crate::grouping::{distinct_keys, members, SlotKey};
use crate::models::{CourseRequest, OptimizedCourse};
use crate::packing::{day_packed, time_packed};
use crate::rooms::{class_of, lemma_room_range, lemma_same_room};
use crate::sorting::{stable_sort, Keyed};
use vstd::prelude::*;

verus! {

/// `c` is `base` with, at most, another weekday, start and end.
pub open spec fn placed_from(c: OptimizedCourse, base: OptimizedCourse) -> bool {
    c == OptimizedCourse { hari: c.hari, jam_mulai: c.jam_mulai, jam_akhir: c.jam_akhir, ..base }
}

/// `c` is one of the entries' courses, placed.
pub open spec fn from_entries(s: Seq<Keyed>, c: OptimizedCourse) -> bool {
    exists|j: int| 0 <= j < s.len() && placed_from(c, (#[trigger] s[j]).course)
}

/// Every entry that leaves the day pass is one that entered it, placed.
pub proof fn lemma_day_pass_origin(s: Seq<Keyed>, keys: Seq<SlotKey>)
    ensures
        forall|i: int|
            0 <= i < day_pass(s, keys).len() ==> from_entries(
                s,
                (#[trigger] day_pass(s, keys)[i]).course,
            ),
    decreases keys.len(),
{
    if keys.len() > 0 {
        lemma_day_pass_origin(s, keys.drop_last());
        let g = stable_sort(members(s, keys.last()));
        let head = day_pass(s, keys.drop_last());
        let r = day_pass(s, keys);
        lemma_sorted_group(s, keys.last());
        assert forall|i: int| 0 <= i < r.len() implies from_entries(s, (#[trigger] r[i]).course) by {
            if i < head.len() {
                assert(r[i] == head[i]);
            } else {
                let j = i - head.len();
                assert(r[i] == day_packed(g)[j]);
                assert(s.contains(g[j]));
                let q = choose|q: int| 0 <= q < s.len() && s[q] == g[j];
                assert(placed_from(r[i].course, s[q].course));
            }
        }
    }
}

/// Every session that leaves the time pass is one that entered it, placed.
pub proof fn lemma_time_pass_origin(s: Seq<Keyed>, keys: Seq<SlotKey>)
    ensures
        forall|i: int|
            0 <= i < time_pass(s, keys).len() ==> from_entries(s, #[trigger] time_pass(s, keys)[i]),
    decreases keys.len(),
{
    if keys.len() > 0 {
        lemma_time_pass_origin(s, keys.drop_last());
        let g = stable_sort(members(s, keys.last()));
        let head = time_pass(s, keys.drop_last());
        let r = time_pass(s, keys);
        lemma_sorted_group(s, keys.last());
        assert forall|i: int| 0 <= i < r.len() implies from_entries(s, #[trigger] r[i]) by {
            if i < head.len() {
                assert(r[i] == head[i]);
            } else {
                let j = i - head.len();
                assert(r[i] == time_packed(g, keys.last().id_waktu)[j]);
                assert(s.contains(g[j]));
                let q = choose|q: int| 0 <= q < s.len() && s[q] == g[j];
                assert(placed_from(r[i], s[q].course));
            }
        }
    }
}

/// Every decoded session is one of the courses, with its room, placed.
pub proof fn lemma_decoded_origin(position: Seq<i64>, courses: Seq<CourseRequest>)
    ensures
        forall|i: int|
            0 <= i < decoded(position, courses).len() ==> from_entries(
                candidates(position, courses),
                #[trigger] decoded(position, courses)[i],
            ),
{
    let c = candidates(position, courses);
    let d = day_assigned(position, courses);
    let r = decoded(position, courses);
    lemma_day_pass_origin(c, distinct_keys(c));
    lemma_time_pass_origin(d, distinct_keys(d));
    assert forall|i: int| 0 <= i < r.len() implies from_entries(c, #[trigger] r[i]) by {
        let j = choose|j: int| 0 <= j < d.len() && placed_from(r[i], (#[trigger] d[j]).course);
        assert(from_entries(c, d[j].course));
        let q = choose|q: int| 0 <= q < c.len() && placed_from(d[j].course, (#[trigger] c[q]).course);
        assert(placed_from(r[i], c[q].course));
    }
}

/// Two decoded sessions have the same room exactly when they are of the
/// same class: same study program, semester and class id.
pub proof fn lemma_decoded_rooms(position: Seq<i64>, courses: Seq<CourseRequest>, a: int, b: int)
    requires
        courses.len() <= u32::MAX,
        0 <= a < decoded(position, courses).len(),
        0 <= b < decoded(position, courses).len(),
    ensures
        decoded(position, courses)[a].ruangan == decoded(position, courses)[b].ruangan
            <==> same_class(decoded(position, courses)[a], decoded(position, courses)[b]),
        decoded(position, courses)[a].ruangan >= 1,
{
    let c = candidates(position, courses);
    let r = decoded(position, courses);
    lemma_decoded_origin(position, courses);
    let i = choose|i: int| 0 <= i < c.len() && placed_from(r[a], (#[trigger] c[i]).course);
    let j = choose|j: int| 0 <= j < c.len() && placed_from(r[b], (#[trigger] c[j]).course);
    assert(c[i] == candidate(position, courses, i));
    assert(c[j] == candidate(position, courses, j));
    lemma_room_range(courses, i);
    lemma_room_range(courses, j);
    lemma_same_room(courses, i, j);
    assert(class_of(courses[i]) == class_of(courses[j]) <==> same_class(r[a], r[b]));
}

} // verus!
