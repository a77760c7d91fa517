//! The decoder: from a particle's order keys and the course list to a
//! timetable.
//!
//! A position holds two keys per course, the first for the order in which
//! the courses of a group are given their weekday, the second for the order
//! in which the courses of a group and weekday are given their minutes. Only
//! the order of the keys matters, never their size.

use crate::decoder_laws::{lemma_decoded_len, lemma_decoded_well_placed, well_placed};
use crate::grouping::{
    distinct_keys, group_keys, group_members, lemma_members, members, slot_key, SlotKey,
};
use crate::models::{CourseRequest, OptimizedCourse, MAX_CREDITS, PSO};
use crate::packing::{credits_fit, day_packed, pack_days, pack_times, time_packed};
use crate::rooms::{assign_rooms, lemma_room_range, room_of};
use crate::sorting::{lemma_stable_sort_permutes, sort_by_key, stable_sort, Keyed};
use vstd::prelude::*;

verus! {

/// How many courses a position of `position_len` keys covers: a course is
/// decoded when both of its keys are there.
pub open spec fn decoded_len(position_len: nat, courses_len: nat) -> nat {
    if courses_len <= position_len / 2 {
        courses_len
    } else {
        position_len / 2
    }
}

/// Course `i` before any day or time is assigned, with its two keys.
pub open spec fn candidate(position: Seq<i64>, courses: Seq<CourseRequest>, i: int) -> Keyed {
    Keyed {
        key: position[2 * i],
        next_key: position[2 * i + 1],
        course: OptimizedCourse {
            id_jadwal: courses[i].id_jadwal,
            id_matkul: courses[i].id_matkul,
            id_dosen: courses[i].id_dosen,
            id_kelas: courses[i].id_kelas,
            id_waktu: courses[i].id_waktu,
            hari: 0,
            jam_mulai: 0,
            jam_akhir: 0,
            ruangan: room_of(courses, i) as u32,
            semester: courses[i].semester,
            sks: courses[i].sks,
            prodi: courses[i].prodi,
        },
    }
}

/// The courses that are decoded, in the order of the list, each with its
/// two keys and its room.
pub open spec fn candidates(position: Seq<i64>, courses: Seq<CourseRequest>) -> Seq<Keyed> {
    Seq::new(decoded_len(position.len(), courses.len()), |i: int| candidate(position, courses, i))
}

/// The groups named by `keys`, one after the other, each sorted by key and
/// packed into weekdays.
pub open spec fn day_pass(s: Seq<Keyed>, keys: Seq<SlotKey>) -> Seq<Keyed>
    decreases keys.len(),
{
    if keys.len() == 0 {
        Seq::empty()
    } else {
        day_pass(s, keys.drop_last()) + day_packed(stable_sort(members(s, keys.last())))
    }
}

/// The groups named by `keys`, one after the other, each sorted by key and
/// packed into the window of its session band.
pub open spec fn time_pass(s: Seq<Keyed>, keys: Seq<SlotKey>) -> Seq<OptimizedCourse>
    decreases keys.len(),
{
    if keys.len() == 0 {
        Seq::empty()
    } else {
        time_pass(s, keys.drop_last()) + time_packed(
            stable_sort(members(s, keys.last())),
            keys.last().id_waktu,
        )
    }
}

/// The courses with their weekdays, group by group.
pub open spec fn day_assigned(position: Seq<i64>, courses: Seq<CourseRequest>) -> Seq<Keyed> {
    let c = candidates(position, courses);
    day_pass(c, distinct_keys(c))
}

/// The timetable that a position stands for.
pub open spec fn decoded(position: Seq<i64>, courses: Seq<CourseRequest>) -> Seq<OptimizedCourse> {
    let d = day_assigned(position, courses);
    time_pass(d, distinct_keys(d))
}

/// Every course can be decoded without leaving `u32`: there are no more
/// courses than room numbers, and every credit weight is in range.
pub open spec fn decodable(courses: Seq<CourseRequest>) -> bool {
    &&& courses.len() <= u32::MAX
    &&& forall|i: int| 0 <= i < courses.len() ==> (#[trigger] courses[i]).credits_in_range()
}

/// A sorted group has credit weights in range where all entries have.
pub proof fn lemma_sorted_group_fits(s: Seq<Keyed>, k: SlotKey)
    requires
        credits_fit(s),
    ensures
        credits_fit(stable_sort(members(s, k))),
{
    broadcast use vstd::seq_lib::group_to_multiset_ensures;

    let m = members(s, k);
    let r = stable_sort(m);
    lemma_members(s, k);
    lemma_stable_sort_permutes(m);
    assert forall|i: int| 0 <= i < r.len() implies (#[trigger] r[i]).course.sks <= MAX_CREDITS by {
        assert(r.contains(r[i]));
        assert(r.to_multiset().count(r[i]) > 0);
        assert(m.to_multiset().count(r[i]) > 0);
        assert(m.contains(r[i]));
        let j = choose|j: int| 0 <= j < m.len() && m[j] == r[i];
        assert(slot_key(m[j].course) == k);
        assert(s.contains(m[j]));
    }
}

/// The day pass keeps the credit weights in range.
pub proof fn lemma_day_pass_fits(s: Seq<Keyed>, keys: Seq<SlotKey>)
    requires
        credits_fit(s),
    ensures
        credits_fit(day_pass(s, keys)),
    decreases keys.len(),
{
    if keys.len() > 0 {
        lemma_day_pass_fits(s, keys.drop_last());
        lemma_sorted_group_fits(s, keys.last());
        let g = stable_sort(members(s, keys.last()));
        let head = day_pass(s, keys.drop_last());
        let r = day_pass(s, keys);
        assert forall|i: int| 0 <= i < r.len() implies (#[trigger] r[i]).course.sks
            <= MAX_CREDITS by {
            if i < head.len() {
                assert(r[i] == head[i]);
            } else {
                assert(r[i] == day_packed(g)[i - head.len()]);
                assert(r[i].course.sks == g[i - head.len()].course.sks);
            }
        }
    }
}

/// Whether the course list can be decoded.
pub fn is_decodable(courses: &[CourseRequest]) -> (ok: bool)
    ensures
        ok == decodable(courses@),
{
    if courses.len() > u32::MAX as usize {
        return false;
    }
    let mut i: usize = 0;
    while i < courses.len()
        invariant
            i <= courses@.len(),
            forall|j: int| 0 <= j < i ==> (#[trigger] courses@[j]).credits_in_range(),
        decreases courses@.len() - i,
    {
        if !courses[i].has_credits_in_range() {
            return false;
        }
        i += 1;
    }
    true
}

impl PSO {
    /// Decodes a position into a timetable.
    ///
    /// Courses are grouped by study program, semester, class and session
    /// band, groups taken in the order in which they are first met. Each
    /// group is sorted by its day keys and packed into weekdays; the courses
    /// of a group that share a weekday are then sorted by their time keys
    /// and packed into the window of the band.
    pub fn position_to_schedule(position: &[i64], courses: &[CourseRequest]) -> (schedule: Vec<
        OptimizedCourse,
    >)
        requires
            decodable(courses@),
        ensures
            schedule@ == decoded(position@, courses@),
            schedule@.len() == decoded_len(position@.len(), courses@.len()),
            forall|i: int| 0 <= i < schedule@.len() ==> well_placed(#[trigger] schedule@[i]),
    {
        proof {
            lemma_decoded_len(position@, courses@);
            lemma_decoded_well_placed(position@, courses@);
        }
        let half: usize = position.len() / 2;
        let count: usize = if courses.len() <= half {
            courses.len()
        } else {
            half
        };
        let rooms = assign_rooms(courses, count);
        let mut entries: Vec<Keyed> = Vec::new();
        let mut i: usize = 0;
        while i < count
            invariant
                i <= count,
                count <= courses@.len(),
                2 * count <= position@.len() <= usize::MAX,
                count == decoded_len(position@.len(), courses@.len()),
                rooms@.len() == count,
                forall|j: int| 0 <= j < count ==> rooms@[j] == room_of(courses@, j),
                decodable(courses@),
                entries@.len() == i,
                forall|j: int| 0 <= j < i ==> entries@[j] == candidate(position@, courses@, j),
            decreases count - i,
        {
            let c = &courses[i];
            proof {
                lemma_room_range(courses@, i as int);
            }
            entries.push(
                Keyed {
                    key: position[2 * i],
                    next_key: position[2 * i + 1],
                    course: OptimizedCourse {
                        id_jadwal: c.id_jadwal,
                        id_matkul: c.id_matkul,
                        id_dosen: c.id_dosen,
                        id_kelas: c.id_kelas,
                        id_waktu: c.id_waktu,
                        hari: 0,
                        jam_mulai: 0,
                        jam_akhir: 0,
                        ruangan: rooms[i],
                        semester: c.semester,
                        sks: c.sks,
                        prodi: c.prodi,
                    },
                },
            );
            i += 1;
        }
        proof {
            assert(entries@ =~= candidates(position@, courses@));
            assert forall|j: int| 0 <= j < entries@.len() implies (#[trigger] entries@[j]).course.sks
                <= MAX_CREDITS by {
                assert(courses@[j].credits_in_range());
            }
        }

        let keys = group_keys(&entries);
        let mut scheduled: Vec<Keyed> = Vec::new();
        let mut g: usize = 0;
        while g < keys.len()
            invariant
                g <= keys.len(),
                scheduled@ == day_pass(entries@, keys@.take(g as int)),
            decreases keys.len() - g,
        {
            let group = group_members(&entries, keys[g]);
            let sorted = sort_by_key(&group);
            let mut placed = pack_days(&sorted);
            proof {
                assert(keys@.take(g + 1).drop_last() =~= keys@.take(g as int));
                assert(keys@.take(g + 1).last() == keys@[g as int]);
            }
            scheduled.append(&mut placed);
            g += 1;
        }
        proof {
            assert(keys@.take(keys.len() as int) =~= keys@);
            lemma_day_pass_fits(entries@, keys@);
        }

        let day_keys = group_keys(&scheduled);
        let mut schedule: Vec<OptimizedCourse> = Vec::new();
        let mut g: usize = 0;
        while g < day_keys.len()
            invariant
                g <= day_keys.len(),
                credits_fit(scheduled@),
                schedule@ == time_pass(scheduled@, day_keys@.take(g as int)),
            decreases day_keys.len() - g,
        {
            let group = group_members(&scheduled, day_keys[g]);
            let sorted = sort_by_key(&group);
            proof {
                lemma_sorted_group_fits(scheduled@, day_keys@[g as int]);
                assert(day_keys@.take(g + 1).drop_last() =~= day_keys@.take(g as int));
                assert(day_keys@.take(g + 1).last() == day_keys@[g as int]);
            }
            let mut placed = pack_times(&sorted, day_keys[g].id_waktu);
            schedule.append(&mut placed);
            g += 1;
        }
        proof {
            assert(day_keys@.take(day_keys.len() as int) =~= day_keys@);
        }
        schedule
    }
}

} // verus!
