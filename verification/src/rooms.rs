//! Room numbers: one room per class, numbered as the classes are first met.

use crate::models::CourseRequest;
use vstd::prelude::*;

verus! {

/// What identifies a class: study program, semester and class id.
#[derive(Debug, Clone, Copy, PartialEq, Eq, Structural)]
pub struct ClassKey {
    pub prodi: u32,
    pub semester: u32,
    pub id_kelas: u32,
}

/// The class of a course.
pub open spec fn class_of(c: CourseRequest) -> ClassKey {
    ClassKey { prodi: c.prodi, semester: c.semester, id_kelas: c.id_kelas }
}

/// The classes of the courses, each once, in the order of first occurrence.
pub open spec fn distinct_classes(courses: Seq<CourseRequest>) -> Seq<ClassKey>
    decreases courses.len(),
{
    if courses.len() == 0 {
        Seq::empty()
    } else {
        let before = distinct_classes(courses.drop_last());
        let k = class_of(courses.last());
        if before.contains(k) {
            before
        } else {
            before.push(k)
        }
    }
}

/// The room of course `i`: one more than the place of its class among the
/// classes met up to and including course `i`.
pub open spec fn room_of(courses: Seq<CourseRequest>, i: int) -> int {
    distinct_classes(courses.take(i + 1)).index_of(class_of(courses[i])) + 1
}

/// The classes met so far hold each class once, and the class of the last
/// course is among them.
pub proof fn lemma_distinct_classes(courses: Seq<CourseRequest>)
    ensures
        distinct_classes(courses).no_duplicates(),
        distinct_classes(courses).len() <= courses.len(),
        forall|i: int|
            0 <= i < courses.len() ==> distinct_classes(courses).contains(
                class_of(#[trigger] courses[i]),
            ),
        forall|k: ClassKey|
            distinct_classes(courses).contains(k) ==> exists|i: int|
                0 <= i < courses.len() && class_of(#[trigger] courses[i]) == k,
    decreases courses.len(),
{
    if courses.len() > 0 {
        let t = courses.drop_last();
        let before = distinct_classes(t);
        let now = distinct_classes(courses);
        lemma_distinct_classes(t);
        assert forall|i: int| 0 <= i < courses.len() implies now.contains(
            class_of(#[trigger] courses[i]),
        ) by {
            if i < t.len() {
                assert(before.contains(class_of(t[i])));
                let j = choose|j: int| 0 <= j < before.len() && before[j] == class_of(t[i]);
                assert(now[j] == class_of(courses[i]));
            } else if before.contains(class_of(courses[i])) {
            } else {
                assert(now[before.len() as int] == class_of(courses[i]));
            }
        }
        assert forall|k: ClassKey| now.contains(k) implies exists|i: int|
            0 <= i < courses.len() && class_of(#[trigger] courses[i]) == k by {
            if before.contains(k) {
                let i = choose|i: int| 0 <= i < t.len() && class_of(#[trigger] t[i]) == k;
                assert(class_of(courses[i]) == k);
            } else {
                let j = choose|j: int| 0 <= j < now.len() && now[j] == k;
                assert(j == before.len());
                assert(class_of(courses[courses.len() - 1]) == k);
            }
        }
    }
}

/// Every room number lies between 1 and the number of courses seen.
pub proof fn lemma_room_range(courses: Seq<CourseRequest>, i: int)
    requires
        0 <= i < courses.len(),
    ensures
        1 <= room_of(courses, i) <= i + 1,
{
    let seen = courses.take(i + 1);
    lemma_distinct_classes(seen);
    assert(seen[i] == courses[i]);
    assert(distinct_classes(seen).contains(class_of(seen[i])));
    let at = choose|at: int|
        0 <= at < distinct_classes(seen).len() && distinct_classes(seen)[at] == class_of(
            courses[i],
        );
    assert(0 <= distinct_classes(seen).index_of(class_of(courses[i])) < distinct_classes(
        seen,
    ).len());
}

/// The classes met among the first `n` courses are the first of the classes
/// met among all of them.
pub proof fn lemma_classes_prefix(courses: Seq<CourseRequest>, n: int)
    requires
        0 <= n <= courses.len(),
    ensures
        distinct_classes(courses.take(n)).len() <= distinct_classes(courses).len(),
        forall|j: int|
            0 <= j < distinct_classes(courses.take(n)).len() ==> #[trigger] distinct_classes(
                courses.take(n),
            )[j] == distinct_classes(courses)[j],
    decreases courses.len() - n,
{
    if n == courses.len() {
        assert(courses.take(n) =~= courses);
    } else {
        lemma_classes_prefix(courses, n + 1);
        assert(courses.take(n + 1).drop_last() =~= courses.take(n));
        let here = distinct_classes(courses.take(n));
        let next = distinct_classes(courses.take(n + 1));
        assert forall|j: int| 0 <= j < here.len() implies #[trigger] here[j] == distinct_classes(
            courses,
        )[j] by {
            assert(here[j] == next[j]);
        }
    }
}

/// The room of a course is the place of its class among the classes of the
/// whole list.
pub proof fn lemma_room_number(courses: Seq<CourseRequest>, i: int)
    requires
        0 <= i < courses.len(),
    ensures
        room_of(courses, i) == distinct_classes(courses).index_of(class_of(courses[i])) + 1,
{
    let seen = distinct_classes(courses.take(i + 1));
    let all = distinct_classes(courses);
    let k = class_of(courses[i]);
    lemma_room_range(courses, i);
    lemma_classes_prefix(courses, i + 1);
    lemma_distinct_classes(courses);
    lemma_distinct_classes(courses.take(i + 1));
    assert(courses.take(i + 1)[i] == courses[i]);
    assert(seen.contains(k));
    let at = seen.index_of(k);
    assert(seen[at] == k);
    assert(all[at] == k);
    assert(all.contains(k));
    assert(all[all.index_of(k)] == k);
}

/// Two courses have the same room exactly when they are of the same class.
pub proof fn lemma_same_room(courses: Seq<CourseRequest>, i: int, j: int)
    requires
        0 <= i < courses.len(),
        0 <= j < courses.len(),
    ensures
        room_of(courses, i) == room_of(courses, j) <==> class_of(courses[i]) == class_of(
            courses[j],
        ),
{
    let all = distinct_classes(courses);
    lemma_room_number(courses, i);
    lemma_room_number(courses, j);
    lemma_distinct_classes(courses);
    assert(all.contains(class_of(courses[i])));
    assert(all.contains(class_of(courses[j])));
    assert(all[all.index_of(class_of(courses[i]))] == class_of(courses[i]));
    assert(all[all.index_of(class_of(courses[j]))] == class_of(courses[j]));
}

fn find_class(classes: &Vec<ClassKey>, k: ClassKey) -> (found: Option<usize>)
    ensures
        match found {
            Some(at) => at < classes.len() && classes[at as int] == k,
            None => !classes@.contains(k),
        },
{
    let mut i: usize = 0;
    while i < classes.len()
        invariant
            i <= classes.len(),
            forall|j: int| 0 <= j < i ==> classes[j] != k,
        decreases classes.len() - i,
    {
        if classes[i] == k {
            return Some(i);
        }
        i += 1;
    }
    None
}

/// Numbers the rooms of the first `count` courses.
pub fn assign_rooms(courses: &[CourseRequest], count: usize) -> (rooms: Vec<u32>)
    requires
        count <= courses@.len(),
        count <= u32::MAX,
    ensures
        rooms@.len() == count,
        forall|i: int| 0 <= i < count ==> rooms@[i] == room_of(courses@, i),
{
    let mut classes: Vec<ClassKey> = Vec::new();
    let mut rooms: Vec<u32> = Vec::new();
    let mut i: usize = 0;
    while i < count
        invariant
            i <= count <= courses@.len(),
            count <= u32::MAX,
            classes@ == distinct_classes(courses@.take(i as int)),
            rooms@.len() == i,
            forall|j: int| 0 <= j < i ==> rooms@[j] == room_of(courses@, j),
        decreases count - i,
    {
        let c = &courses[i];
        let k = ClassKey { prodi: c.prodi, semester: c.semester, id_kelas: c.id_kelas };
        proof {
            assert(courses@.take(i + 1).drop_last() =~= courses@.take(i as int));
            assert(courses@.take(i + 1).last() == courses@[i as int]);
            lemma_distinct_classes(courses@.take(i + 1));
            lemma_distinct_classes(courses@.take(i as int));
        }
        let at: usize = match find_class(&classes, k) {
            Some(at) => at,
            None => {
                classes.push(k);
                classes.len() - 1
            },
        };
        proof {
            assert(classes@ == distinct_classes(courses@.take(i + 1)));
            assert(classes@[at as int] == k);
            assert(classes@.contains(k));
            assert(classes@[classes@.index_of(k)] == k);
        }
        rooms.push((at + 1) as u32);
        i += 1;
    }
    rooms
}

} // verus!
