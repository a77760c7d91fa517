//! The timetable depends on the order of the keys alone.
//!
//! Two positions whose keys compare alike, wherever two courses of one
//! group are compared, decode to the same timetable.

use crate::decoder::{candidates, day_assigned, day_pass, decoded, decoded_len, time_pass};
use crate::grouping::{distinct_keys, lemma_distinct_keys, lemma_members, members, slot_key, SlotKey};
use crate::decoder_laws::lemma_sorted_group;
use crate::models::{CourseRequest, OptimizedCourse};
use crate::packing::{day_packed, day_state, start_of, time_cursor, time_packed};
use crate::sorting::{insert_sorted, stable_sort, Keyed};
use vstd::prelude::*;

verus! {

/// Two keys compare in one sequence as their counterparts do in the other.
pub open spec fn alike(x: i64, y: i64, x2: i64, y2: i64) -> bool {
    (x <= y) == (x2 <= y2)
}

/// The entries at `i` and `j` compare alike in `s` and in `t`, by key and
/// by next key.
pub open spec fn alike_at(s: Seq<Keyed>, t: Seq<Keyed>, i: int, j: int) -> bool {
    &&& alike(s[i].key, s[j].key, t[i].key, t[j].key)
    &&& alike(s[i].next_key, s[j].next_key, t[i].next_key, t[j].next_key)
}

/// `s` and `t` hold the same courses place by place, and entries of one
/// group compare alike in both.
pub open spec fn twins(s: Seq<Keyed>, t: Seq<Keyed>) -> bool {
    &&& s.len() == t.len()
    &&& forall|i: int| 0 <= i < s.len() ==> (#[trigger] s[i]).course == t[i].course
    &&& forall|i: int, j: int|
        0 <= i < s.len() && 0 <= j < s.len() && slot_key(s[i].course) == slot_key(s[j].course)
            ==> #[trigger] alike_at(s, t, i, j)
}

/// `g` and `h` hold the same courses place by place, and all of their
/// entries compare alike in both.
pub open spec fn kin(g: Seq<Keyed>, h: Seq<Keyed>) -> bool {
    &&& g.len() == h.len()
    &&& forall|i: int| 0 <= i < g.len() ==> (#[trigger] g[i]).course == h[i].course
    &&& forall|i: int, j: int|
        0 <= i < g.len() && 0 <= j < g.len() ==> #[trigger] alike_at(g, h, i, j)
}

/// `x` stands at place `i` of `s`, and `y` at place `i` of `t`.
pub open spec fn place(s: Seq<Keyed>, t: Seq<Keyed>, i: int, x: Keyed, y: Keyed) -> bool {
    0 <= i < s.len() && s[i] == x && t[i] == y
}

/// `x` and `y` stand at one place in `s` and in `t`.
pub open spec fn paired(s: Seq<Keyed>, t: Seq<Keyed>, x: Keyed, y: Keyed) -> bool {
    exists|i: int| #[trigger] place(s, t, i, x, y)
}

/// `x` and `y` are, place by place, entries that stand at one place in `s`
/// and in `t`.
pub open spec fn drawn_from(s: Seq<Keyed>, t: Seq<Keyed>, x: Seq<Keyed>, y: Seq<Keyed>) -> bool {
    &&& x.len() == y.len()
    &&& forall|a: int| 0 <= a < x.len() ==> paired(s, t, #[trigger] x[a], y[a])
}

/// Sequences drawn from kin are kin.
pub proof fn lemma_drawn_from_kin(g: Seq<Keyed>, h: Seq<Keyed>, x: Seq<Keyed>, y: Seq<Keyed>)
    requires
        kin(g, h),
        drawn_from(g, h, x, y),
    ensures
        kin(x, y),
{
    assert forall|a: int| 0 <= a < x.len() implies (#[trigger] x[a]).course == y[a].course by {
        assert(paired(g, h, x[a], y[a]));
        let i = choose|i: int| #[trigger] place(g, h, i, x[a], y[a]);
        assert(g[i].course == h[i].course);
    }
    assert forall|a: int, b: int| 0 <= a < x.len() && 0 <= b < x.len() implies #[trigger] alike_at(
        x,
        y,
        a,
        b,
    ) by {
        assert(paired(g, h, x[a], y[a]));
        assert(paired(g, h, x[b], y[b]));
        let i = choose|i: int| #[trigger] place(g, h, i, x[a], y[a]);
        let j = choose|j: int| #[trigger] place(g, h, j, x[b], y[b]);
        assert(alike_at(g, h, i, j));
    }
}

/// Where `e` goes in `s`: behind the last entry whose key is not greater.
pub open spec fn insert_point(s: Seq<Keyed>, e: Keyed) -> int
    decreases s.len(),
{
    if s.len() == 0 {
        0
    } else if s.last().key <= e.key {
        s.len() as int
    } else {
        insert_point(s.drop_last(), e)
    }
}

/// Inserting in order is inserting at the insert point.
pub proof fn lemma_insert_point(s: Seq<Keyed>, e: Keyed)
    ensures
        0 <= insert_point(s, e) <= s.len(),
        insert_sorted(s, e) == s.insert(insert_point(s, e), e),
    decreases s.len(),
{
    if s.len() == 0 {
        assert(s.insert(0, e) =~= seq![e]);
    } else if s.last().key <= e.key {
        assert(s.insert(s.len() as int, e) =~= s.push(e));
    } else {
        lemma_insert_point(s.drop_last(), e);
        let at = insert_point(s.drop_last(), e);
        assert(s.drop_last().insert(at, e).push(s.last()) =~= s.insert(at, e));
    }
}

/// Entries that compare alike with the new entry give the same point.
pub proof fn lemma_insert_point_alike(u: Seq<Keyed>, e: Keyed, v: Seq<Keyed>, f: Keyed)
    requires
        u.len() == v.len(),
        forall|a: int| 0 <= a < u.len() ==> alike((#[trigger] u[a]).key, e.key, v[a].key, f.key),
    ensures
        insert_point(u, e) == insert_point(v, f),
    decreases u.len(),
{
    if u.len() > 0 {
        let u0 = u.drop_last();
        let v0 = v.drop_last();
        assert(alike(u[u.len() - 1].key, e.key, v[u.len() - 1].key, f.key));
        assert forall|a: int| 0 <= a < u0.len() implies alike(
            (#[trigger] u0[a]).key,
            e.key,
            v0[a].key,
            f.key,
        ) by {
            assert(u0[a] == u[a] && v0[a] == v[a]);
            assert(alike(u[a].key, e.key, v[a].key, f.key));
        }
        lemma_insert_point_alike(u0, e, v0, f);
    }
}

/// Kin are sorted alike: what comes out at one place stood at one place.
pub proof fn lemma_sort_kin(g: Seq<Keyed>, h: Seq<Keyed>)
    requires
        kin(g, h),
    ensures
        drawn_from(g, h, stable_sort(g), stable_sort(h)),
        kin(stable_sort(g), stable_sort(h)),
    decreases g.len(),
{
    if g.len() == 0 {
        assert(drawn_from(g, h, stable_sort(g), stable_sort(h)));
    } else {
        let n = g.len() - 1;
        let g0 = g.drop_last();
        let h0 = h.drop_last();
        assert(kin(g0, h0)) by {
            assert forall|i: int| 0 <= i < g0.len() implies (#[trigger] g0[i]).course
                == h0[i].course by {
                assert(g[i].course == h[i].course);
            }
            assert forall|i: int, j: int|
                0 <= i < g0.len() && 0 <= j < g0.len() implies #[trigger] alike_at(
                g0,
                h0,
                i,
                j,
            ) by {
                assert(alike_at(g, h, i, j));
            }
        }
        lemma_sort_kin(g0, h0);
        let u = stable_sort(g0);
        let v = stable_sort(h0);
        let e = g[n];
        let f = h[n];
        assert forall|a: int| 0 <= a < u.len() implies alike(
            (#[trigger] u[a]).key,
            e.key,
            v[a].key,
            f.key,
        ) by {
            assert(paired(g0, h0, u[a], v[a]));
            let i = choose|i: int| #[trigger] place(g0, h0, i, u[a], v[a]);
            assert(alike_at(g, h, i, n));
        }
        lemma_insert_point_alike(u, e, v, f);
        lemma_insert_point(u, e);
        lemma_insert_point(v, f);
        let at = insert_point(u, e);
        let x = stable_sort(g);
        let y = stable_sort(h);
        assert(x == u.insert(at, e));
        assert(y == v.insert(at, f));
        assert forall|a: int| 0 <= a < x.len() implies paired(g, h, #[trigger] x[a], y[a]) by {
            if a == at {
                assert(place(g, h, n, x[a], y[a]));
            } else {
                let b = if a < at {
                    a
                } else {
                    a - 1
                };
                assert(x[a] == u[b] && y[a] == v[b]);
                assert(paired(g0, h0, u[b], v[b]));
                let i = choose|i: int| #[trigger] place(g0, h0, i, u[b], v[b]);
                assert(place(g, h, i, x[a], y[a]));
            }
        }
        lemma_drawn_from_kin(g, h, x, y);
    }
}

proof fn lemma_twins_front(s: Seq<Keyed>, t: Seq<Keyed>)
    requires
        twins(s, t),
        s.len() > 0,
    ensures
        twins(s.drop_last(), t.drop_last()),
{
    let s0 = s.drop_last();
    let t0 = t.drop_last();
    assert forall|i: int| 0 <= i < s0.len() implies (#[trigger] s0[i]).course == t0[i].course by {
        assert(s[i].course == t[i].course);
    }
    assert forall|i: int, j: int|
        0 <= i < s0.len() && 0 <= j < s0.len() && slot_key(s0[i].course) == slot_key(
            s0[j].course,
        ) implies #[trigger] alike_at(s0, t0, i, j) by {
        assert(alike_at(s, t, i, j));
    }
}

/// Twins have the same groups, in the same order.
pub proof fn lemma_twins_keys(s: Seq<Keyed>, t: Seq<Keyed>)
    requires
        twins(s, t),
    ensures
        distinct_keys(s) == distinct_keys(t),
    decreases s.len(),
{
    if s.len() > 0 {
        lemma_twins_front(s, t);
        lemma_twins_keys(s.drop_last(), t.drop_last());
        assert(s[s.len() - 1].course == t[s.len() - 1].course);
    }
}

/// The groups of twins are kin, drawn from the twins at the same places.
pub proof fn lemma_members_kin(s: Seq<Keyed>, t: Seq<Keyed>, k: SlotKey)
    requires
        twins(s, t),
    ensures
        drawn_from(s, t, members(s, k), members(t, k)),
        kin(members(s, k), members(t, k)),
    decreases s.len(),
{
    let x = members(s, k);
    let y = members(t, k);
    if s.len() == 0 {
        assert(drawn_from(s, t, x, y));
    } else {
        let n = s.len() - 1;
        let s0 = s.drop_last();
        let t0 = t.drop_last();
        lemma_twins_front(s, t);
        lemma_members_kin(s0, t0, k);
        let x0 = members(s0, k);
        let y0 = members(t0, k);
        assert(s[n].course == t[n].course);
        assert forall|a: int| 0 <= a < x.len() implies paired(s, t, #[trigger] x[a], y[a]) by {
            if a < x0.len() {
                assert(x[a] == x0[a] && y[a] == y0[a]);
                assert(paired(s0, t0, x0[a], y0[a]));
                let i = choose|i: int| #[trigger] place(s0, t0, i, x0[a], y0[a]);
                assert(place(s, t, i, x[a], y[a]));
            } else {
                assert(place(s, t, n, x[a], y[a]));
            }
        }
    }
    lemma_members(s, k);
    assert forall|a: int| 0 <= a < x.len() implies (#[trigger] x[a]).course == y[a].course by {
        assert(paired(s, t, x[a], y[a]));
        let i = choose|i: int| #[trigger] place(s, t, i, x[a], y[a]);
        assert(s[i].course == t[i].course);
    }
    assert forall|a: int, b: int| 0 <= a < x.len() && 0 <= b < x.len() implies #[trigger] alike_at(
        x,
        y,
        a,
        b,
    ) by {
        assert(paired(s, t, x[a], y[a]));
        assert(paired(s, t, x[b], y[b]));
        let i = choose|i: int| #[trigger] place(s, t, i, x[a], y[a]);
        let j = choose|j: int| #[trigger] place(s, t, j, x[b], y[b]);
        assert(slot_key(x[a].course) == k);
        assert(slot_key(x[b].course) == k);
        assert(alike_at(s, t, i, j));
    }
}

proof fn lemma_day_state_kin(g: Seq<Keyed>, h: Seq<Keyed>, n: nat)
    requires
        kin(g, h),
        n <= g.len(),
    ensures
        day_state(g, n) == day_state(h, n),
    decreases n,
{
    if n > 0 {
        lemma_day_state_kin(g, h, (n - 1) as nat);
        assert(g[n - 1].course == h[n - 1].course);
    }
}

/// Kin are given the same weekdays, and are kin afterwards.
pub proof fn lemma_day_packed_kin(g: Seq<Keyed>, h: Seq<Keyed>)
    requires
        kin(g, h),
    ensures
        kin(day_packed(g), day_packed(h)),
{
    let x = day_packed(g);
    let y = day_packed(h);
    assert forall|i: int| 0 <= i < x.len() implies (#[trigger] x[i]).course == y[i].course by {
        lemma_day_state_kin(g, h, (i + 1) as nat);
        assert(g[i].course == h[i].course);
    }
    assert forall|i: int, j: int| 0 <= i < x.len() && 0 <= j < x.len() implies #[trigger] alike_at(
        x,
        y,
        i,
        j,
    ) by {
        assert(alike_at(g, h, i, j));
    }
}

proof fn lemma_time_cursor_kin(g: Seq<Keyed>, h: Seq<Keyed>, band: u32, n: nat)
    requires
        kin(g, h),
        n <= g.len(),
    ensures
        time_cursor(g, band, n) == time_cursor(h, band, n),
        n < g.len() ==> start_of(g, band, n as int) == start_of(h, band, n as int),
    decreases n,
{
    if n > 0 {
        lemma_time_cursor_kin(g, h, band, (n - 1) as nat);
        assert(g[n - 1].course == h[n - 1].course);
    }
    if n < g.len() {
        assert(g[n as int].course == h[n as int].course);
    }
}

/// Kin are given the same minutes.
pub proof fn lemma_time_packed_kin(g: Seq<Keyed>, h: Seq<Keyed>, band: u32)
    requires
        kin(g, h),
    ensures
        time_packed(g, band) == time_packed(h, band),
{
    let x = time_packed(g, band);
    let y = time_packed(h, band);
    assert forall|i: int| 0 <= i < x.len() implies x[i] == y[i] by {
        lemma_time_cursor_kin(g, h, band, i as nat);
        assert(g[i].course == h[i].course);
    }
    assert(x =~= y);
}

/// The time pass gives twins the same timetable.
pub proof fn lemma_time_pass_twins(s: Seq<Keyed>, t: Seq<Keyed>, keys: Seq<SlotKey>)
    requires
        twins(s, t),
    ensures
        time_pass(s, keys) == time_pass(t, keys),
    decreases keys.len(),
{
    if keys.len() > 0 {
        lemma_time_pass_twins(s, t, keys.drop_last());
        lemma_members_kin(s, t, keys.last());
        lemma_sort_kin(members(s, keys.last()), members(t, keys.last()));
        lemma_time_packed_kin(
            stable_sort(members(s, keys.last())),
            stable_sort(members(t, keys.last())),
            keys.last().id_waktu,
        );
    }
}

/// The course belongs to the group that the key names, whatever its
/// weekday.
pub open spec fn same_part(c: OptimizedCourse, k: SlotKey) -> bool {
    c.prodi == k.prodi && c.semester == k.semester && c.id_kelas == k.id_kelas && c.id_waktu
        == k.id_waktu
}

/// The course belongs to one of the groups that the keys name.
pub open spec fn in_parts(c: OptimizedCourse, keys: Seq<SlotKey>) -> bool {
    exists|g: int| 0 <= g < keys.len() && same_part(c, #[trigger] keys[g])
}

/// No two of the keys name the same group.
pub open spec fn apart(keys: Seq<SlotKey>) -> bool {
    forall|a: int, b: int|
        0 <= a < b < keys.len() ==> !(#[trigger] keys[a].prodi == #[trigger] keys[b].prodi
            && keys[a].semester == keys[b].semester && keys[a].id_kelas == keys[b].id_kelas
            && keys[a].id_waktu == keys[b].id_waktu)
}

proof fn lemma_day_pass_parts(s: Seq<Keyed>, keys: Seq<SlotKey>)
    ensures
        forall|i: int|
            0 <= i < day_pass(s, keys).len() ==> in_parts(
                (#[trigger] day_pass(s, keys)[i]).course,
                keys,
            ),
    decreases keys.len(),
{
    if keys.len() > 0 {
        let front = keys.drop_last();
        let k = keys.last();
        lemma_day_pass_parts(s, front);
        let g = stable_sort(members(s, k));
        let head = day_pass(s, front);
        let r = day_pass(s, keys);
        lemma_sorted_group(s, k);
        assert forall|i: int| 0 <= i < r.len() implies in_parts((#[trigger] r[i]).course, keys) by {
            if i < head.len() {
                assert(r[i] == head[i]);
                assert(in_parts(head[i].course, front));
                let a = choose|a: int|
                    0 <= a < front.len() && same_part(head[i].course, #[trigger] front[a]);
                assert(same_part(r[i].course, keys[a]));
            } else {
                let j = i - head.len();
                assert(r[i] == day_packed(g)[j]);
                assert(slot_key(g[j].course) == k);
                assert(same_part(r[i].course, keys[keys.len() - 1]));
            }
        }
    }
}

/// The day pass gives twins the same weekdays, and they are twins
/// afterwards.
pub proof fn lemma_day_pass_twins(s: Seq<Keyed>, t: Seq<Keyed>, keys: Seq<SlotKey>)
    requires
        twins(s, t),
        apart(keys),
    ensures
        twins(day_pass(s, keys), day_pass(t, keys)),
    decreases keys.len(),
{
    if keys.len() > 0 {
        let front = keys.drop_last();
        let k = keys.last();
        assert(apart(front)) by {
            assert forall|a: int, b: int| 0 <= a < b < front.len() implies !(
            #[trigger] front[a].prodi == #[trigger] front[b].prodi && front[a].semester
                == front[b].semester && front[a].id_kelas == front[b].id_kelas
                && front[a].id_waktu == front[b].id_waktu) by {
                assert(front[a] == keys[a] && front[b] == keys[b]);
            }
        }
        lemma_day_pass_twins(s, t, front);
        lemma_members_kin(s, t, k);
        lemma_sort_kin(members(s, k), members(t, k));
        let g = stable_sort(members(s, k));
        let h = stable_sort(members(t, k));
        lemma_day_packed_kin(g, h);
        lemma_day_pass_parts(s, front);
        lemma_sorted_group(s, k);
        let head = day_pass(s, front);
        let head2 = day_pass(t, front);
        let x = day_pass(s, keys);
        let y = day_pass(t, keys);
        let m = head.len() as int;
        assert forall|i: int| 0 <= i < x.len() implies (#[trigger] x[i]).course == y[i].course by {
            if i < m {
                assert(x[i] == head[i] && y[i] == head2[i]);
            } else {
                assert(x[i] == day_packed(g)[i - m] && y[i] == day_packed(h)[i - m]);
            }
        }
        assert forall|i: int, j: int|
            0 <= i < x.len() && 0 <= j < x.len() && slot_key(x[i].course) == slot_key(
                x[j].course,
            ) implies #[trigger] alike_at(x, y, i, j) by {
            if i < m && j < m {
                assert(x[i] == head[i] && y[i] == head2[i]);
                assert(x[j] == head[j] && y[j] == head2[j]);
                assert(alike_at(head, head2, i, j));
            } else if i >= m && j >= m {
                assert(x[i] == day_packed(g)[i - m] && y[i] == day_packed(h)[i - m]);
                assert(x[j] == day_packed(g)[j - m] && y[j] == day_packed(h)[j - m]);
                assert(alike_at(day_packed(g), day_packed(h), i - m, j - m));
            } else {
                let (lo, hi) = if i < m {
                    (i, j)
                } else {
                    (j, i)
                };
                assert(x[lo] == head[lo]);
                assert(in_parts(head[lo].course, front));
                let a = choose|a: int|
                    0 <= a < front.len() && same_part(head[lo].course, #[trigger] front[a]);
                assert(front[a] == keys[a]);
                assert(x[hi] == day_packed(g)[hi - m]);
                assert(slot_key(g[hi - m].course) == k);
                assert(same_part(x[hi].course, keys[keys.len() - 1]));
                assert(false);
            }
        }
    }
}

/// The groups of entries that have no weekday yet are apart.
pub proof fn lemma_keys_apart(s: Seq<Keyed>)
    requires
        forall|i: int| 0 <= i < s.len() ==> (#[trigger] s[i]).course.hari == 0,
    ensures
        apart(distinct_keys(s)),
{
    let keys = distinct_keys(s);
    lemma_distinct_keys(s);
    assert forall|a: int, b: int| 0 <= a < b < keys.len() implies !(#[trigger] keys[a].prodi
        == #[trigger] keys[b].prodi && keys[a].semester == keys[b].semester && keys[a].id_kelas
        == keys[b].id_kelas && keys[a].id_waktu == keys[b].id_waktu) by {
        assert(keys.contains(keys[a]));
        assert(keys.contains(keys[b]));
        let i = choose|i: int| 0 <= i < s.len() && slot_key(#[trigger] s[i].course) == keys[a];
        let j = choose|j: int| 0 <= j < s.len() && slot_key(#[trigger] s[j].course) == keys[b];
        assert(s[i].course.hari == 0 && s[j].course.hari == 0);
        assert(keys[a] != keys[b]);
    }
}

/// Two courses belong to one group: same study program, semester, class and
/// session band.
pub open spec fn same_group(a: CourseRequest, b: CourseRequest) -> bool {
    a.prodi == b.prodi && a.semester == b.semester && a.id_kelas == b.id_kelas && a.id_waktu
        == b.id_waktu
}

/// The keys of `p` and of `q` compare alike wherever two decoded courses of
/// one group are compared, by day key and by time key.
pub open spec fn same_order(p: Seq<i64>, q: Seq<i64>, courses: Seq<CourseRequest>) -> bool {
    &&& p.len() == q.len()
    &&& forall|i: int, j: int|
        0 <= i < decoded_len(p.len(), courses.len()) && 0 <= j < decoded_len(
            p.len(),
            courses.len(),
        ) && #[trigger] same_group(courses[i], courses[j]) ==> alike(
            p[2 * i],
            p[2 * j],
            q[2 * i],
            q[2 * j],
        ) && alike(p[2 * i + 1], p[2 * j + 1], q[2 * i + 1], q[2 * j + 1])
}

/// Positions whose keys stand in the same order decode to the same
/// timetable: the size of a key does not matter.
pub proof fn lemma_decoded_by_order(p: Seq<i64>, q: Seq<i64>, courses: Seq<CourseRequest>)
    requires
        same_order(p, q, courses),
    ensures
        decoded(p, courses) == decoded(q, courses),
{
    let s = candidates(p, courses);
    let t = candidates(q, courses);
    assert(twins(s, t)) by {
        assert forall|i: int, j: int|
            0 <= i < s.len() && 0 <= j < s.len() && slot_key(s[i].course) == slot_key(
                s[j].course,
            ) implies #[trigger] alike_at(s, t, i, j) by {
            assert(same_group(courses[i], courses[j]));
        }
    }
    lemma_twins_keys(s, t);
    lemma_keys_apart(s);
    lemma_day_pass_twins(s, t, distinct_keys(s));
    let d = day_assigned(p, courses);
    let e = day_assigned(q, courses);
    lemma_twins_keys(d, e);
    lemma_time_pass_twins(d, e, distinct_keys(d));
}

} // verus!
