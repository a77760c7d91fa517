//! Conflicts between pairs of sessions.
//!
//! Two sessions conflict when they share a weekday, overlap in time, and
//! belong to one lecturer or to one class. Pairs are visited row by row, each
//! course with those behind it; a pair is reported unless a pair with the
//! same two schedule ids was reported before it.

use crate::models::OptimizedCourse;
use vstd::prelude::*;

verus! {

/// Penalty for each reported pair.
pub const CONFLICT_PENALTY: u64 = 100;

/// The longest timetable whose penalties are summed without leaving `u64`.
pub const MAX_COURSES: usize = 16_777_216;

/// The two sessions share at least one minute of the day.
pub open spec fn overlap(a: OptimizedCourse, b: OptimizedCourse) -> bool {
    a.jam_mulai < b.jam_akhir && b.jam_mulai < a.jam_akhir
}

/// The two sessions belong to one class: same study program, semester and
/// class id.
pub open spec fn same_class(a: OptimizedCourse, b: OptimizedCourse) -> bool {
    a.prodi == b.prodi && a.semester == b.semester && a.id_kelas == b.id_kelas
}

/// The two sessions share a weekday, overlap, and have one lecturer or one
/// class.
pub open spec fn conflict(a: OptimizedCourse, b: OptimizedCourse) -> bool {
    a.hari == b.hari && overlap(a, b) && (a.id_dosen == b.id_dosen || same_class(a, b))
}

/// The two schedule ids of a pair, the smaller first.
pub open spec fn pair_key(a: OptimizedCourse, b: OptimizedCourse) -> (u32, u32) {
    if a.id_jadwal <= b.id_jadwal {
        (a.id_jadwal, b.id_jadwal)
    } else {
        (b.id_jadwal, a.id_jadwal)
    }
}

/// Whether one of the pairs in `found` has the schedule ids `k`.
pub open spec fn has_key(s: Seq<OptimizedCourse>, found: Seq<(usize, usize)>, k: (u32, u32)) -> bool {
    exists|p: int|
        0 <= p < found.len() && pair_key(
            s[(#[trigger] found[p]).0 as int],
            s[found[p].1 as int],
        ) == k
}

/// The pairs reported once every row before `i` is done and, in row `i`,
/// the columns before `j`.
pub open spec fn scan(s: Seq<OptimizedCourse>, i: int, j: int) -> Seq<(usize, usize)>
    decreases i, j,
{
    if i >= 0 && j > i + 1 {
        let before = scan(s, i, j - 1);
        if conflict(s[i], s[j - 1]) && !has_key(s, before, pair_key(s[i], s[j - 1])) {
            before.push((i as usize, (j - 1) as usize))
        } else {
            before
        }
    } else if i > 0 {
        scan(s, i - 1, s.len() as int)
    } else {
        Seq::empty()
    }
}

/// The pairs of positions reported for a timetable, in the order of the
/// visit.
pub open spec fn reported_pairs(s: Seq<OptimizedCourse>) -> Seq<(usize, usize)> {
    scan(s, s.len() as int, 0)
}

/// What the reported pairs cost.
pub open spec fn conflict_penalty(s: Seq<OptimizedCourse>) -> nat {
    CONFLICT_PENALTY as nat * reported_pairs(s).len()
}

/// There are no more reported pairs than pairs visited.
pub proof fn lemma_scan_len(s: Seq<OptimizedCourse>, i: int, j: int)
    requires
        0 <= i,
        0 <= j <= s.len(),
    ensures
        scan(s, i, j).len() <= i * s.len() + j,
    decreases i, j,
{
    if j > i + 1 {
        lemma_scan_len(s, i, j - 1);
    } else if i > 0 {
        lemma_scan_len(s, i - 1, s.len() as int);
        assert((i - 1) * s.len() + s.len() == i * s.len()) by (nonlinear_arith);
    }
}

/// No more pairs are reported than there are pairs of places.
pub proof fn lemma_reported_len(s: Seq<OptimizedCourse>)
    ensures
        reported_pairs(s).len() <= s.len() * s.len(),
{
    lemma_scan_len(s, s.len() as int, 0);
}

/// Whether two sessions conflict.
pub fn in_conflict(a: &OptimizedCourse, b: &OptimizedCourse) -> (yes: bool)
    ensures
        yes == conflict(*a, *b),
{
    a.hari == b.hari && a.jam_mulai < b.jam_akhir && b.jam_mulai < a.jam_akhir && (a.id_dosen
        == b.id_dosen || (a.prodi == b.prodi && a.semester == b.semester && a.id_kelas
        == b.id_kelas))
}

fn key_of_pair(a: &OptimizedCourse, b: &OptimizedCourse) -> (k: (u32, u32))
    ensures
        k == pair_key(*a, *b),
{
    if a.id_jadwal <= b.id_jadwal {
        (a.id_jadwal, b.id_jadwal)
    } else {
        (b.id_jadwal, a.id_jadwal)
    }
}

fn already_reported(schedule: &[OptimizedCourse], found: &Vec<(usize, usize)>, k: (u32, u32)) -> (yes:
    bool)
    requires
        forall|p: int|
            0 <= p < found@.len() ==> (#[trigger] found@[p]).0 < schedule@.len() && found@[p].1
                < schedule@.len(),
    ensures
        yes == has_key(schedule@, found@, k),
{
    let mut p: usize = 0;
    while p < found.len()
        invariant
            p <= found.len(),
            forall|q: int|
                0 <= q < found@.len() ==> (#[trigger] found@[q]).0 < schedule@.len()
                    && found@[q].1 < schedule@.len(),
            forall|q: int|
                0 <= q < p ==> pair_key(
                    schedule@[(#[trigger] found@[q]).0 as int],
                    schedule@[found@[q].1 as int],
                ) != k,
        decreases found.len() - p,
    {
        let (a, b) = found[p];
        let kp = key_of_pair(&schedule[a], &schedule[b]);
        if kp.0 == k.0 && kp.1 == k.1 {
            return true;
        }
        p += 1;
    }
    false
}

/// Visits every pair of sessions and lists the reported ones by position.
pub fn find_conflicts(schedule: &[OptimizedCourse]) -> (found: Vec<(usize, usize)>)
    ensures
        found@ == reported_pairs(schedule@),
        forall|p: int|
            0 <= p < found@.len() ==> (#[trigger] found@[p]).0 < found@[p].1 < schedule@.len(),
{
    let n = schedule.len();
    let mut found: Vec<(usize, usize)> = Vec::new();
    let mut i: usize = 0;
    while i < n
        invariant
            i <= n,
            n == schedule@.len(),
            found@ == scan(schedule@, i as int, 0),
            forall|p: int|
                0 <= p < found@.len() ==> (#[trigger] found@[p]).0 < found@[p].1 < n,
        decreases n - i,
    {
        let mut j: usize = i + 1;
        assert(scan(schedule@, i as int, i + 1) == scan(schedule@, i as int, 0));
        while j < n
            invariant
                i < j <= n,
                n == schedule@.len(),
                found@ == scan(schedule@, i as int, j as int),
                forall|p: int|
                    0 <= p < found@.len() ==> (#[trigger] found@[p]).0 < found@[p].1 < n,
            decreases n - j,
        {
            if in_conflict(&schedule[i], &schedule[j]) {
                let k = key_of_pair(&schedule[i], &schedule[j]);
                if !already_reported(schedule, &found, k) {
                    found.push((i, j));
                }
            }
            j += 1;
        }
        i += 1;
    }
    found
}

} // verus!
