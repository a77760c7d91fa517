//! The lecturers' preference table and the check of one course against it.

use crate::models::{FitnessCalculator, OptimizedCourse, ScheduleChecker, TimePreferenceRequest};
use rayon::iter::{IntoParallelRefIterator, ParallelIterator};
use std::collections::HashMap;
use vstd::prelude::*;

verus! {

/// The first minute of the day that counts as evening.
pub const EVENING_FROM: u32 = 1080;

/// The table that a list of preferences stands for: by lecturer id, and where
/// a lecturer is listed more than once, the last entry.
pub open spec fn preference_table(prefs: Seq<TimePreferenceRequest>) -> Map<
    u32,
    TimePreferenceRequest,
>
    decreases prefs.len(),
{
    if prefs.len() == 0 {
        Map::empty()
    } else {
        preference_table(prefs.drop_last()).insert(prefs.last().id_dosen, prefs.last())
    }
}

/// A lecturer is in the table exactly when listed, and the entry found is the
/// last one listed for that lecturer.
pub proof fn lemma_preference_table(prefs: Seq<TimePreferenceRequest>, id: u32)
    ensures
        preference_table(prefs).dom().finite(),
        preference_table(prefs).contains_key(id) <==> exists|i: int|
            0 <= i < prefs.len() && (#[trigger] prefs[i]).id_dosen == id,
        preference_table(prefs).contains_key(id) ==> exists|i: int|
            0 <= i < prefs.len() && #[trigger] prefs[i] == preference_table(prefs)[id]
                && prefs[i].id_dosen == id && forall|j: int|
                i < j < prefs.len() ==> (#[trigger] prefs[j]).id_dosen != id,
    decreases prefs.len(),
{
    if prefs.len() > 0 {
        let t = prefs.drop_last();
        lemma_preference_table(t, id);
        let n = prefs.len() - 1;
        if prefs[n].id_dosen == id {
            assert(prefs[n] == preference_table(prefs)[id]);
        } else if preference_table(t).contains_key(id) {
            let i = choose|i: int|
                0 <= i < t.len() && #[trigger] t[i] == preference_table(t)[id] && t[i].id_dosen
                    == id && forall|j: int| i < j < t.len() ==> (#[trigger] t[j]).id_dosen != id;
            assert(prefs[i] == t[i]);
            assert forall|j: int| i < j < prefs.len() implies (#[trigger] prefs[j]).id_dosen
                != id by {
                if j < n {
                    assert(t[j] == prefs[j]);
                }
            }
        } else {
            assert forall|i: int| 0 <= i < prefs.len() implies (#[trigger] prefs[i]).id_dosen
                != id by {
                if i < n {
                    assert(t[i] == prefs[i]);
                }
            }
        }
        if exists|i: int| 0 <= i < t.len() && (#[trigger] t[i]).id_dosen == id {
            let i = choose|i: int| 0 <= i < t.len() && (#[trigger] t[i]).id_dosen == id;
            assert(prefs[i].id_dosen == id);
        }
    }
}

/// Whether a lecturer with preferences `p` tolerates a session on weekday
/// `hari` that starts at minute `start`. No weekday outside 1 to 5 is
/// tolerated.
pub open spec fn tolerates(p: TimePreferenceRequest, hari: u32, start: u32) -> bool {
    if start < EVENING_FROM {
        if hari == 1 {
            p.senin_pagi
        } else if hari == 2 {
            p.selasa_pagi
        } else if hari == 3 {
            p.rabu_pagi
        } else if hari == 4 {
            p.kamis_pagi
        } else if hari == 5 {
            p.jumat_pagi
        } else {
            false
        }
    } else {
        if hari == 1 {
            p.senin_malam
        } else if hari == 2 {
            p.selasa_malam
        } else if hari == 3 {
            p.rabu_malam
        } else if hari == 4 {
            p.kamis_malam
        } else if hari == 5 {
            p.jumat_malam
        } else {
            false
        }
    }
}

/// A course violates the table when its lecturer is listed and does not
/// tolerate the course's weekday and half of the day.
pub open spec fn violates(table: Map<u32, TimePreferenceRequest>, c: OptimizedCourse) -> bool {
    table.contains_key(c.id_dosen) && !tolerates(table[c.id_dosen], c.hari, c.jam_mulai)
}

/// Whether the lecturer tolerates a session on that weekday at that start.
pub fn tolerated(p: &TimePreferenceRequest, hari: u32, start: u32) -> (ok: bool)
    ensures
        ok == tolerates(*p, hari, start),
{
    if start < EVENING_FROM {
        match hari {
            1 => p.senin_pagi,
            2 => p.selasa_pagi,
            3 => p.rabu_pagi,
            4 => p.kamis_pagi,
            5 => p.jumat_pagi,
            _ => false,
        }
    } else {
        match hari {
            1 => p.senin_malam,
            2 => p.selasa_malam,
            3 => p.rabu_malam,
            4 => p.kamis_malam,
            5 => p.jumat_malam,
            _ => false,
        }
    }
}

/// Builds the table from the list.
pub fn build_table(prefs: Vec<TimePreferenceRequest>) -> (table: HashMap<
    u32,
    TimePreferenceRequest,
>)
    ensures
        table@ == preference_table(prefs@),
{
    broadcast use vstd::std_specs::hash::group_hash_axioms;

    let mut table: HashMap<u32, TimePreferenceRequest> = HashMap::new();
    let mut i: usize = 0;
    while i < prefs.len()
        invariant
            i <= prefs.len(),
            table@ == preference_table(prefs@.take(i as int)),
        decreases prefs.len() - i,
    {
        proof {
            assert(prefs@.take(i + 1).drop_last() =~= prefs@.take(i as int));
        }
        table.insert(prefs[i].id_dosen, prefs[i]);
        i += 1;
    }
    proof {
        assert(prefs@.take(prefs.len() as int) =~= prefs@);
    }
    table
}

/// Whether the course goes against its lecturer's listed preferences.
pub fn violates_table(table: &HashMap<u32, TimePreferenceRequest>, c: &OptimizedCourse) -> (bad:
    bool)
    ensures
        bad == violates(table@, *c),
{
    broadcast use vstd::std_specs::hash::group_hash_axioms;

    match table.get(&c.id_dosen) {
        Some(p) => !tolerated(p, c.hari, c.jam_mulai),
        None => false,
    }
}

/// Checks every session of the timetable, spread over rayon's worker
/// threads: rayon's `par_iter` on the slice, `map` with `violates_table`,
/// and `collect` into a vector. Taken on trust from rayon: the vector has one
/// answer for each session, in the order of the timetable, and each answer is
/// what `violates_table` gives for that session.
#[verifier::external_body]
pub(crate) fn flag_violations(
    table: &HashMap<u32, TimePreferenceRequest>,
    schedule: &[OptimizedCourse],
) -> (flags: Vec<bool>)
    ensures
        flags@.len() == schedule@.len(),
        forall|i: int| 0 <= i < schedule@.len() ==> flags@[i] == violates(table@, schedule@[i]),
{
    schedule.par_iter().map(|c| violates_table(table, c)).collect()
}

impl ScheduleChecker {
    /// A checker with the preferences by lecturer.
    pub fn new(time_preferences: Vec<TimePreferenceRequest>) -> (checker: Self)
        ensures
            checker.time_preferences@ == preference_table(time_preferences@),
    {
        ScheduleChecker { time_preferences: build_table(time_preferences) }
    }
}

impl FitnessCalculator {
    /// A calculator with the preferences by lecturer.
    pub fn new(time_preferences: Vec<TimePreferenceRequest>) -> (calculator: Self)
        ensures
            calculator.time_preferences@ == preference_table(time_preferences@),
    {
        FitnessCalculator { time_preferences: build_table(time_preferences) }
    }
}

} // verus!
