//! Plain records exchanged between the decoder, the evaluator and callers.

use std::collections::HashMap;
use vstd::prelude::*;

verus! {

/// Largest credit weight whose session, started at the latest window start,
/// still ends at a minute that fits in `u32`.
pub const MAX_CREDITS: u32 = 107_374_155;

/// One course to be placed on the timetable.
#[derive(Debug, Clone, Copy, PartialEq, Eq, Structural)]
pub struct CourseRequest {
    pub id_jadwal: u32,
    pub id_matkul: u32,
    pub id_dosen: u32,
    pub id_waktu: u32,
    pub id_kelas: u32,
    pub semester: u32,
    pub sks: u32,
    pub prodi: u32,
}

/// A short message for the caller.
#[derive(Debug, Clone)]
pub struct Status {
    pub message: String,
}

/// What one lecturer tolerates: a flag for each weekday and half of the day.
#[derive(Debug, Clone, Copy, PartialEq, Eq, Structural)]
pub struct TimePreferenceRequest {
    pub id_dosen: u32,
    pub senin_pagi: bool,
    pub senin_malam: bool,
    pub selasa_pagi: bool,
    pub selasa_malam: bool,
    pub rabu_pagi: bool,
    pub rabu_malam: bool,
    pub kamis_pagi: bool,
    pub kamis_malam: bool,
    pub jumat_pagi: bool,
    pub jumat_malam: bool,
}

/// A course with its place on the timetable: weekday, minutes of the day, room.
#[derive(Debug, Clone, Copy, PartialEq, Eq, Structural)]
pub struct OptimizedCourse {
    pub id_jadwal: u32,
    pub id_matkul: u32,
    pub id_dosen: u32,
    pub id_kelas: u32,
    pub id_waktu: u32,
    pub hari: u32,
    pub jam_mulai: u32,
    pub jam_akhir: u32,
    pub ruangan: u32,
    pub semester: u32,
    pub sks: u32,
    pub prodi: u32,
}

/// Scores a timetable; keeps the lecturers' preferences by lecturer id.
#[derive(Debug, Clone)]
pub struct FitnessCalculator {
    pub time_preferences: HashMap<u32, TimePreferenceRequest>,
}

/// Scores a timetable and names each finding; keeps the lecturers'
/// preferences by lecturer id.
#[derive(Debug, Clone)]
pub struct ScheduleChecker {
    pub time_preferences: HashMap<u32, TimePreferenceRequest>,
}

/// One optimisation run over a fixed course list: the evaluator, the limit
/// on iterations, the iterations done and the lowest penalty met so far
/// (`None` until a particle has been scored).
#[derive(Debug, Clone)]
pub struct PSO {
    pub courses: Vec<CourseRequest>,
    pub checker: ScheduleChecker,
    pub max_iterations: usize,
    pub iteration: usize,
    pub global_best_fitness: Option<u64>,
}

/// A tally of findings, for display.
#[derive(Debug, Clone)]
pub struct ConflictInfo {
    pub group_conflicts: Vec<((u32, u32, u32), (u32, u32, u32))>,
    pub preference_conflicts: Vec<u32>,
    pub conflicts_list: Vec<String>,
    pub total_conflicts: u32,
}

impl CourseRequest {
    /// The credit weight is small enough for minute arithmetic in `u32`.
    pub open spec fn credits_in_range(&self) -> bool {
        self.sks <= MAX_CREDITS
    }

    /// Whether the credit weight is small enough for minute arithmetic in
    /// `u32`.
    pub fn has_credits_in_range(&self) -> (ok: bool)
        ensures
            ok == self.credits_in_range(),
    {
        self.sks <= MAX_CREDITS
    }
}

impl Default for ConflictInfo {
    fn default() -> (info: Self)
        ensures
            info.group_conflicts@.len() == 0,
            info.preference_conflicts@.len() == 0,
            info.conflicts_list@.len() == 0,
            info.total_conflicts == 0,
    {
        ConflictInfo {
            group_conflicts: Vec::new(),
            preference_conflicts: Vec::new(),
            conflicts_list: Vec::new(),
            total_conflicts: 0,
        }
    }
}

} // verus!
