//! The evaluator: the penalty of a timetable, and the findings behind it.
//!
//! The penalty has three parts: conflicting pairs of sessions, credit hours
//! beyond the daily limit of a class, and sessions that a lecturer does not
//! tolerate. `FitnessCalculator` gives the numbers; `ScheduleChecker` also
//! names each conflicting pair and each session not tolerated.

use crate::conflicts::{
    conflict_penalty, find_conflicts, lemma_reported_len, reported_pairs, CONFLICT_PENALTY,
    MAX_COURSES,
};
use crate::models::{FitnessCalculator, OptimizedCourse, ScheduleChecker, TimePreferenceRequest};
use crate::overload::{credit_overload, overload_penalty};
use crate::preferences::{flag_violations, violates};
use crate::text::{
    class_conflict_text, describe_class_conflict, describe_lecturer_conflict, describe_preference,
    lecturer_conflict_text, preference_text,
};
use std::collections::HashMap;
use vstd::prelude::*;

verus! {

/// Penalty for each session that its lecturer does not tolerate.
pub const PREFERENCE_PENALTY: u64 = 300;

/// One conflicting pair of sessions, by schedule id, in words.
#[derive(Debug, Clone)]
pub struct ConflictMessage {
    pub jadwal_a: u32,
    pub jadwal_b: u32,
    pub deskripsi: String,
}

/// The reported pairs of conflicting sessions and what they cost.
#[derive(Debug, Clone)]
pub struct ConflictResult {
    pub penalty: u64,
    pub conflicts: Vec<ConflictMessage>,
}

/// One session that its lecturer does not tolerate, in words.
#[derive(Debug, Clone)]
pub struct PreferenceMessage {
    pub id_jadwal: u32,
    pub id_dosen: u32,
    pub hari: u32,
    pub jam_mulai: u32,
    pub deskripsi: String,
}

/// The sessions not tolerated and what they cost.
#[derive(Debug, Clone)]
pub struct PreferenceResult {
    pub penalty: u64,
    pub violations: Vec<PreferenceMessage>,
}

/// The sessions that go against the table, in the order of the timetable.
pub open spec fn violations(
    table: Map<u32, TimePreferenceRequest>,
    s: Seq<OptimizedCourse>,
) -> Seq<OptimizedCourse>
    decreases s.len(),
{
    if s.len() == 0 {
        Seq::empty()
    } else if violates(table, s.last()) {
        violations(table, s.drop_last()).push(s.last())
    } else {
        violations(table, s.drop_last())
    }
}

/// What the sessions not tolerated cost.
pub open spec fn preference_penalty(
    table: Map<u32, TimePreferenceRequest>,
    s: Seq<OptimizedCourse>,
) -> nat {
    PREFERENCE_PENALTY as nat * violations(table, s).len()
}

/// The penalty of a timetable: its three parts, summed.
pub open spec fn total_penalty(
    table: Map<u32, TimePreferenceRequest>,
    s: Seq<OptimizedCourse>,
) -> nat {
    conflict_penalty(s) + overload_penalty(s) + preference_penalty(table, s)
}

/// What is said of a conflicting pair: the lecturer where the two sessions
/// share one, else the class.
pub open spec fn conflict_text(a: OptimizedCourse, b: OptimizedCourse) -> Seq<char> {
    if a.id_dosen == b.id_dosen {
        lecturer_conflict_text(a.id_dosen)
    } else {
        class_conflict_text(a.id_kelas)
    }
}

/// The message names the pair `a`, `b` and says why it conflicts.
pub open spec fn describes_conflict(
    m: ConflictMessage,
    a: OptimizedCourse,
    b: OptimizedCourse,
) -> bool {
    &&& m.jadwal_a == a.id_jadwal
    &&& m.jadwal_b == b.id_jadwal
    &&& m.deskripsi@ == conflict_text(a, b)
}

/// The message names the session `c` and says what is not tolerated.
pub open spec fn describes_violation(m: PreferenceMessage, c: OptimizedCourse) -> bool {
    &&& m.id_jadwal == c.id_jadwal
    &&& m.id_dosen == c.id_dosen
    &&& m.hari == c.hari
    &&& m.jam_mulai == c.jam_mulai
    &&& m.deskripsi@ == preference_text(c.id_dosen, c.hari, c.jam_mulai)
}

/// The messages are those of the reported pairs, one for one and in order.
pub open spec fn conflicts_described(
    messages: Seq<ConflictMessage>,
    s: Seq<OptimizedCourse>,
) -> bool {
    &&& messages.len() == reported_pairs(s).len()
    &&& forall|p: int|
        0 <= p < messages.len() ==> describes_conflict(
            #[trigger] messages[p],
            s[reported_pairs(s)[p].0 as int],
            s[reported_pairs(s)[p].1 as int],
        )
}

/// The messages are those of the sessions not tolerated, one for one and in
/// order.
pub open spec fn violations_described(
    messages: Seq<PreferenceMessage>,
    table: Map<u32, TimePreferenceRequest>,
    s: Seq<OptimizedCourse>,
) -> bool {
    &&& messages.len() == violations(table, s).len()
    &&& forall|p: int|
        0 <= p < messages.len() ==> describes_violation(
            #[trigger] messages[p],
            violations(table, s)[p],
        )
}

proof fn lemma_conflict_penalty_bound(s: Seq<OptimizedCourse>)
    requires
        s.len() <= MAX_COURSES,
    ensures
        conflict_penalty(s) <= 100 * (16_777_216 * 16_777_216),
{
    lemma_reported_len(s);
    assert(s.len() * s.len() <= 16_777_216 * 16_777_216) by (nonlinear_arith)
        requires
            s.len() <= 16_777_216,
    ;
}

fn count_conflicts(schedule: &[OptimizedCourse]) -> (penalty: u64)
    requires
        schedule@.len() <= MAX_COURSES,
    ensures
        penalty == conflict_penalty(schedule@),
        penalty <= 100 * (16_777_216 * 16_777_216),
{
    let found = find_conflicts(schedule);
    proof {
        lemma_conflict_penalty_bound(schedule@);
    }
    CONFLICT_PENALTY * (found.len() as u64)
}

fn count_violations(table: &HashMap<u32, TimePreferenceRequest>, schedule: &[OptimizedCourse]) -> (penalty:
    u64)
    requires
        schedule@.len() <= MAX_COURSES,
    ensures
        penalty == preference_penalty(table@, schedule@),
        penalty <= 300 * 16_777_216,
{
    let flags = flag_violations(table, schedule);
    let mut count: u64 = 0;
    let mut i: usize = 0;
    while i < schedule.len()
        invariant
            i <= schedule@.len() <= MAX_COURSES,
            flags@.len() == schedule@.len(),
            forall|j: int|
                0 <= j < schedule@.len() ==> flags@[j] == violates(table@, schedule@[j]),
            count == violations(table@, schedule@.take(i as int)).len(),
            count <= i,
        decreases schedule@.len() - i,
    {
        proof {
            assert(schedule@.take(i + 1).drop_last() =~= schedule@.take(i as int));
        }
        if flags[i] {
            count = count + 1;
        }
        i += 1;
    }
    proof {
        assert(schedule@.take(schedule@.len() as int) =~= schedule@);
    }
    PREFERENCE_PENALTY * count
}

impl FitnessCalculator {
    /// The penalty of the timetable.
    pub fn calculate_fitness(&self, schedule: &[OptimizedCourse]) -> (penalty: u64)
        requires
            schedule@.len() <= MAX_COURSES,
        ensures
            penalty == total_penalty(self.time_preferences@, schedule@),
    {
        let pairs = self.detect_conflicts(schedule);
        let over = credit_overload(schedule);
        let unwanted = self.check_preferences(schedule);
        proof {
            assert(schedule@.len() * u32::MAX <= 16_777_216 * u32::MAX) by (nonlinear_arith)
                requires
                    schedule@.len() <= 16_777_216,
            ;
        }
        pairs + over + unwanted
    }

    /// The penalty for conflicting pairs of sessions.
    pub fn detect_conflicts(&self, schedule: &[OptimizedCourse]) -> (penalty: u64)
        requires
            schedule@.len() <= MAX_COURSES,
        ensures
            penalty == conflict_penalty(schedule@),
            penalty <= 100 * (16_777_216 * 16_777_216),
    {
        count_conflicts(schedule)
    }

    /// The penalty for sessions that their lecturers do not tolerate.
    pub fn check_preferences(&self, schedule: &[OptimizedCourse]) -> (penalty: u64)
        requires
            schedule@.len() <= MAX_COURSES,
        ensures
            penalty == preference_penalty(self.time_preferences@, schedule@),
            penalty <= 300 * 16_777_216,
    {
        count_violations(&self.time_preferences, schedule)
    }
}

impl ScheduleChecker {
    /// The penalty of the timetable.
    pub fn evaluate(&self, schedule: &[OptimizedCourse]) -> (penalty: u64)
        requires
            schedule@.len() <= MAX_COURSES,
        ensures
            penalty == total_penalty(self.time_preferences@, schedule@),
    {
        let pairs = count_conflicts(schedule);
        let over = credit_overload(schedule);
        let unwanted = count_violations(&self.time_preferences, schedule);
        proof {
            assert(schedule@.len() * u32::MAX <= 16_777_216 * u32::MAX) by (nonlinear_arith)
                requires
                    schedule@.len() <= 16_777_216,
            ;
        }
        pairs + over + unwanted
    }

    /// The findings of the timetable: conflicting pairs, then sessions not
    /// tolerated.
    pub fn evaluate_messages(&self, schedule: &[OptimizedCourse]) -> (messages: (
        Vec<ConflictMessage>,
        Vec<PreferenceMessage>,
    ))
        requires
            schedule@.len() <= MAX_COURSES,
        ensures
            conflicts_described(messages.0@, schedule@),
            violations_described(messages.1@, self.time_preferences@, schedule@),
    {
        let conflict_result = self.detect_conflicts(schedule);
        let preference_result = self.check_preferences(schedule);
        (conflict_result.conflicts, preference_result.violations)
    }

    /// Names every reported pair of conflicting sessions and charges each.
    pub fn detect_conflicts(&self, schedule: &[OptimizedCourse]) -> (result: ConflictResult)
        requires
            schedule@.len() <= MAX_COURSES,
        ensures
            result.penalty == conflict_penalty(schedule@),
            conflicts_described(result.conflicts@, schedule@),
    {
        let found = find_conflicts(schedule);
        let mut conflicts: Vec<ConflictMessage> = Vec::new();
        let mut p: usize = 0;
        while p < found.len()
            invariant
                p <= found.len(),
                found@ == reported_pairs(schedule@),
                forall|q: int|
                    0 <= q < found@.len() ==> (#[trigger] found@[q]).0 < found@[q].1
                        < schedule@.len(),
                conflicts@.len() == p,
                forall|q: int|
                    0 <= q < p ==> describes_conflict(
                        #[trigger] conflicts@[q],
                        schedule@[found@[q].0 as int],
                        schedule@[found@[q].1 as int],
                    ),
            decreases found.len() - p,
        {
            let (i, j) = found[p];
            let a = &schedule[i];
            let b = &schedule[j];
            let deskripsi = if a.id_dosen == b.id_dosen {
                describe_lecturer_conflict(a.id_dosen)
            } else {
                describe_class_conflict(a.id_kelas)
            };
            conflicts.push(ConflictMessage { jadwal_a: a.id_jadwal, jadwal_b: b.id_jadwal, deskripsi });
            p += 1;
        }
        proof {
            lemma_conflict_penalty_bound(schedule@);
        }
        ConflictResult { penalty: CONFLICT_PENALTY * (conflicts.len() as u64), conflicts }
    }

    /// Names every session that its lecturer does not tolerate and charges
    /// each.
    pub fn check_preferences(&self, schedule: &[OptimizedCourse]) -> (result: PreferenceResult)
        requires
            schedule@.len() <= MAX_COURSES,
        ensures
            result.penalty == preference_penalty(self.time_preferences@, schedule@),
            violations_described(result.violations@, self.time_preferences@, schedule@),
    {
        let flags = flag_violations(&self.time_preferences, schedule);
        let mut found: Vec<PreferenceMessage> = Vec::new();
        let mut i: usize = 0;
        while i < schedule.len()
            invariant
                i <= schedule@.len() <= MAX_COURSES,
                flags@.len() == schedule@.len(),
                forall|j: int|
                    0 <= j < schedule@.len() ==> flags@[j] == violates(
                        self.time_preferences@,
                        schedule@[j],
                    ),
                found@.len() <= i,
                violations_described(found@, self.time_preferences@, schedule@.take(i as int)),
            decreases schedule@.len() - i,
        {
            proof {
                assert(schedule@.take(i + 1).drop_last() =~= schedule@.take(i as int));
            }
            let c = &schedule[i];
            if flags[i] {
                found.push(
                    PreferenceMessage {
                        id_jadwal: c.id_jadwal,
                        id_dosen: c.id_dosen,
                        hari: c.hari,
                        jam_mulai: c.jam_mulai,
                        deskripsi: describe_preference(c.id_dosen, c.hari, c.jam_mulai),
                    },
                );
            }
            i += 1;
        }
        proof {
            assert(schedule@.take(schedule@.len() as int) =~= schedule@);
        }
        let count: u64 = found.len() as u64;
        assert(count <= 16_777_216);
        PreferenceResult { penalty: PREFERENCE_PENALTY * count, violations: found }
    }

    /// The penalty for credit hours beyond the daily limit of a class.
    pub fn check_distribution(&self, schedule: &[OptimizedCourse]) -> (penalty: u64)
        requires
            schedule@.len() <= MAX_COURSES,
        ensures
            penalty == overload_penalty(schedule@),
    {
        credit_overload(schedule)
    }
}

} // verus!
