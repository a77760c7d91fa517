use schedule_optimization::checker::{ConflictMessage, PreferenceMessage};
use schedule_optimization::models::{
    FitnessCalculator, OptimizedCourse, ScheduleChecker, TimePreferenceRequest,
};

fn session(id: u32, dosen: u32, kelas: u32, hari: u32, mulai: u32, akhir: u32) -> OptimizedCourse {
    OptimizedCourse {
        id_jadwal: id,
        id_matkul: 100 + id,
        id_dosen: dosen,
        id_kelas: kelas,
        id_waktu: if mulai < 1080 { 1 } else { 2 },
        hari,
        jam_mulai: mulai,
        jam_akhir: akhir,
        ruangan: kelas,
        semester: 3,
        sks: (akhir - mulai) / 40,
        prodi: 7,
    }
}

fn preference(id_dosen: u32, allowed: bool) -> TimePreferenceRequest {
    TimePreferenceRequest {
        id_dosen,
        senin_pagi: allowed,
        senin_malam: allowed,
        selasa_pagi: allowed,
        selasa_malam: allowed,
        rabu_pagi: allowed,
        rabu_malam: allowed,
        kamis_pagi: allowed,
        kamis_malam: allowed,
        jumat_pagi: allowed,
        jumat_malam: allowed,
    }
}

fn pairs(messages: &[ConflictMessage]) -> Vec<(u32, u32)> {
    messages.iter().map(|m| (m.jadwal_a, m.jadwal_b)).collect()
}

fn ids(messages: &[PreferenceMessage]) -> Vec<u32> {
    messages.iter().map(|m| m.id_jadwal).collect()
}

#[test]
fn overlapping_sessions_of_one_lecturer_conflict() {
    let schedule = vec![session(1, 10, 1, 1, 480, 560), session(2, 10, 2, 1, 520, 600)];
    let checker = ScheduleChecker::new(vec![]);
    let result = checker.detect_conflicts(&schedule);
    assert_eq!(result.penalty, 100);
    assert_eq!(pairs(&result.conflicts), vec![(1, 2)]);
    assert_eq!(
        result.conflicts[0].deskripsi,
        "Konflik dosen yang sama: dosen 10 di dua kelas berbeda."
    );
    assert_eq!(checker.evaluate(&schedule), 100);
}

#[test]
fn overlapping_sessions_of_one_class_conflict() {
    let schedule = vec![session(1, 10, 4, 2, 480, 560), session(2, 11, 4, 2, 480, 520)];
    let checker = ScheduleChecker::new(vec![]);
    let result = checker.detect_conflicts(&schedule);
    assert_eq!(result.penalty, 100);
    assert_eq!(
        result.conflicts[0].deskripsi,
        "Konflik kelas yang sama: kelas 4 di dua jadwal bersamaan."
    );
}

#[test]
fn class_identity_needs_program_semester_and_class() {
    let a = session(1, 10, 4, 2, 480, 560);
    let mut other_program = session(2, 11, 4, 2, 480, 560);
    other_program.prodi = 8;
    let mut other_semester = session(3, 12, 4, 2, 480, 560);
    other_semester.semester = 5;
    let checker = ScheduleChecker::new(vec![]);
    assert_eq!(checker.detect_conflicts(&[a, other_program, other_semester]).penalty, 0);
}

#[test]
fn sessions_that_touch_do_not_overlap() {
    let schedule = vec![session(1, 10, 1, 1, 480, 560), session(2, 10, 1, 1, 560, 640)];
    let checker = ScheduleChecker::new(vec![]);
    assert_eq!(checker.detect_conflicts(&schedule).penalty, 0);
}

#[test]
fn sessions_on_different_days_do_not_conflict() {
    let schedule = vec![session(1, 10, 1, 1, 480, 560), session(2, 10, 1, 2, 480, 560)];
    let checker = ScheduleChecker::new(vec![]);
    assert_eq!(checker.detect_conflicts(&schedule).penalty, 0);
}

#[test]
fn a_pair_of_schedule_ids_is_reported_once() {
    let schedule = vec![
        session(1, 10, 1, 1, 480, 560),
        session(2, 10, 2, 1, 480, 560),
        session(1, 10, 3, 1, 480, 560),
        session(2, 10, 4, 1, 480, 560),
    ];
    let checker = ScheduleChecker::new(vec![]);
    let result = checker.detect_conflicts(&schedule);
    assert_eq!(pairs(&result.conflicts), vec![(1, 2), (1, 1), (2, 2)]);
    assert_eq!(result.penalty, 300);
    let calculator = FitnessCalculator::new(vec![]);
    assert_eq!(calculator.detect_conflicts(&schedule), 300);
}

#[test]
fn three_overlapping_sessions_give_three_pairs() {
    let schedule = vec![
        session(1, 10, 1, 3, 480, 600),
        session(2, 10, 2, 3, 500, 620),
        session(3, 10, 3, 3, 520, 640),
    ];
    let checker = ScheduleChecker::new(vec![]);
    let result = checker.detect_conflicts(&schedule);
    assert_eq!(pairs(&result.conflicts), vec![(1, 2), (1, 3), (2, 3)]);
    assert_eq!(result.penalty, 300);
}

#[test]
fn exchanging_two_sessions_keeps_the_conflict_penalty() {
    let schedule = vec![
        session(1, 10, 1, 1, 480, 560),
        session(2, 11, 1, 1, 500, 580),
        session(3, 10, 2, 1, 540, 620),
        session(4, 12, 3, 2, 480, 560),
        session(5, 12, 4, 2, 480, 560),
    ];
    let calculator = FitnessCalculator::new(vec![preference(12, false)]);
    let before = calculator.detect_conflicts(&schedule);
    assert_eq!(before, 300);
    for a in 0..schedule.len() {
        for b in 0..schedule.len() {
            let mut exchanged = schedule.clone();
            exchanged.swap(a, b);
            assert_eq!(calculator.detect_conflicts(&exchanged), before);
            assert_eq!(
                calculator.calculate_fitness(&exchanged),
                calculator.calculate_fitness(&schedule)
            );
        }
    }
}

#[test]
fn forced_overlap_costs_conflict_and_overflow() {
    let mut a = session(1, 10, 1, 1, 480, 680);
    let mut b = session(2, 10, 1, 1, 480, 680);
    a.sks = 5;
    b.sks = 5;
    let checker = ScheduleChecker::new(vec![]);
    assert_eq!(checker.detect_conflicts(&[a, b]).penalty, 100);
    assert_eq!(checker.check_distribution(&[a, b]), 400);
    assert_eq!(checker.evaluate(&[a, b]), 500);
}

#[test]
fn credit_hours_are_summed_by_class_band_and_day() {
    let mut morning = vec![
        session(1, 10, 1, 1, 480, 600),
        session(2, 11, 1, 1, 600, 720),
        session(3, 12, 1, 1, 1080, 1200),
        session(4, 13, 1, 2, 480, 600),
        session(5, 14, 2, 1, 480, 600),
    ];
    let checker = ScheduleChecker::new(vec![]);
    assert_eq!(checker.check_distribution(&morning), 0);
    morning[2].id_waktu = 1;
    assert_eq!(checker.check_distribution(&morning), 300);
    morning[3].hari = 1;
    assert_eq!(checker.check_distribution(&morning), 600);
}

#[test]
fn seven_credits_cost_one_hundred() {
    let mut a = session(1, 10, 1, 1, 480, 640);
    a.sks = 7;
    let checker = ScheduleChecker::new(vec![]);
    assert_eq!(checker.check_distribution(&[a]), 100);
    a.sks = 6;
    assert_eq!(checker.check_distribution(&[a]), 0);
}

#[test]
fn evening_session_against_preference_costs_three_hundred() {
    let schedule = vec![session(1, 10, 1, 1, 1080, 1160)];
    let mut p = preference(10, true);
    p.senin_malam = false;
    let checker = ScheduleChecker::new(vec![p]);
    let result = checker.check_preferences(&schedule);
    assert_eq!(result.penalty, 300);
    assert_eq!(ids(&result.violations), vec![1]);
    let m = &result.violations[0];
    assert_eq!((m.id_dosen, m.hari, m.jam_mulai), (10, 1, 1080));
    assert_eq!(m.deskripsi, "Dosen 10 tidak prefer jadwal Senin malam.");
    assert_eq!(checker.evaluate(&schedule), 300);
    assert_eq!(FitnessCalculator::new(vec![p]).calculate_fitness(&schedule), 300);
}

#[test]
fn each_weekday_and_half_has_its_own_flag() {
    let starts = [480u32, 1079, 1080, 1300];
    for hari in 1..=5u32 {
        for &mulai in &starts {
            let mut p = preference(10, true);
            let evening = mulai >= 1080;
            match (hari, evening) {
                (1, false) => p.senin_pagi = false,
                (1, true) => p.senin_malam = false,
                (2, false) => p.selasa_pagi = false,
                (2, true) => p.selasa_malam = false,
                (3, false) => p.rabu_pagi = false,
                (3, true) => p.rabu_malam = false,
                (4, false) => p.kamis_pagi = false,
                (4, true) => p.kamis_malam = false,
                (5, false) => p.jumat_pagi = false,
                _ => p.jumat_malam = false,
            }
            let checker = ScheduleChecker::new(vec![p]);
            for day in 1..=5u32 {
                for &start in &starts {
                    let s = [session(1, 10, 1, day, start, start + 40)];
                    let hit = day == hari && (start >= 1080) == evening;
                    assert_eq!(checker.check_preferences(&s).penalty, if hit { 300 } else { 0 });
                }
            }
        }
    }
}

#[test]
fn preference_messages_name_day_and_half() {
    let checker = ScheduleChecker::new(vec![preference(4294967295, false)]);
    let schedule = vec![
        session(1, 4294967295, 1, 2, 480, 520),
        session(2, 4294967295, 1, 3, 1080, 1120),
        session(3, 4294967295, 1, 4, 600, 640),
        session(4, 4294967295, 1, 5, 1200, 1240),
        session(5, 4294967295, 1, 9, 600, 640),
    ];
    let result = checker.check_preferences(&schedule);
    let texts: Vec<&str> = result.violations.iter().map(|m| m.deskripsi.as_str()).collect();
    assert_eq!(
        texts,
        vec![
            "Dosen 4294967295 tidak prefer jadwal Selasa pagi.",
            "Dosen 4294967295 tidak prefer jadwal Rabu malam.",
            "Dosen 4294967295 tidak prefer jadwal Kamis pagi.",
            "Dosen 4294967295 tidak prefer jadwal Jumat malam.",
            "Dosen 4294967295 tidak prefer jadwal Hari Tidak Dikenal pagi.",
        ]
    );
    assert_eq!(result.penalty, 1500);
}

#[test]
fn lecturer_ids_are_written_in_decimal() {
    let checker = ScheduleChecker::new(vec![]);
    for id in [0u32, 7, 10, 99, 100, 1005, 4294967295] {
        let schedule = vec![session(1, id, 1, 1, 480, 560), session(2, id, 2, 1, 480, 560)];
        let result = checker.detect_conflicts(&schedule);
        assert_eq!(
            result.conflicts[0].deskripsi,
            format!("Konflik dosen yang sama: dosen {} di dua kelas berbeda.", id)
        );
    }
}

#[test]
fn lecturers_without_an_entry_are_not_constrained() {
    let schedule = vec![session(1, 10, 1, 1, 480, 560), session(2, 11, 2, 1, 480, 560)];
    let checker = ScheduleChecker::new(vec![preference(11, false)]);
    let result = checker.check_preferences(&schedule);
    assert_eq!(ids(&result.violations), vec![2]);
    assert_eq!(result.penalty, 300);
}

#[test]
fn the_last_entry_of_a_lecturer_counts() {
    let schedule = vec![session(1, 10, 1, 1, 480, 560)];
    let first_wins = ScheduleChecker::new(vec![preference(10, false), preference(10, true)]);
    assert_eq!(first_wins.check_preferences(&schedule).penalty, 0);
    let last_wins = ScheduleChecker::new(vec![preference(10, true), preference(10, false)]);
    assert_eq!(last_wins.check_preferences(&schedule).penalty, 300);
    assert_eq!(last_wins.time_preferences.len(), 1);
}

#[test]
fn the_penalty_is_the_sum_of_its_parts() {
    let mut schedule = vec![
        session(1, 10, 1, 1, 480, 640),
        session(2, 10, 1, 1, 560, 720),
        session(3, 11, 1, 1, 1080, 1160),
    ];
    schedule[2].id_waktu = 1;
    let prefs = vec![preference(11, false)];
    let checker = ScheduleChecker::new(prefs.clone());
    let calculator = FitnessCalculator::new(prefs);
    assert_eq!(checker.detect_conflicts(&schedule).penalty, 100);
    assert_eq!(checker.check_distribution(&schedule), 400);
    assert_eq!(checker.check_preferences(&schedule).penalty, 300);
    assert_eq!(checker.evaluate(&schedule), 800);
    assert_eq!(calculator.calculate_fitness(&schedule), 800);
    assert_eq!(calculator.detect_conflicts(&schedule), 100);
    assert_eq!(calculator.check_preferences(&schedule), 300);
}

#[test]
fn messages_come_without_the_penalty() {
    let schedule = vec![session(1, 10, 1, 1, 480, 560), session(2, 10, 2, 1, 480, 560)];
    let checker = ScheduleChecker::new(vec![preference(10, false)]);
    let (conflicts, violations) = checker.evaluate_messages(&schedule);
    assert_eq!(pairs(&conflicts), vec![(1, 2)]);
    assert_eq!(ids(&violations), vec![1, 2]);
}

#[test]
fn a_clean_timetable_costs_nothing() {
    let schedule = vec![
        session(1, 10, 1, 1, 480, 560),
        session(2, 10, 1, 2, 480, 560),
        session(3, 11, 2, 1, 480, 560),
    ];
    let checker = ScheduleChecker::new(vec![preference(10, true), preference(11, true)]);
    assert_eq!(checker.evaluate(&schedule), 0);
    let (conflicts, violations) = checker.evaluate_messages(&schedule);
    assert!(conflicts.is_empty() && violations.is_empty());
}
