use schedule_optimization::decoder::is_decodable;
use schedule_optimization::models::{
    CourseRequest, OptimizedCourse, ScheduleChecker, TimePreferenceRequest, MAX_CREDITS, PSO,
};

fn course(id: u32, dosen: u32, kelas: u32, waktu: u32, sks: u32) -> CourseRequest {
    CourseRequest {
        id_jadwal: id,
        id_matkul: 100 + id,
        id_dosen: dosen,
        id_waktu: waktu,
        id_kelas: kelas,
        semester: 3,
        sks,
        prodi: 7,
    }
}

fn placed(c: &CourseRequest, hari: u32, mulai: u32, akhir: u32, ruangan: u32) -> OptimizedCourse {
    OptimizedCourse {
        id_jadwal: c.id_jadwal,
        id_matkul: c.id_matkul,
        id_dosen: c.id_dosen,
        id_kelas: c.id_kelas,
        id_waktu: c.id_waktu,
        hari,
        jam_mulai: mulai,
        jam_akhir: akhir,
        ruangan,
        semester: c.semester,
        sks: c.sks,
        prodi: c.prodi,
    }
}

fn preference(id_dosen: u32, allowed: bool) -> TimePreferenceRequest {
    TimePreferenceRequest {
        id_dosen,
        senin_pagi: allowed,
        senin_malam: allowed,
        selasa_pagi: allowed,
        selasa_malam: allowed,
        rabu_pagi: allowed,
        rabu_malam: allowed,
        kamis_pagi: allowed,
        kamis_malam: allowed,
        jumat_pagi: allowed,
        jumat_malam: allowed,
    }
}

#[test]
fn single_course_is_placed_on_monday_morning() {
    let courses = vec![course(1, 10, 1, 1, 2)];
    let schedule = PSO::position_to_schedule(&[0, 0], &courses);
    assert_eq!(schedule, vec![placed(&courses[0], 1, 480, 560, 1)]);
    let checker = ScheduleChecker::new(vec![preference(10, true)]);
    assert_eq!(checker.evaluate(&schedule), 0);
}

#[test]
fn two_courses_of_one_class_do_not_collide() {
    let courses = vec![course(1, 10, 1, 1, 2), course(2, 10, 1, 1, 2)];
    let schedule = PSO::position_to_schedule(&[0, 0, 1, 1], &courses);
    assert_eq!(
        schedule,
        vec![placed(&courses[0], 1, 480, 560, 1), placed(&courses[1], 1, 560, 640, 1)]
    );
    let checker = ScheduleChecker::new(vec![preference(10, true)]);
    assert_eq!(checker.evaluate(&schedule), 0);
    assert_eq!(checker.detect_conflicts(&schedule).conflicts.len(), 0);
}

#[test]
fn five_credit_courses_spill_to_the_next_day() {
    let courses = vec![course(1, 10, 1, 1, 5), course(2, 10, 1, 1, 5)];
    let schedule = PSO::position_to_schedule(&[0, 0, 0, 0], &courses);
    assert_eq!(
        schedule,
        vec![placed(&courses[0], 1, 480, 680, 1), placed(&courses[1], 2, 480, 680, 1)]
    );
    let checker = ScheduleChecker::new(vec![]);
    assert_eq!(checker.evaluate(&schedule), 0);
}

#[test]
fn courses_beyond_the_budget_fall_back_to_friday_and_overlap() {
    let courses = vec![course(1, 10, 1, 1, 7), course(2, 11, 1, 1, 7)];
    let schedule = PSO::position_to_schedule(&[0, 0, 0, 0], &courses);
    assert_eq!(
        schedule,
        vec![placed(&courses[0], 5, 480, 760, 1), placed(&courses[1], 5, 480, 760, 1)]
    );
    let checker = ScheduleChecker::new(vec![]);
    assert_eq!(checker.detect_conflicts(&schedule).penalty, 100);
    assert_eq!(checker.check_distribution(&schedule), 800);
    assert_eq!(checker.evaluate(&schedule), 900);
}

#[test]
fn sixth_full_day_course_shares_friday() {
    let courses: Vec<CourseRequest> = (1..=6).map(|id| course(id, 20 + id, 1, 1, 6)).collect();
    let position = vec![0i64; 12];
    let schedule = PSO::position_to_schedule(&position, &courses);
    let days: Vec<u32> = schedule.iter().map(|c| c.hari).collect();
    assert_eq!(days, vec![1, 2, 3, 4, 5, 5]);
    for c in &schedule {
        assert_eq!((c.jam_mulai, c.jam_akhir), (480, 720));
    }
    let checker = ScheduleChecker::new(vec![]);
    assert_eq!(checker.evaluate(&schedule), 100 + 600);
}

#[test]
fn group_of_four_gets_three_credits_a_day() {
    let courses: Vec<CourseRequest> = (1..=4).map(|id| course(id, 10, 1, 1, 2)).collect();
    let schedule = PSO::position_to_schedule(&[3, 0, 1, 0, 2, 0, 0, 0], &courses);
    assert_eq!(
        schedule,
        vec![
            placed(&courses[3], 1, 480, 560, 1),
            placed(&courses[1], 2, 480, 560, 1),
            placed(&courses[2], 3, 480, 560, 1),
            placed(&courses[0], 4, 480, 560, 1),
        ]
    );
}

#[test]
fn group_of_three_gets_six_credits_a_day() {
    let courses: Vec<CourseRequest> = (1..=3).map(|id| course(id, 10, 1, 1, 2)).collect();
    let schedule = PSO::position_to_schedule(&[0, 0, 0, 0, 0, 0], &courses);
    assert_eq!(
        schedule,
        vec![
            placed(&courses[0], 1, 480, 560, 1),
            placed(&courses[1], 1, 560, 640, 1),
            placed(&courses[2], 1, 640, 720, 1),
        ]
    );
}

#[test]
fn day_cursor_does_not_go_back() {
    let courses = vec![
        course(1, 10, 1, 1, 4),
        course(2, 10, 1, 1, 4),
        course(3, 10, 1, 1, 1),
    ];
    let schedule = PSO::position_to_schedule(&[0, 0, 1, 0, 2, 0], &courses);
    let days: Vec<u32> = schedule.iter().map(|c| c.hari).collect();
    assert_eq!(days, vec![1, 2, 2]);
}

#[test]
fn time_keys_order_the_sessions_of_a_day() {
    let courses = vec![course(1, 10, 1, 1, 2), course(2, 11, 1, 1, 3)];
    let schedule = PSO::position_to_schedule(&[0, 5, 1, -5], &courses);
    assert_eq!(
        schedule,
        vec![placed(&courses[1], 1, 480, 600, 1), placed(&courses[0], 1, 600, 680, 1)]
    );
}

#[test]
fn equal_keys_keep_the_order_of_the_list() {
    let courses = vec![
        course(1, 10, 1, 1, 1),
        course(2, 11, 1, 1, 1),
        course(3, 12, 1, 1, 1),
    ];
    let schedule = PSO::position_to_schedule(&[7, 7, 7, 7, 7, 7], &courses);
    let ids: Vec<u32> = schedule.iter().map(|c| c.id_jadwal).collect();
    assert_eq!(ids, vec![1, 2, 3]);
    let starts: Vec<u32> = schedule.iter().map(|c| c.jam_mulai).collect();
    assert_eq!(starts, vec![480, 520, 560]);
}

#[test]
fn only_the_order_of_keys_matters() {
    let courses = vec![
        course(1, 10, 1, 1, 3),
        course(2, 11, 1, 1, 3),
        course(3, 12, 2, 2, 2),
        course(4, 13, 1, 1, 3),
    ];
    let small = PSO::position_to_schedule(&[2, 1, 0, 2, 1, 0, 1, 1], &courses);
    let large = PSO::position_to_schedule(
        &[900, -3, i64::MIN, i64::MAX, 0, -40, 0, -3],
        &courses,
    );
    assert_eq!(small, large);
}

#[test]
fn evening_band_uses_the_evening_window() {
    let courses = vec![course(1, 10, 1, 2, 3), course(2, 10, 1, 2, 3)];
    let schedule = PSO::position_to_schedule(&[0, 0, 0, 1], &courses);
    assert_eq!(
        schedule,
        vec![placed(&courses[0], 1, 1080, 1200, 1), placed(&courses[1], 1, 1200, 1320, 1)]
    );
}

#[test]
fn unknown_band_uses_the_morning_window() {
    let courses = vec![course(1, 10, 1, 9, 1)];
    let schedule = PSO::position_to_schedule(&[0, 0], &courses);
    assert_eq!(schedule, vec![placed(&courses[0], 1, 480, 520, 1)]);
}

#[test]
fn bands_of_one_class_are_packed_apart() {
    let courses = vec![course(1, 10, 1, 1, 4), course(2, 11, 1, 2, 4), course(3, 12, 1, 1, 4)];
    let schedule = PSO::position_to_schedule(&[0, 0, 0, 0, 0, 0], &courses);
    assert_eq!(
        schedule,
        vec![
            placed(&courses[0], 1, 480, 640, 1),
            placed(&courses[2], 2, 480, 640, 1),
            placed(&courses[1], 1, 1080, 1240, 1),
        ]
    );
}

#[test]
fn rooms_are_numbered_as_classes_are_first_met() {
    let mut other_program = course(4, 13, 1, 1, 1);
    other_program.prodi = 8;
    let courses = vec![
        course(1, 10, 5, 1, 1),
        course(2, 11, 6, 1, 1),
        course(3, 12, 5, 2, 1),
        other_program,
        course(5, 14, 6, 1, 1),
    ];
    let schedule = PSO::position_to_schedule(&[0; 10], &courses);
    let mut rooms: Vec<(u32, u32)> = schedule.iter().map(|c| (c.id_jadwal, c.ruangan)).collect();
    rooms.sort();
    assert_eq!(rooms, vec![(1, 1), (2, 2), (3, 1), (4, 3), (5, 2)]);
}

#[test]
fn courses_without_both_keys_are_left_out() {
    let courses = vec![course(1, 10, 1, 1, 1), course(2, 11, 1, 1, 1), course(3, 12, 1, 1, 1)];
    assert_eq!(PSO::position_to_schedule(&[0, 0, 0, 0, 0], &courses).len(), 2);
    assert_eq!(PSO::position_to_schedule(&[0, 0, 0, 0], &courses).len(), 2);
    assert_eq!(PSO::position_to_schedule(&[0], &courses).len(), 0);
    assert_eq!(PSO::position_to_schedule(&[], &courses).len(), 0);
    assert_eq!(PSO::position_to_schedule(&[0; 8], &courses).len(), 3);
}

#[test]
fn no_courses_give_an_empty_timetable() {
    let schedule = PSO::position_to_schedule(&[1, 2, 3], &[]);
    assert!(schedule.is_empty());
    let checker = ScheduleChecker::new(vec![preference(1, false)]);
    assert_eq!(checker.evaluate(&schedule), 0);
}

#[test]
fn every_session_has_a_weekday_and_its_length() {
    let courses: Vec<CourseRequest> =
        (0..40).map(|i| course(i, i % 7, i % 3, 1 + i % 2, 1 + i % 4)).collect();
    let position: Vec<i64> = (0..80).map(|i| (i * 37 % 11) as i64 - 5).collect();
    let schedule = PSO::position_to_schedule(&position, &courses);
    assert_eq!(schedule.len(), 40);
    for c in &schedule {
        assert!((1..=5).contains(&c.hari));
        assert_eq!(c.jam_akhir - c.jam_mulai, 40 * c.sks);
    }
    let mut ids: Vec<u32> = schedule.iter().map(|c| c.id_jadwal).collect();
    ids.sort();
    assert_eq!(ids, (0..40).collect::<Vec<u32>>());
}

#[test]
fn decoding_twice_gives_the_same_timetable() {
    let courses: Vec<CourseRequest> =
        (0..25).map(|i| course(i, i % 5, i % 4, 1 + i % 2, 1 + i % 3)).collect();
    let position: Vec<i64> = (0..50).map(|i| (i * 13 % 17) as i64).collect();
    assert_eq!(
        PSO::position_to_schedule(&position, &courses),
        PSO::position_to_schedule(&position, &courses)
    );
}

#[test]
fn evening_course_against_preference_costs_three_hundred() {
    let courses = vec![course(1, 10, 1, 2, 2)];
    let schedule = PSO::position_to_schedule(&[0, 0], &courses);
    assert_eq!(schedule, vec![placed(&courses[0], 1, 1080, 1160, 1)]);
    let mut p = preference(10, true);
    p.senin_malam = false;
    assert_eq!(ScheduleChecker::new(vec![p]).evaluate(&schedule), 300);
    p.senin_malam = true;
    p.senin_pagi = false;
    assert_eq!(ScheduleChecker::new(vec![p]).evaluate(&schedule), 0);
}

#[test]
fn course_lists_within_the_limits_are_decodable() {
    assert!(is_decodable(&[]));
    assert!(is_decodable(&[course(1, 1, 1, 1, 0), course(2, 1, 1, 1, MAX_CREDITS)]));
    assert!(!is_decodable(&[course(1, 1, 1, 1, 2), course(2, 1, 1, 1, MAX_CREDITS + 1)]));
    assert!(!is_decodable(&[course(1, 1, 1, 1, u32::MAX)]));
}

#[test]
fn largest_credit_weight_is_decoded() {
    let heavy = course(1, 10, 1, 2, MAX_CREDITS);
    assert!(heavy.has_credits_in_range());
    assert!(!course(1, 10, 1, 2, MAX_CREDITS + 1).has_credits_in_range());
    let schedule = PSO::position_to_schedule(&[0, 0], &[heavy]);
    assert_eq!(schedule[0].hari, 5);
    assert_eq!(schedule[0].jam_mulai, 1080);
    assert_eq!(schedule[0].jam_akhir, 1080 + 40 * MAX_CREDITS);
}
