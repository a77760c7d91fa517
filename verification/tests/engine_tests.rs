use schedule_optimization::engine::{is_better, Action, Particle};
use schedule_optimization::models::{CourseRequest, TimePreferenceRequest, PSO};
use schedule_optimization::runs::RunController;

fn course(id: u32, dosen: u32, kelas: u32, waktu: u32, sks: u32) -> CourseRequest {
    CourseRequest {
        id_jadwal: id,
        id_matkul: 100 + id,
        id_dosen: dosen,
        id_waktu: waktu,
        id_kelas: kelas,
        semester: 1,
        sks,
        prodi: 1,
    }
}

fn evening_only(id_dosen: u32) -> TimePreferenceRequest {
    TimePreferenceRequest {
        id_dosen,
        senin_pagi: false,
        senin_malam: true,
        selasa_pagi: false,
        selasa_malam: true,
        rabu_pagi: false,
        rabu_malam: true,
        kamis_pagi: false,
        kamis_malam: true,
        jumat_pagi: false,
        jumat_malam: true,
    }
}

fn scored(fitness: Option<u64>, pbest_fitness: Option<u64>) -> Particle {
    Particle { dimension: 4, fitness, pbest_fitness }
}

/// A small generator with a seed, so that two runs can be given the same
/// draws.
struct Draws(u64);

impl Draws {
    fn next(&mut self) -> i64 {
        self.0 = self.0.wrapping_mul(6364136223846793005).wrapping_add(1442695040888963407);
        (self.0 >> 33) as i64 - (1 << 30)
    }
}

/// One run over integer keys: every particle is scored, bests are adopted,
/// then every particle takes new keys.
fn search(seed: u64, swarm: usize, max_iterations: usize, stop_after: Option<usize>) -> (PSO, Vec<i64>) {
    let courses: Vec<CourseRequest> =
        (0..12).map(|i| course(i, i % 4, i % 3, 1 + i % 2, 2 + i % 3)).collect();
    let prefs = vec![evening_only(0), evening_only(1)];
    let dimension = 2 * courses.len();
    let mut pso = PSO::new(courses, prefs, max_iterations);
    pso.reset_optimization();
    let mut draws = Draws(seed);
    let mut particles: Vec<Particle> = (0..swarm).map(|_| Particle::new(dimension)).collect();
    let mut positions: Vec<Vec<i64>> =
        (0..swarm).map(|_| (0..dimension).map(|_| draws.next()).collect()).collect();
    let mut bests = positions.clone();
    let mut global = vec![0i64; dimension];
    let mut events = 0;
    loop {
        let stop = stop_after.map_or(false, |n| events >= n);
        if pso.next_action(stop) == Action::Finish {
            break;
        }
        for (p, x) in particles.iter_mut().zip(&positions) {
            p.fitness = Some(pso.evaluate_position(x));
            let before = p.pbest_fitness;
            p.update_personal_best();
            assert!(rank(p.pbest_fitness) <= rank(before));
        }
        for (i, p) in particles.iter().enumerate() {
            if p.pbest_fitness == p.fitness {
                bests[i] = positions[i].clone();
            }
        }
        let before = pso.global_best_fitness;
        if let Some(holder) = pso.update_global_best(&particles) {
            global = bests[holder].clone();
        }
        assert!(rank(pso.global_best_fitness) <= rank(before));
        for x in positions.iter_mut() {
            for v in x.iter_mut() {
                *v = draws.next();
            }
        }
        pso.complete_iteration();
        events += 1;
    }
    (pso, global)
}

fn rank(f: Option<u64>) -> u128 {
    match f {
        Some(v) => v as u128,
        None => u64::MAX as u128 + 1,
    }
}

#[test]
fn unscored_is_worse_than_every_penalty() {
    assert!(is_better(Some(0), None));
    assert!(is_better(Some(u64::MAX), None));
    assert!(!is_better(None, None));
    assert!(!is_better(None, Some(5)));
    assert!(is_better(Some(4), Some(5)));
    assert!(!is_better(Some(5), Some(5)));
    assert!(!is_better(Some(6), Some(5)));
}

#[test]
fn new_particle_has_no_scores() {
    let p = Particle::new(24);
    assert_eq!(p, Particle { dimension: 24, fitness: None, pbest_fitness: None });
}

#[test]
fn personal_best_takes_a_strictly_lower_fitness() {
    let mut p = scored(Some(300), None);
    assert!(p.update_personal_best());
    assert_eq!(p, scored(Some(300), Some(300)));
    p.fitness = Some(300);
    assert!(!p.update_personal_best());
    p.fitness = Some(400);
    assert!(!p.update_personal_best());
    assert_eq!(p.pbest_fitness, Some(300));
    p.fitness = Some(100);
    assert!(p.update_personal_best());
    assert_eq!(p, scored(Some(100), Some(100)));
    p.fitness = None;
    assert!(!p.update_personal_best());
    assert_eq!(p, scored(None, Some(100)));
}

#[test]
fn global_best_goes_to_the_first_holder_of_the_lowest() {
    let mut pso = PSO::new(vec![], vec![], 10);
    let particles = vec![
        scored(None, Some(500)),
        scored(None, None),
        scored(None, Some(200)),
        scored(None, Some(900)),
        scored(None, Some(200)),
    ];
    assert_eq!(pso.update_global_best(&particles), Some(2));
    assert_eq!(pso.global_best_fitness, Some(200));
    assert_eq!(pso.update_global_best(&particles), None);
    assert_eq!(pso.global_best_fitness, Some(200));
    assert_eq!(pso.update_global_best(&vec![scored(None, Some(199))]), Some(0));
    assert_eq!(pso.global_best_fitness, Some(199));
    assert_eq!(pso.update_global_best(&vec![]), None);
    assert_eq!(pso.update_global_best(&vec![scored(Some(1), None)]), None);
    assert_eq!(pso.global_best_fitness, Some(199));
}

#[test]
fn run_with_no_iterations_keeps_the_initial_best() {
    let (pso, global) = search(1, 5, 0, None);
    assert_eq!(pso.iteration, 0);
    assert_eq!(pso.global_best_fitness, None);
    assert_eq!(global, vec![0i64; 24]);
    let fresh = PSO::new(vec![course(1, 1, 1, 1, 1)], vec![], 0);
    assert_eq!(fresh.next_action(false), Action::Finish);
}

#[test]
fn run_stops_at_the_iteration_limit() {
    let mut pso = PSO::new(vec![], vec![], 3);
    let mut done = 0;
    while pso.next_action(false) == Action::Iterate {
        pso.complete_iteration();
        done += 1;
    }
    assert_eq!(done, 3);
    assert_eq!(pso.iteration, 3);
}

#[test]
fn run_stops_once_the_penalty_is_zero() {
    let mut pso = PSO::new(vec![], vec![], 100);
    assert_eq!(pso.next_action(false), Action::Iterate);
    pso.update_global_best(&vec![scored(None, Some(1))]);
    assert_eq!(pso.next_action(false), Action::Iterate);
    pso.update_global_best(&vec![scored(None, Some(0))]);
    assert_eq!(pso.next_action(false), Action::Finish);
}

#[test]
fn stop_request_ends_a_long_run_after_one_event() {
    let (pso, global) = search(7, 6, 10_000, Some(1));
    assert_eq!(pso.iteration, 1);
    let best = pso.global_best_fitness.expect("one iteration was scored");
    assert_eq!(pso.evaluate_position(&global), best);
    let running = PSO::new(vec![], vec![], 10_000);
    assert_eq!(running.next_action(true), Action::Finish);
}

#[test]
fn same_seed_gives_the_same_best() {
    let (a, position_a) = search(42, 8, 30, None);
    let (b, position_b) = search(42, 8, 30, None);
    assert_eq!(a.global_best_fitness, b.global_best_fitness);
    assert_eq!(position_a, position_b);
    assert_eq!(a.iteration, b.iteration);
    assert!(a.global_best_fitness.is_some());
}

#[test]
fn reset_forgets_the_earlier_run() {
    let (mut pso, _) = search(3, 4, 5, None);
    assert!(pso.global_best_fitness.is_some());
    pso.reset_optimization();
    assert_eq!(pso.iteration, 0);
    assert_eq!(pso.global_best_fitness, None);
    assert_eq!(pso.max_iterations, 5);
    assert_eq!(pso.courses.len(), 12);
}

#[test]
fn zero_position_has_a_penalty() {
    let courses: Vec<CourseRequest> =
        (0..12).map(|i| course(i, i % 4, i % 3, 1 + i % 2, 2 + i % 3)).collect();
    let pso = PSO::new(courses.clone(), vec![evening_only(0), evening_only(1)], 1);
    let zeros = vec![0i64; 24];
    let penalty = pso.evaluate_position(&zeros);
    let schedule = PSO::position_to_schedule(&zeros, &courses);
    assert_eq!(penalty, pso.checker.evaluate(&schedule));
    assert_eq!(pso.checker.detect_conflicts(&schedule).penalty, 700);
    assert_eq!(pso.checker.check_distribution(&schedule), 0);
    assert_eq!(pso.checker.check_preferences(&schedule).penalty, 900);
    assert_eq!(penalty, 1600);
}

#[test]
fn no_courses_score_zero_at_once() {
    let mut pso = PSO::new(vec![], vec![evening_only(1)], 50);
    assert_eq!(pso.evaluate_position(&[]), 0);
    let mut p = Particle::new(0);
    p.fitness = Some(pso.evaluate_position(&[]));
    p.update_personal_best();
    assert_eq!(pso.update_global_best(&vec![p]), Some(0));
    pso.complete_iteration();
    assert_eq!(pso.next_action(false), Action::Finish);
    assert_eq!(pso.iteration, 1);
}

#[test]
fn controller_defaults_to_one_run() {
    let controller = RunController::new(None);
    assert_eq!(controller.total_runs, 1);
    assert!(controller.should_start_run(false));
    assert!(!controller.should_start_run(true));
    assert!(!controller.has_result());
    assert!(!RunController::new(Some(0)).should_start_run(false));
}

#[test]
fn controller_keeps_every_run_and_the_best() {
    let mut controller = RunController::new(Some(5));
    assert!(controller.record_run(Some(700)));
    assert!(!controller.record_run(Some(900)));
    assert!(!controller.record_run(None));
    assert!(controller.record_run(Some(300)));
    assert!(controller.should_start_run(false));
    assert!(!controller.record_run(Some(300)));
    assert!(!controller.should_start_run(false));
    assert_eq!(
        controller.all_best_fitness,
        vec![Some(700), Some(900), None, Some(300), Some(300)]
    );
    assert_eq!(controller.best_overall_fitness, Some(300));
    assert_eq!(controller.best_run, Some(3));
    assert!(controller.has_result());
}

#[test]
fn controller_cancelled_before_any_run_has_no_result() {
    let controller = RunController::new(Some(5));
    assert!(!controller.should_start_run(true));
    assert!(!controller.has_result());
    assert_eq!(controller.best_run, None);
    let mut unscored = RunController::new(Some(2));
    assert!(!unscored.record_run(None));
    assert!(!unscored.has_result());
}
