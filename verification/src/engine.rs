//! Bookkeeping of a run: which fitness counts as better, when a particle or
//! the swarm adopts a new best, and when the run goes on.
//!
//! A fitness is a penalty, or `None` while nothing has been scored; `None`
//! is worse than every penalty.

use crate::checker::total_penalty;
use crate::conflicts::MAX_COURSES;
use crate::decoder::{decodable, decoded};
use crate::models::{CourseRequest, ScheduleChecker, TimePreferenceRequest, PSO};
use crate::preferences::preference_table;
use vstd::prelude::*;

verus! {

/// The place of a fitness in the order from best to worst.
pub open spec fn rank(fitness: Option<u64>) -> int {
    match fitness {
        Some(penalty) => penalty as int,
        None => u64::MAX + 1,
    }
}

/// A candidate improves on a best when it is a penalty and strictly lower.
pub open spec fn improves(candidate: Option<u64>, best: Option<u64>) -> bool {
    rank(candidate) < rank(best)
}

/// Whether a run takes another iteration: not when it was asked to stop,
/// when the iterations are used up, or when a penalty of zero was reached.
pub open spec fn goes_on(
    iteration: usize,
    max_iterations: usize,
    best: Option<u64>,
    stop_requested: bool,
) -> bool {
    !stop_requested && iteration < max_iterations && best != Some(0u64)
}

/// Whether the candidate improves on the best.
pub fn is_better(candidate: Option<u64>, best: Option<u64>) -> (yes: bool)
    ensures
        yes == improves(candidate, best),
{
    match candidate {
        None => false,
        Some(c) => match best {
            None => true,
            Some(b) => c < b,
        },
    }
}

/// What a particle knows of its scores: the length its vectors must keep,
/// its last fitness and the best it has had.
#[derive(Debug, Clone, Copy, PartialEq, Eq, Structural)]
pub struct Particle {
    pub dimension: usize,
    pub fitness: Option<u64>,
    pub pbest_fitness: Option<u64>,
}

impl Particle {
    /// A particle that has not been scored.
    pub fn new(dimension: usize) -> (particle: Self)
        ensures
            particle.dimension == dimension,
            particle.fitness is None,
            particle.pbest_fitness is None,
    {
        Particle { dimension, fitness: None, pbest_fitness: None }
    }

    /// Adopts the last fitness as the personal best when it improves on it,
    /// and says whether it did, so that the caller keeps the position too.
    pub fn update_personal_best(&mut self) -> (adopted: bool)
        ensures
            adopted == improves(old(self).fitness, old(self).pbest_fitness),
            final(self).dimension == old(self).dimension,
            final(self).fitness == old(self).fitness,
            final(self).pbest_fitness == if adopted {
                old(self).fitness
            } else {
                old(self).pbest_fitness
            },
            rank(final(self).pbest_fitness) <= rank(old(self).pbest_fitness),
    {
        if is_better(self.fitness, self.pbest_fitness) {
            self.pbest_fitness = self.fitness;
            true
        } else {
            false
        }
    }
}

/// What the action of a run is at an iteration boundary.
#[derive(Debug, Clone, Copy, PartialEq, Eq, Structural)]
pub enum Action {
    Iterate,
    Finish,
}

/// No particle before `upto` has a personal best below `level`.
pub open spec fn none_below(particles: Seq<Particle>, upto: int, level: Option<u64>) -> bool {
    forall|j: int| 0 <= j < upto ==> rank(level) <= rank((#[trigger] particles[j]).pbest_fitness)
}

impl PSO {
    /// A run over the courses that has not begun.
    pub fn new(
        courses: Vec<CourseRequest>,
        time_preferences: Vec<TimePreferenceRequest>,
        max_iterations: usize,
    ) -> (pso: Self)
        ensures
            pso.courses@ == courses@,
            pso.checker.time_preferences@ == preference_table(time_preferences@),
            pso.max_iterations == max_iterations,
            pso.iteration == 0,
            pso.global_best_fitness is None,
    {
        PSO {
            courses,
            checker: ScheduleChecker::new(time_preferences),
            max_iterations,
            iteration: 0,
            global_best_fitness: None,
        }
    }

    /// Forgets the best and the iterations of an earlier run.
    pub fn reset_optimization(&mut self)
        ensures
            final(self).courses == old(self).courses,
            final(self).checker == old(self).checker,
            final(self).max_iterations == old(self).max_iterations,
            final(self).iteration == 0,
            final(self).global_best_fitness is None,
    {
        self.iteration = 0;
        self.global_best_fitness = None;
    }

    /// Decodes a position and gives the penalty of the timetable.
    pub fn evaluate_position(&self, position: &[i64]) -> (penalty: u64)
        requires
            decodable(self.courses@),
            self.courses@.len() <= MAX_COURSES,
        ensures
            penalty == total_penalty(
                self.checker.time_preferences@,
                decoded(position@, self.courses@),
            ),
    {
        let schedule = PSO::position_to_schedule(position, self.courses.as_slice());
        self.checker.evaluate(schedule.as_slice())
    }

    /// Takes the lowest personal best of the swarm as the global best when
    /// it improves on it. Returns the first particle that holds it, so that
    /// the caller keeps that particle's best position too, or `None` when
    /// the global best stays.
    pub fn update_global_best(&mut self, particles: &Vec<Particle>) -> (holder: Option<usize>)
        ensures
            final(self).courses == old(self).courses,
            final(self).checker == old(self).checker,
            final(self).max_iterations == old(self).max_iterations,
            final(self).iteration == old(self).iteration,
            rank(final(self).global_best_fitness) <= rank(old(self).global_best_fitness),
            none_below(particles@, particles@.len() as int, final(self).global_best_fitness),
            match holder {
                Some(at) => {
                    &&& at < particles@.len()
                    &&& final(self).global_best_fitness == particles@[at as int].pbest_fitness
                    &&& improves(final(self).global_best_fitness, old(self).global_best_fitness)
                    &&& forall|j: int|
                        0 <= j < at ==> improves(
                            final(self).global_best_fitness,
                            (#[trigger] particles@[j]).pbest_fitness,
                        )
                },
                None => final(self).global_best_fitness == old(self).global_best_fitness,
            },
    {
        let mut holder: Option<usize> = None;
        let mut i: usize = 0;
        while i < particles.len()
            invariant
                i <= particles.len(),
                self.courses == old(self).courses,
                self.checker == old(self).checker,
                self.max_iterations == old(self).max_iterations,
                self.iteration == old(self).iteration,
                rank(self.global_best_fitness) <= rank(old(self).global_best_fitness),
                none_below(particles@, i as int, self.global_best_fitness),
                match holder {
                    Some(at) => {
                        &&& at < i
                        &&& self.global_best_fitness == particles@[at as int].pbest_fitness
                        &&& improves(self.global_best_fitness, old(self).global_best_fitness)
                        &&& forall|j: int|
                            0 <= j < at ==> improves(
                                self.global_best_fitness,
                                (#[trigger] particles@[j]).pbest_fitness,
                            )
                    },
                    None => self.global_best_fitness == old(self).global_best_fitness,
                },
            decreases particles.len() - i,
        {
            if is_better(particles[i].pbest_fitness, self.global_best_fitness) {
                self.global_best_fitness = particles[i].pbest_fitness;
                holder = Some(i);
            }
            i += 1;
        }
        holder
    }

    /// What the run does next, given whether it was asked to stop.
    pub fn next_action(&self, stop_requested: bool) -> (action: Action)
        ensures
            action == if goes_on(
                self.iteration,
                self.max_iterations,
                self.global_best_fitness,
                stop_requested,
            ) {
                Action::Iterate
            } else {
                Action::Finish
            },
    {
        let at_zero = match self.global_best_fitness {
            Some(penalty) => penalty == 0,
            None => false,
        };
        if !stop_requested && self.iteration < self.max_iterations && !at_zero {
            Action::Iterate
        } else {
            Action::Finish
        }
    }

    /// Counts one more iteration as done.
    pub fn complete_iteration(&mut self)
        requires
            old(self).iteration < old(self).max_iterations,
        ensures
            final(self).iteration == old(self).iteration + 1,
            final(self).courses == old(self).courses,
            final(self).checker == old(self).checker,
            final(self).max_iterations == old(self).max_iterations,
            final(self).global_best_fitness == old(self).global_best_fitness,
    {
        self.iteration = self.iteration + 1;
    }
}

/// A request to stop ends the run at the next iteration boundary, whatever
/// the state of the run.
pub proof fn lemma_stop_ends_run(iteration: usize, max_iterations: usize, best: Option<u64>)
    ensures
        !goes_on(iteration, max_iterations, best, true),
{
}

/// A run that is allowed no iteration takes none.
pub proof fn lemma_no_iterations(best: Option<u64>, stop_requested: bool)
    ensures
        !goes_on(0, 0, best, stop_requested),
{
}

/// A run takes no more iterations than it is allowed, and none once the
/// penalty is zero.
pub proof fn lemma_run_ends(iteration: usize, max_iterations: usize, best: Option<u64>, stop: bool)
    ensures
        iteration >= max_iterations ==> !goes_on(iteration, max_iterations, best, stop),
        best == Some(0u64) ==> !goes_on(iteration, max_iterations, best, stop),
{
}

} // verus!
