//! The controller of independent runs: it counts the runs, keeps the best
//! fitness of each, and remembers which run was the best of all.

use crate::engine::{improves, is_better, rank};
use vstd::prelude::*;

verus! {

/// How many runs are made when the request names no number.
pub const DEFAULT_RUNS: usize = 1;

/// The runs asked for, the best fitness of each run made, the best of all
/// and the run that gave it.
#[derive(Debug, Clone)]
pub struct RunController {
    pub total_runs: usize,
    pub all_best_fitness: Vec<Option<u64>>,
    pub best_overall_fitness: Option<u64>,
    pub best_run: Option<usize>,
}

/// The best of the fitnesses before `upto`: none of them is better than
/// `best`, and `best` is the first of them that is as good, where there is
/// a penalty among them at all.
pub open spec fn best_of(runs: Seq<Option<u64>>, best: Option<u64>, holder: Option<usize>) -> bool {
    &&& forall|j: int| 0 <= j < runs.len() ==> rank(best) <= rank(#[trigger] runs[j])
    &&& match holder {
        Some(at) => {
            &&& at < runs.len()
            &&& runs[at as int] == best
            &&& best is Some
            &&& forall|j: int| 0 <= j < at ==> improves(best, #[trigger] runs[j])
        },
        None => best is None,
    }
}

impl RunController {
    /// All that the controller holds agrees: no more runs recorded than
    /// asked for, and the best of them remembered.
    pub open spec fn wf(&self) -> bool {
        &&& self.all_best_fitness@.len() <= self.total_runs
        &&& best_of(self.all_best_fitness@, self.best_overall_fitness, self.best_run)
    }

    /// A controller for `num_runs` runs, or the default where none is named.
    pub fn new(num_runs: Option<usize>) -> (controller: Self)
        ensures
            controller.wf(),
            controller.total_runs == match num_runs {
                Some(n) => n,
                None => DEFAULT_RUNS,
            },
            controller.all_best_fitness@.len() == 0,
            controller.best_overall_fitness is None,
            controller.best_run is None,
    {
        let total_runs = match num_runs {
            Some(n) => n,
            None => DEFAULT_RUNS,
        };
        RunController {
            total_runs,
            all_best_fitness: Vec::new(),
            best_overall_fitness: None,
            best_run: None,
        }
    }

    /// Whether another run starts: not once it was asked to stop, nor when
    /// all runs are done.
    pub fn should_start_run(&self, stop_requested: bool) -> (go: bool)
        ensures
            go == (!stop_requested && self.all_best_fitness@.len() < self.total_runs),
    {
        !stop_requested && self.all_best_fitness.len() < self.total_runs
    }

    /// Records the best fitness of a finished run. Says whether it is the
    /// best of all so far, so that the caller keeps that run's position.
    pub fn record_run(&mut self, fitness: Option<u64>) -> (adopted: bool)
        requires
            old(self).wf(),
            old(self).all_best_fitness@.len() < old(self).total_runs,
        ensures
            final(self).wf(),
            final(self).total_runs == old(self).total_runs,
            final(self).all_best_fitness@ == old(self).all_best_fitness@.push(fitness),
            adopted == improves(fitness, old(self).best_overall_fitness),
            final(self).best_overall_fitness == if adopted {
                fitness
            } else {
                old(self).best_overall_fitness
            },
            final(self).best_run == if adopted {
                Some(old(self).all_best_fitness@.len() as usize)
            } else {
                old(self).best_run
            },
            rank(final(self).best_overall_fitness) <= rank(old(self).best_overall_fitness),
    {
        let index = self.all_best_fitness.len();
        self.all_best_fitness.push(fitness);
        if is_better(fitness, self.best_overall_fitness) {
            self.best_overall_fitness = fitness;
            self.best_run = Some(index);
            true
        } else {
            false
        }
    }

    /// Whether any run has given a penalty: without one there is no
    /// timetable to hand out.
    pub fn has_result(&self) -> (yes: bool)
        requires
            self.wf(),
        ensures
            yes == self.best_overall_fitness is Some,
            yes == self.best_run is Some,
    {
        self.best_run.is_some()
    }
}

} // verus!
