//! Schedulers decide which task runs at every yield point of a test execution.

use vstd::prelude::*;

use crate::runtime::task::TaskId;

pub mod bounded;
pub mod complete;
pub mod data;
pub mod dfs;
pub mod explore;
pub mod fuzz;
pub mod runs;

pub use dfs::DfsScheduler;
pub use fuzz::FuzzScheduler;

verus! {

/// One decision of a schedule: run a particular task, or draw a random value.
#[derive(Clone, Copy, Debug, PartialEq, Eq, Structural)]
pub enum ScheduleStep {
    /// Run the given task.
    Task(TaskId),
    /// Produce a random value for the test.
    Random,
}

/// A schedule: the seed of the execution's data source and the decisions taken, in order.
#[derive(Debug, PartialEq, Eq)]
pub struct Schedule {
    /// Seed of the data source that served the execution's random values.
    pub seed: u64,
    /// The decisions, in the order in which they were taken.
    pub steps: Vec<ScheduleStep>,
}

impl Schedule {
    /// A schedule with the given seed and no decisions yet.
    pub fn new(seed: u64) -> (s: Self)
        ensures
            s.seed == seed,
            s.steps@ == Seq::<ScheduleStep>::empty(),
    {
        Schedule { seed, steps: Vec::new() }
    }

    /// Record that the given task was scheduled.
    pub fn push_task(&mut self, task: TaskId)
        ensures
            final(self).seed == old(self).seed,
            final(self).steps@ == old(self).steps@.push(ScheduleStep::Task(task)),
    {
        self.steps.push(ScheduleStep::Task(task));
    }

    /// Record that a random value was drawn.
    pub fn push_random(&mut self)
        ensures
            final(self).seed == old(self).seed,
            final(self).steps@ == old(self).steps@.push(ScheduleStep::Random),
    {
        self.steps.push(ScheduleStep::Random);
    }

    /// The number of decisions recorded.
    pub fn len(&self) -> (n: usize)
        ensures
            n == self.steps@.len(),
    {
        self.steps.len()
    }
}

impl Clone for Schedule {
    fn clone(&self) -> (s: Self)
        ensures
            s.seed == self.seed,
            s.steps@ == self.steps@,
    {
        let mut steps: Vec<ScheduleStep> = Vec::new();
        let n = self.steps.len();
        for i in 0..n
            invariant
                n == self.steps@.len(),
                steps@ == self.steps@.subrange(0, i as int),
        {
            steps.push(self.steps[i]);
        }
        Schedule { seed: self.seed, steps }
    }
}

} // verus!
