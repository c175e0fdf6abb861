//! A scheduler that follows a schedule handed to it from outside, typically by a fuzzer.

use vstd::prelude::*;

use crate::runtime::task::TaskId;
use crate::scheduler::data::{draw, mix, RandomDataSource, GAMMA};
use crate::scheduler::{Schedule, ScheduleStep};

verus! {

/// What a `FuzzScheduler` holds, as plain values.
pub struct FuzzView {
    /// The schedule being followed.
    pub schedule: Option<Schedule>,
    /// Whether every decision of the schedule has been taken.
    pub complete: bool,
    /// Number of decisions of the schedule taken so far.
    pub steps: usize,
    /// Seed of the data source.
    pub data_seed: u64,
    /// Values drawn from the data source so far.
    pub data_draws: nat,
}

/// A scheduler driven by a schedule from a fuzzer.
///
/// Each `Task` step of the schedule is read as a position in the list of runnable tasks (modulo
/// its length), since a fuzzer generates arbitrary numbers that would rarely name a real task.
/// When the schedule is exhausted, the first runnable task runs.
pub struct FuzzScheduler {
    schedule: Option<Schedule>,
    complete: bool,
    steps: usize,
    data_source: RandomDataSource,
}

impl View for FuzzScheduler {
    type V = FuzzView;

    closed spec fn view(&self) -> FuzzView {
        FuzzView {
            schedule: self.schedule,
            complete: self.complete,
            steps: self.steps,
            data_seed: self.data_source.seed(),
            data_draws: self.data_source.draws(),
        }
    }
}

/// The task that a schedule step picks among the runnable tasks.
pub open spec fn fuzz_pick(runnable: Seq<TaskId>, step: ScheduleStep) -> TaskId {
    match step {
        ScheduleStep::Random => runnable[0],
        ScheduleStep::Task(t) => runnable[(t.0 as int) % (runnable.len() as int)],
    }
}

/// What `next_task` does from `v`: with no schedule, nothing; once the schedule is used up, it
/// runs the first runnable task, if any; otherwise it answers by the next step of the schedule,
/// and marks the schedule complete after its last `Task` step.
pub open spec fn fuzz_next_post(v: FuzzView, rs: Seq<TaskId>, r: Option<TaskId>, w: FuzzView) -> bool {
    match v.schedule {
        None => r is None && w == v,
        Some(s) => if s.steps@.len() <= v.steps {
            &&& r == (if rs.len() > 0 { Some(rs[0]) } else { None::<TaskId> })
            &&& w == v
        } else {
            let step = s.steps@[v.steps as int];
            &&& r == Some(fuzz_pick(rs, step))
            &&& w == (FuzzView {
                steps: (v.steps + 1) as usize,
                complete: if step is Task && v.steps + 1 >= s.steps@.len() { true } else { v.complete },
                ..v
            })
        },
    }
}

/// The answer to the `j`-th call of `next_task` (counting from 0) after a schedule `steps` was
/// handed in to a scheduler that had taken no steps.
pub open spec fn fuzz_expected(steps: Seq<ScheduleStep>, j: int, rs: Seq<TaskId>) -> Option<TaskId> {
    if j >= steps.len() {
        if rs.len() > 0 { Some(rs[0]) } else { None }
    } else {
        Some(fuzz_pick(rs, steps[j]))
    }
}

/// The `j`-th call of `next_task` after a schedule was handed in to a fresh scheduler answers by
/// the `j`-th step of the schedule, or with the first runnable task once the schedule is used
/// up; the current task and `is_yielding` play no part.
pub proof fn lemma_fuzz_follows_schedule(
    views: Seq<FuzzView>,
    runnables: Seq<Seq<TaskId>>,
    answers: Seq<Option<TaskId>>,
    sch: Schedule,
)
    requires
        views.len() == runnables.len() + 1,
        answers.len() == runnables.len(),
        views[0].schedule == Some(sch),
        views[0].steps == 0,
        forall|i: int| 0 <= i < runnables.len() ==> #[trigger] fuzz_next_post(views[i], runnables[i], answers[i], views[i + 1]),
    ensures
        forall|j: int| 0 <= j < answers.len() ==> #[trigger] answers[j] == fuzz_expected(sch.steps@, j, runnables[j]),
{
    assert forall|j: int| 0 <= j < answers.len() implies #[trigger] answers[j] == fuzz_expected(sch.steps@, j, runnables[j]) by {
        lemma_fuzz_steps(views, runnables, answers, sch, j);
        assert(fuzz_next_post(views[j], runnables[j], answers[j], views[j + 1]));
    }
}

proof fn lemma_fuzz_steps(
    views: Seq<FuzzView>,
    runnables: Seq<Seq<TaskId>>,
    answers: Seq<Option<TaskId>>,
    sch: Schedule,
    j: int,
)
    requires
        views.len() == runnables.len() + 1,
        answers.len() == runnables.len(),
        views[0].schedule == Some(sch),
        views[0].steps == 0,
        forall|i: int| 0 <= i < runnables.len() ==> #[trigger] fuzz_next_post(views[i], runnables[i], answers[i], views[i + 1]),
        0 <= j < views.len(),
    ensures
        views[j].schedule == Some(sch),
        views[j].steps == if j < sch.steps@.len() { j } else { sch.steps@.len() as int },
    decreases j,
{
    if j > 0 {
        let k = j - 1;
        lemma_fuzz_steps(views, runnables, answers, sch, k);
        assert(fuzz_next_post(views[k], runnables[k], answers[k], views[k + 1]));
        lemma_fuzz_one_step(views[k], runnables[k], answers[k], views[k + 1], sch);
    }
}

proof fn lemma_fuzz_one_step(v: FuzzView, rs: Seq<TaskId>, r: Option<TaskId>, w: FuzzView, sch: Schedule)
    requires
        fuzz_next_post(v, rs, r, w),
        v.schedule == Some(sch),
        v.steps <= sch.steps@.len(),
    ensures
        w.schedule == Some(sch),
        w.steps == if v.steps < sch.steps@.len() { v.steps + 1 } else { v.steps as int },
{
    assert(sch.steps@.len() == sch.steps.len());
}

/// A `Task(t)` step picks the runnable task at position `t` modulo the number of runnable tasks,
/// so steps whose numbers agree modulo that count pick the same task; a `Random` step picks the
/// first runnable task.
pub proof fn lemma_fuzz_pick(rs: Seq<TaskId>, t: TaskId, u: TaskId)
    requires
        rs.len() > 0,
    ensures
        fuzz_pick(rs, ScheduleStep::Task(t)) == rs[(t.0 as int) % (rs.len() as int)],
        fuzz_pick(rs, ScheduleStep::Random) == rs[0],
        (t.0 as int) % (rs.len() as int) == (u.0 as int) % (rs.len() as int) ==> fuzz_pick(rs, ScheduleStep::Task(t))
            == fuzz_pick(rs, ScheduleStep::Task(u)),
        0 <= (t.0 as int) % (rs.len() as int) < rs.len(),
{
}

/// A copy of an optional schedule.
fn clone_schedule(s: &Option<Schedule>) -> (r: Option<Schedule>)
    ensures
        r is Some <==> s is Some,
        r matches Some(c) ==> c.seed == s.unwrap().seed && c.steps@ == s.unwrap().steps@,
{
    match s {
        Some(schedule) => Some(schedule.clone()),
        None => None,
    }
}

impl FuzzScheduler {
    /// The invariant that the scheduler keeps between calls.
    pub closed spec fn wf(&self) -> bool {
        self.data_source.wf()
    }

    /// A fuzz scheduler holding the empty schedule with seed 0, marked complete.
    pub fn new() -> (s: Self)
        ensures
            s.wf(),
            s@.schedule matches Some(sch) && sch.seed == 0 && sch.steps@.len() == 0,
            s@.complete,
            s@.steps == 0,
            s@.data_seed == 0,
            s@.data_draws == 0,
    {
        Self {
            schedule: Some(Schedule::new(0)),
            complete: true,
            steps: 0,
            data_source: RandomDataSource::initialize(0),
        }
    }

    /// A fuzz scheduler does not start executions by itself: executions begin with
    /// `new_execution_fuzz`. This always returns `None` and changes nothing.
    pub fn new_execution(&mut self) -> (r: Option<Schedule>)
        ensures
            r is None,
            final(self)@ == old(self)@,
            final(self).wf() == old(self).wf(),
    {
        None
    }

    /// Choose the next task by the next step of the schedule.
    pub fn next_task(&mut self, runnable: &[TaskId], current: Option<TaskId>, is_yielding: bool) -> (r: Option<TaskId>)
        requires
            old(self)@.schedule matches Some(s) && old(self)@.steps < s.steps@.len() ==> runnable@.len() > 0,
        ensures
            final(self).wf() == old(self).wf(),
            fuzz_next_post(old(self)@, runnable@, r, final(self)@),
            match old(self)@.schedule {
                Some(s) => old(self)@.steps < s.steps@.len() ==> match s.steps@[old(self)@.steps as int] {
                    ScheduleStep::Task(t) => r == Some(runnable@[(t.0 as int) % (runnable@.len() as int)]),
                    ScheduleStep::Random => r == Some(runnable@[0]),
                },
                None => r is None,
            },
    {
        match &self.schedule {
            Some(schedule) => {
                if schedule.steps.len() <= self.steps {
                    if runnable.len() > 0 {
                        return Some(runnable[0]);
                    } else {
                        return None;
                    }
                }
                match schedule.steps[self.steps] {
                    ScheduleStep::Random => {
                        self.steps = self.steps + 1;
                        Some(runnable[0])
                    }
                    ScheduleStep::Task(next) => {
                        let idx = next.0 % runnable.len();
                        let next = runnable[idx];
                        let total = schedule.steps.len();
                        self.steps = self.steps + 1;
                        if self.steps >= total {
                            self.complete = true;
                        }
                        Some(next)
                    }
                }
            }
            None => None,
        }
    }

    /// The next random value from the data source.
    pub fn next_u64(&mut self) -> (x: u64)
        requires
            old(self).wf(),
        ensures
            final(self).wf(),
            x == draw(old(self)@.data_seed, old(self)@.data_draws),
            x == mix(
                ((old(self)@.data_seed + (old(self)@.data_draws + 1) * GAMMA) % 0x1_0000_0000_0000_0000) as u64,
            ),
            final(self)@ == (FuzzView { data_draws: old(self)@.data_draws + 1, ..old(self)@ }),
    {
        self.data_source.next_u64()
    }

    /// Follow the given schedule from now on; it is returned (copied) to the caller. The count of
    /// decisions taken is not reset: the next decision reads the step at that count, so a
    /// scheduler that has already taken steps starts the new schedule past its first step.
    pub fn new_execution_fuzz(&mut self, schedule: Option<Schedule>) -> (r: Option<Schedule>)
        ensures
            final(self).wf() == old(self).wf(),
            final(self)@ == (FuzzView { schedule, complete: false, ..old(self)@ }),
            r is Some <==> schedule is Some,
            r matches Some(c) ==> c.seed == schedule.unwrap().seed && c.steps@ == schedule.unwrap().steps@,
    {
        self.schedule = schedule;
        self.complete = false;
        clone_schedule(&self.schedule)
    }
}

} // verus!
