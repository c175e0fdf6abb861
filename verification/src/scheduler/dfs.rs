//! Exhaustive, depth-first enumeration of schedules.

use vstd::prelude::*;

use crate::runtime::task::TaskId;
use crate::scheduler::data::{draw, mix, FixedDataSource, GAMMA};
use crate::scheduler::Schedule;

verus! {

/// Seed of the data source that every DFS execution starts from.
pub const DFS_RANDOM_SEED: u64 = 0x12345678;

/// What a `DfsScheduler` holds, as plain values.
pub struct DfsView {
    /// Stop after this many executions, if set.
    pub max_iterations: Option<usize>,
    /// Explore only schedules with at most this many preemptions, if set.
    pub max_preemptions: Option<usize>,
    /// Whether the test may draw random values.
    pub allow_random_data: bool,
    /// Number of executions started so far.
    pub iterations: usize,
    /// For each decision of the current schedule: the task chosen, and whether it was the last
    /// choice available at that decision.
    pub levels: Seq<(TaskId, bool)>,
    /// Number of decisions taken in the current execution.
    pub steps: usize,
    /// The decision at which the current execution departs from the previous one.
    pub next_change_level: Option<usize>,
    /// Number of preemptions in the current execution.
    pub preemptions: usize,
    /// Seed of the data source.
    pub data_seed: u64,
    /// Values drawn from the data source in the current execution.
    pub data_draws: nat,
}

/// `l` is the deepest decision of `levels` at which another choice remains.
pub open spec fn is_last_pending(levels: Seq<(TaskId, bool)>, l: int) -> bool {
    &&& 0 <= l < levels.len()
    &&& !levels[l].1
    &&& forall|j: int| l < j < levels.len() ==> #[trigger] levels[j].1
}

/// No decision of `levels` has another choice left.
pub open spec fn none_pending(levels: Seq<(TaskId, bool)>) -> bool {
    forall|j: int| 0 <= j < levels.len() ==> #[trigger] levels[j].1
}

/// The position of the first occurrence of `t` in `s` (meaningful when `s` contains `t`).
pub open spec fn first_position(s: Seq<TaskId>, t: TaskId) -> int {
    choose|i: int| 0 <= i < s.len() && s[i] == t && forall|j: int| 0 <= j < i ==> s[j] != t
}

/// Whether a switch from `current` to `next` preempts `current`: it could have gone on running.
pub open spec fn is_preemption(runnable: Seq<TaskId>, current: Option<TaskId>, next: TaskId) -> bool {
    current matches Some(c) && c != next && runnable.contains(c)
}

/// Whether a decision reached for the first time must keep the current task running: the
/// preemption bound is reached and the current task can still run, so any other choice would be
/// one preemption too many.
pub open spec fn forces_current(v: DfsView, runnable: Seq<TaskId>, current: Option<TaskId>) -> bool {
    &&& v.max_preemptions matches Some(mp) && v.preemptions >= mp
    &&& current matches Some(c) && runnable.contains(c)
}

/// The choice that `next_task` makes at a decision reached for the first time: the current task
/// when it is forced, else the first runnable task.
pub open spec fn fresh_choice(v: DfsView, runnable: Seq<TaskId>, current: Option<TaskId>) -> TaskId {
    if forces_current(v, runnable, current) {
        current.unwrap()
    } else {
        runnable[0]
    }
}

/// Whether a decision reached for the first time has no other choice to explore later: the
/// current task is forced, or only one task can run. Once the bound is reached and the current
/// task cannot run, switching to any runnable task is no preemption, so the others are explored.
pub open spec fn fresh_is_last(v: DfsView, runnable: Seq<TaskId>, current: Option<TaskId>) -> bool {
    forces_current(v, runnable, current) || runnable.len() == 1
}

/// The task that `next_task` runs: at a decision reached for the first time, the fresh choice;
/// at the decision where this execution departs from the previous one, the runnable task after
/// the earlier choice; at any other recorded decision, the earlier choice again.
pub open spec fn dfs_choice(v: DfsView, rs: Seq<TaskId>, current: Option<TaskId>) -> TaskId {
    if v.steps >= v.levels.len() {
        fresh_choice(v, rs, current)
    } else if v.next_change_level == Some(v.steps) {
        rs[first_position(rs, v.levels[v.steps as int].0) + 1]
    } else {
        v.levels[v.steps as int].0
    }
}

/// The decisions recorded after `next_task`: a fresh decision is appended; at the departing
/// decision the deeper ones are forgotten and the new choice recorded; otherwise nothing changes.
pub open spec fn dfs_levels_after(v: DfsView, rs: Seq<TaskId>, current: Option<TaskId>) -> Seq<(TaskId, bool)> {
    if v.steps >= v.levels.len() {
        v.levels.push((fresh_choice(v, rs, current), fresh_is_last(v, rs, current)))
    } else if v.next_change_level == Some(v.steps) {
        let idx = first_position(rs, v.levels[v.steps as int].0) + 1;
        v.levels.subrange(0, v.steps as int).push((rs[idx], idx == rs.len() - 1))
    } else {
        v.levels
    }
}

/// The view after `next_task`: one more decision, and one more preemption if the choice preempts
/// the current task.
pub open spec fn dfs_step(v: DfsView, rs: Seq<TaskId>, current: Option<TaskId>) -> DfsView {
    let next = dfs_choice(v, rs, current);
    DfsView {
        levels: dfs_levels_after(v, rs, current),
        steps: (v.steps + 1) as usize,
        preemptions: (v.preemptions + if is_preemption(rs, current, next) { 1int } else { 0int }) as usize,
        ..v
    }
}

/// The view after `new_execution` starts another execution.
pub open spec fn restarted(v: DfsView, change: Option<usize>) -> DfsView {
    DfsView {
        iterations: (v.iterations + 1) as usize,
        steps: 0,
        preemptions: 0,
        next_change_level: change,
        data_draws: 0,
        ..v
    }
}

/// What `new_execution` does from `v`: nothing, once `max_iterations` executions have started;
/// otherwise it finds the deepest decision with another choice left and starts another execution
/// that departs there (or the first execution), returning a fresh schedule, or returns `None`
/// when no decision has another choice left.
pub open spec fn new_execution_post(v: DfsView, r: Option<Schedule>, w: DfsView) -> bool {
    if v.max_iterations matches Some(mi) && v.iterations >= mi {
        r is None && w == v
    } else {
        &&& (w.next_change_level matches Some(l) ==> is_last_pending(v.levels, l as int))
        &&& (w.next_change_level is None ==> none_pending(v.levels))
        &&& if w.next_change_level is Some || v.iterations == 0 {
            &&& w == restarted(v, w.next_change_level)
            &&& r matches Some(s) && s.seed == v.data_seed && s.steps@.len() == 0
        } else {
            &&& r is None
            &&& w == (DfsView { next_change_level: None, ..v })
        }
    }
}

/// The task that the next decision runs, case by case: at a decision reached for the first time,
/// the first runnable task, unless the preemption bound is reached and the current task can still
/// run, which then goes on running; at a decision recorded earlier, the earlier choice again,
/// except at the departing decision, where the runnable task just after the first occurrence of
/// the earlier choice runs.
pub open spec fn dfs_choice_cases(v: DfsView, runnable: Seq<TaskId>, current: Option<TaskId>, r: Option<TaskId>) -> bool {
    let bound_hit = v.max_preemptions matches Some(mp) && v.preemptions >= mp;
    let current_can_run = current matches Some(c) && runnable.contains(c);
    &&& v.steps >= v.levels.len() && !(bound_hit && current_can_run) ==> r == Some(runnable[0])
    &&& v.steps >= v.levels.len() && bound_hit && current_can_run ==> r == current
    &&& v.steps < v.levels.len() && v.next_change_level != Some(v.steps) ==> r == Some(v.levels[v.steps as int].0)
    &&& v.steps < v.levels.len() && v.next_change_level == Some(v.steps) ==> exists|i: int|
        0 <= i < runnable.len() - 1 && #[trigger] runnable[i] == v.levels[v.steps as int].0 && r == Some(runnable[i + 1])
            && forall|j: int| 0 <= j < i ==> runnable[j] != v.levels[v.steps as int].0
}

/// The choice that `next_task` makes agrees with the case-by-case description of
/// `dfs_choice_cases`, whenever the requirements of `next_task` hold.
pub proof fn lemma_dfs_choice_cases(v: DfsView, rs: Seq<TaskId>, current: Option<TaskId>)
    requires
        v.steps >= v.levels.len() ==> rs.len() > 0,
        (v.steps < v.levels.len() && v.next_change_level == Some(v.steps)) ==> {
            &&& rs.contains(v.levels[v.steps as int].0)
            &&& first_position(rs, v.levels[v.steps as int].0) + 1 < rs.len()
        },
    ensures
        dfs_choice_cases(v, rs, current, Some(dfs_choice(v, rs, current))),
{
    if v.steps < v.levels.len() && v.next_change_level == Some(v.steps) {
        let t = v.levels[v.steps as int].0;
        let k = choose|k: int| 0 <= k < rs.len() && rs[k] == t;
        lemma_first_position_exists(rs, t, k);
        let i = first_position(rs, t);
        assert(0 <= i < rs.len() - 1 && rs[i] == t && Some(dfs_choice(v, rs, current)) == Some(rs[i + 1]));
    }
}

/// The first occurrence of a task that occurs at `k` exists.
proof fn lemma_first_position_exists(s: Seq<TaskId>, t: TaskId, k: int)
    requires
        0 <= k < s.len(),
        s[k] == t,
    ensures
        ({
            let i = first_position(s, t);
            0 <= i < s.len() && s[i] == t && forall|j: int| 0 <= j < i ==> s[j] != t
        }),
    decreases k,
{
    if exists|j: int| 0 <= j < k && s[j] == t {
        let j = choose|j: int| 0 <= j < k && s[j] == t;
        lemma_first_position_exists(s, t, j);
    } else {
        assert(0 <= k < s.len() && s[k] == t && forall|j: int| 0 <= j < k ==> s[j] != t);
    }
}

/// Whether `t` occurs in `s`.
fn slice_contains(s: &[TaskId], t: TaskId) -> (b: bool)
    ensures
        b == s@.contains(t),
{
    let n = s.len();
    for i in 0..n
        invariant
            n == s@.len(),
            forall|j: int| 0 <= j < i ==> s@[j] != t,
    {
        if s[i] == t {
            assert(s@[i as int] == t);
            return true;
        }
    }
    false
}

/// The position of the first occurrence of `t` in `s`.
fn slice_position(s: &[TaskId], t: TaskId) -> (i: usize)
    requires
        s@.contains(t),
    ensures
        i == first_position(s@, t),
        i < s@.len(),
        s@[i as int] == t,
{
    let n = s.len();
    let mut i: usize = 0;
    while i < n
        invariant
            n == s@.len(),
            i <= n,
            s@.contains(t),
            forall|j: int| 0 <= j < i ==> s@[j] != t,
        decreases n - i,
    {
        if s[i] == t {
            proof {
                let k = first_position(s@, t);
                assert(0 <= i < s@.len() && s@[i as int] == t && forall|j: int| 0 <= j < i ==> s@[j] != t);
                if k < i {
                    assert(s@[k] != t);
                } else if k > i {
                    assert(s@[i as int] != t);
                }
            }
            return i;
        }
        i = i + 1;
    }
    proof {
        let k = choose|k: int| 0 <= k < s@.len() && s@[k] == t;
        assert(s@[k] != t);
    }
    0
}

/// A scheduler that performs an exhaustive, depth-first enumeration of all possible schedules.
pub struct DfsScheduler {
    max_iterations: Option<usize>,
    max_preemptions: Option<usize>,
    allow_random_data: bool,
    iterations: usize,
    levels: Vec<(TaskId, bool)>,
    steps: usize,
    next_change_level: Option<usize>,
    preemptions: usize,
    data_source: FixedDataSource,
}

impl View for DfsScheduler {
    type V = DfsView;

    closed spec fn view(&self) -> DfsView {
        DfsView {
            max_iterations: self.max_iterations,
            max_preemptions: self.max_preemptions,
            allow_random_data: self.allow_random_data,
            iterations: self.iterations,
            levels: self.levels@,
            steps: self.steps,
            next_change_level: self.next_change_level,
            preemptions: self.preemptions,
            data_seed: self.data_source.seed(),
            data_draws: self.data_source.draws(),
        }
    }
}

impl DfsScheduler {
    /// The invariant that the scheduler keeps between calls.
    pub closed spec fn wf(&self) -> bool {
        &&& self.data_source.wf()
        &&& self.data_source.seed() == DFS_RANDOM_SEED
        &&& self.steps <= self.levels@.len()
        &&& self.preemptions <= self.steps
        &&& (self.next_change_level matches Some(l) ==> l < self.levels@.len())
        &&& (self.max_iterations matches Some(mi) ==> self.iterations <= mi)
    }

    /// Construct a new depth-first enumerative scheduler, with optional bounds on how many
    /// iterations to run and how many preemptions to allow.
    ///
    /// A `DfsScheduler` can optionally allow random data to be generated by the test. Enabling
    /// random data makes the DFS search incomplete, as it will not explore all possible values for
    /// the random choices. To ensure determinism, each execution will use the same sequence of
    /// random choices.
    pub fn new(max_iterations: Option<usize>, max_preemptions: Option<usize>, allow_random_data: bool) -> (s: Self)
        ensures
            s.wf(),
            s@ == (DfsView {
                max_iterations,
                max_preemptions,
                allow_random_data,
                iterations: 0,
                levels: Seq::empty(),
                steps: 0,
                next_change_level: None,
                preemptions: 0,
                data_seed: DFS_RANDOM_SEED,
                data_draws: 0,
            }),
    {
        let data_source = FixedDataSource::initialize(DFS_RANDOM_SEED);
        let s = Self {
            max_iterations,
            max_preemptions,
            iterations: 0,
            levels: Vec::new(),
            steps: 0,
            next_change_level: None,
            preemptions: 0,
            allow_random_data,
            data_source,
        };
        assert(s.levels@ =~= Seq::<(TaskId, bool)>::empty());
        s
    }

    /// The deepest level at which another choice remains, if any.
    fn find_next_change_level(&self) -> (r: Option<usize>)
        ensures
            r matches Some(l) ==> is_last_pending(self.levels@, l as int),
            r is None ==> none_pending(self.levels@),
    {
        let mut i = self.levels.len();
        while i > 0
            invariant
                i <= self.levels@.len(),
                forall|j: int| i <= j < self.levels@.len() ==> #[trigger] self.levels@[j].1,
            decreases i,
        {
            i = i - 1;
            if !self.levels[i].1 {
                return Some(i);
            }
        }
        None
    }

    /// Begin a new execution, or return `None` when the search is over: when `max_iterations`
    /// executions have been started, or when no decision of the previous execution has another
    /// choice left.
    ///
    /// The next execution departs from the previous one at the deepest decision that still has
    /// another choice; the data source is reset, so that every execution draws the same values.
    pub fn new_execution(&mut self) -> (r: Option<Schedule>)
        requires
            old(self).wf(),
            old(self)@.iterations < usize::MAX,
        ensures
            final(self).wf(),
            new_execution_post(old(self)@, r, final(self)@),
            r matches Some(sch) ==> sch.seed == DFS_RANDOM_SEED && sch.steps@.len() == 0,
            r is Some ==> final(self)@.data_draws == 0 && final(self)@.steps == 0 && final(self)@.preemptions == 0,
            r is Some ==> final(self)@.iterations == old(self)@.iterations + 1,
    {
        if let Some(mi) = self.max_iterations {
            if self.iterations >= mi {
                return None;
            }
        }
        self.next_change_level = self.find_next_change_level();
        if self.next_change_level.is_some() || self.iterations == 0 {
            self.iterations = self.iterations + 1;
            self.steps = 0;
            self.preemptions = 0;
            let seed = self.data_source.reinitialize();
            Some(Schedule::new(seed))
        } else {
            None
        }
    }

    /// Choose the task to run at the next decision of the current execution.
    ///
    /// A decision reached for the first time runs the first runnable task, or the current task when
    /// the preemption bound is reached and the current task can still run; in that case no other
    /// choice is explored there later. A decision recorded in
    /// an earlier execution repeats the earlier choice, except at `next_change_level`, where the
    /// runnable task after the earlier choice is taken and the deeper decisions are forgotten.
    pub fn next_task(&mut self, runnable: &[TaskId], current: Option<TaskId>, is_yielding: bool) -> (r: Option<TaskId>)
        requires
            old(self).wf(),
            old(self)@.steps >= old(self)@.levels.len() ==> runnable@.len() > 0,
            old(self)@.steps < usize::MAX,
            ({
                let v = old(self)@;
                (v.steps < v.levels.len() && v.next_change_level == Some(v.steps)) ==> {
                    &&& runnable@.contains(v.levels[v.steps as int].0)
                    &&& first_position(runnable@, v.levels[v.steps as int].0) + 1 < runnable@.len()
                }
            }),
        ensures
            final(self).wf(),
            r == Some(dfs_choice(old(self)@, runnable@, current)),
            final(self)@ == dfs_step(old(self)@, runnable@, current),
            dfs_choice_cases(old(self)@, runnable@, current, r),
            final(self)@.steps == old(self)@.steps + 1,
            final(self)@.preemptions == old(self)@.preemptions + (if current matches Some(c) && Some(c) != r && runnable@.contains(c) { 1int } else { 0int }),
    {        let next = if self.steps >= self.levels.len() {
            // First time we've reached this level
            let hit_max_preemptions = match self.max_preemptions {
                Some(mp) => self.preemptions >= mp,
                None => false,
            };
            let force_run_current = hit_max_preemptions && match current {
                Some(c) => slice_contains(runnable, c),
                None => false,
            };
            let to_run = if force_run_current {
                current.unwrap()
            } else {
                runnable[0]
            };
            let was_last = force_run_current || runnable.len() == 1;
            self.levels.push((to_run, was_last));
            to_run
        } else {
            // We've been to this level before. Is it the level at which we chose to make a change
            // for this iteration?
            let last_choice = self.levels[self.steps].0;
            let change_here = match self.next_change_level {
                Some(level) => level == self.steps,
                None => false,
            };
            if change_here {
                let n = runnable.len();
                let pos = slice_position(runnable, last_choice);
                assert(pos + 1 < n);
                let next_idx = pos + 1;
                let next = runnable[next_idx];
                self.levels.truncate(self.steps);
                self.levels.push((next, next_idx == runnable.len() - 1));
                next
            } else {
                last_choice
            }
        };

        let preempted = match current {
            Some(c) => c != next && slice_contains(runnable, c),
            None => false,
        };
        if preempted {
            self.preemptions = self.preemptions + 1;
        }
        self.steps = self.steps + 1;
        proof {
            lemma_dfs_choice_cases(old(self)@, runnable@, current);
        }
        Some(next)
    }

    /// The next random value of the current execution. Every execution draws the same sequence.
    /// Random data must have been allowed when the scheduler was built.
    pub fn next_u64(&mut self) -> (x: u64)
        requires
            old(self).wf(),
            old(self)@.allow_random_data,
        ensures
            final(self).wf(),
            x == draw(old(self)@.data_seed, old(self)@.data_draws),
            x == mix(
                ((old(self)@.data_seed + (old(self)@.data_draws + 1) * GAMMA) % 0x1_0000_0000_0000_0000) as u64,
            ),
            final(self)@ == (DfsView { data_draws: old(self)@.data_draws + 1, ..old(self)@ }),
    {
        self.data_source.next_u64()
    }
}

} // verus!

verus! {

/// A DFS scheduler never starts more executions than its `max_iterations` bound, and it never
/// counts more preemptions in an execution than decisions; every execution draws its random
/// values from the same fixed seed.
pub proof fn lemma_dfs_bounds(s: &DfsScheduler)
    requires
        s.wf(),
    ensures
        s@.max_iterations matches Some(mi) ==> s@.iterations <= mi,
        s@.preemptions <= s@.steps,
        s@.steps <= s@.levels.len(),
        s@.data_seed == DFS_RANDOM_SEED,
{
}

/// At a decision reached for the first time, the choice never takes the preemption count of the
/// execution beyond the bound.
pub proof fn lemma_fresh_choice_within_preemption_bound(v: DfsView, rs: Seq<TaskId>, current: Option<TaskId>)
    requires
        rs.len() > 0,
        v.max_preemptions matches Some(mp) && v.preemptions <= mp,
    ensures
        v.preemptions + (if is_preemption(rs, current, fresh_choice(v, rs, current)) { 1int } else { 0int })
            <= v.max_preemptions.unwrap(),
{
}

} // verus!
