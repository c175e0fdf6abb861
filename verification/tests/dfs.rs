// The DFS scheduler driven by a small deterministic simulation of threads.
//
// A simulated thread is a list of steps: the code between two yield points. Before every step the
// scheduler is asked which runnable thread goes next, exactly as the runtime asks it at each yield
// point. A thread is runnable from the step that spawns it until its last step has run.

use shuttle::runtime::task::TaskId;
use shuttle::scheduler::DfsScheduler;
use shuttle::{Config, MaxSteps};

#[derive(Clone, Copy, PartialEq, Debug)]
enum Op {
    /// Spawn the next thread of the program.
    Spawn,
    /// Yield (or any other step that touches no shared state).
    Yield,
    /// One trip of a counting loop: bump the trip counter, then yield.
    Trip,
    /// Store into the shared flag.
    Store(bool),
    /// Read the shared flag into this thread's reads.
    Load,
    /// Finish, checking that the thread's two reads agree.
    CheckReads,
    /// Finish.
    Finish,
}

struct Outcome {
    iterations: usize,
    trips: usize,
    /// The tasks chosen in each execution, and how many of those choices were preemptions.
    schedules: Vec<(Vec<usize>, usize)>,
}

fn max_steps(n: usize) -> Config {
    let mut config = Config::new();
    config.max_steps = MaxSteps::ContinueAfter(n);
    config
}

fn run(mut scheduler: DfsScheduler, config: Config, threads: &[Vec<Op>]) -> Outcome {
    let mut iterations = 0;
    let mut trips = 0;
    let mut schedules = Vec::new();
    while let Some(schedule) = scheduler.new_execution() {
        assert_eq!(schedule.len(), 0);
        iterations += 1;
        let mut pcs: Vec<usize> = vec![0];
        let mut reads: Vec<Vec<bool>> = vec![vec![]];
        let mut flag = false;
        let mut current: Option<TaskId> = None;
        let mut steps = 0;
        let mut chosen = Vec::new();
        let mut preemptions = 0;
        loop {
            let runnable: Vec<TaskId> = (0..pcs.len())
                .filter(|&t| pcs[t] < threads[t].len())
                .map(TaskId)
                .collect();
            if runnable.is_empty() {
                break;
            }
            match config.max_steps {
                MaxSteps::ContinueAfter(n) if steps >= n => break,
                MaxSteps::FailAfter(n) if steps >= n => panic!("exceeded max_steps bound {}", n),
                _ => {}
            }
            let next = scheduler.next_task(&runnable, current, false).unwrap();
            assert!(runnable.contains(&next));
            if let Some(c) = current {
                if c != next && runnable.contains(&c) {
                    preemptions += 1;
                }
            }
            chosen.push(next.0);
            steps += 1;
            current = Some(next);
            let t = next.0;
            let op = threads[t][pcs[t]];
            pcs[t] += 1;
            match op {
                Op::Spawn => {
                    pcs.push(0);
                    reads.push(vec![]);
                }
                Op::Yield | Op::Finish => {}
                Op::Trip => {
                    if t == 0 {
                        trips += 1;
                    }
                }
                Op::Store(b) => flag = b,
                Op::Load => reads[t].push(flag),
                Op::CheckReads => assert_eq!(reads[t][0], reads[t][1], "reads don't match"),
            }
        }
        schedules.push((chosen, preemptions));
    }
    Outcome { iterations, trips, schedules }
}

fn yields(n: usize) -> Vec<Op> {
    let mut ops = vec![Op::Yield; n];
    ops.push(Op::Finish);
    ops
}

// Main thread: spawn, lock, unlock, finish. Spawned thread: lock, unlock, finish.
fn two_threads_work() -> Vec<Vec<Op>> {
    vec![
        vec![Op::Spawn, Op::Yield, Op::Yield, Op::Finish],
        vec![Op::Yield, Op::Yield, Op::Finish],
    ]
}

// `num_threads` threads that each yield `num_yields` times; the main thread spawns the others.
fn yielding_threads(num_threads: usize, num_yields: usize) -> Vec<Vec<Op>> {
    let mut main = vec![Op::Spawn; num_threads - 1];
    main.extend(yields(num_yields));
    let mut threads = vec![main];
    for _ in 1..num_threads {
        threads.push(yields(num_yields));
    }
    threads
}

// A bug that requires two preemptions to detect
fn depth_2_bug() -> Vec<Vec<Op>> {
    vec![
        vec![Op::Spawn, Op::Load, Op::Load, Op::CheckReads],
        vec![Op::Store(true), Op::Store(false), Op::Finish],
    ]
}

#[test]
fn trivial_one_thread() {
    let scheduler = DfsScheduler::new(None, None, false);
    let outcome = run(scheduler, Default::default(), &[vec![Op::Finish]]);
    assert_eq!(outcome.iterations, 1);
}

#[test]
fn trivial_two_threads() {
    let scheduler = DfsScheduler::new(None, None, false);
    let outcome = run(
        scheduler,
        Default::default(),
        &[vec![Op::Spawn, Op::Finish], vec![Op::Finish]],
    );
    assert_eq!(outcome.iterations, 2);
}

#[test]
fn two_threads() {
    let scheduler = DfsScheduler::new(None, None, false);
    let outcome = run(scheduler, Default::default(), &two_threads_work());
    // 2 threads, 3 operations each (thread start, lock acq, lock rel)
    // 2*3 choose 3 = 20
    assert_eq!(outcome.iterations, 20);
}

#[test]
fn two_threads_depth_4() {
    let scheduler = DfsScheduler::new(None, None, false);
    let outcome = run(scheduler, max_steps(4), &two_threads_work());
    // { SWLF, SWLw, SWwL, SWwl, SwWL, SwWl, SwlW, Swlf }
    assert_eq!(outcome.iterations, 8);
}

#[test]
fn two_threads_depth_5() {
    let scheduler = DfsScheduler::new(None, None, false);
    let outcome = run(scheduler, max_steps(5), &two_threads_work());
    assert_eq!(outcome.iterations, 14);
}

#[test]
fn yield_loop_one_thread() {
    let scheduler = DfsScheduler::new(None, None, false);
    let outcome = run(
        scheduler,
        Default::default(),
        &[vec![Op::Spawn, Op::Finish], yields(4)],
    );
    // 6 places we can run thread 0: before thread 1 starts, before each of the 4 yields, or last
    assert_eq!(outcome.iterations, 6);
}

#[test]
fn yield_loop_two_threads() {
    let scheduler = DfsScheduler::new(None, None, false);
    let outcome = run(scheduler, Default::default(), &yielding_threads(2, 4));
    // 2 threads, 5 operations each (thread start + 4 yields)
    // 2*5 choose 5 = 252
    assert_eq!(outcome.iterations, 252);
}

#[test]
fn yield_loop_two_threads_bounded() {
    let scheduler = DfsScheduler::new(Some(100), None, false);
    let outcome = run(scheduler, Default::default(), &yielding_threads(2, 4));
    assert_eq!(outcome.iterations, 100);
}

#[test]
fn yield_loop_three_threads() {
    let scheduler = DfsScheduler::new(None, None, false);
    let outcome = run(scheduler, Default::default(), &yielding_threads(3, 3));
    assert_eq!(outcome.iterations, 50050);
}

#[test]
fn yield_loop_max_depth() {
    let scheduler = DfsScheduler::new(None, None, false);
    let mut main = vec![Op::Trip; 100];
    main.push(Op::Finish);
    let outcome = run(scheduler, max_steps(20), &[main]);
    assert_eq!(outcome.iterations, 1);
    assert_eq!(outcome.trips, 20);
}

#[test]
fn yielding_threads_0_preemptions() {
    let scheduler = DfsScheduler::new(None, Some(0), false);
    let outcome = run(scheduler, Default::default(), &yielding_threads(2, 2));
    // First thread never blocks, so there's only one preemption-free schedule
    assert_eq!(outcome.iterations, 1);
}

#[test]
fn yielding_threads_1_preemptions() {
    let scheduler = DfsScheduler::new(None, Some(1), false);
    let outcome = run(scheduler, Default::default(), &yielding_threads(2, 2));
    // Four places where the single preemption can happen
    assert_eq!(outcome.iterations, 4);
}

#[test]
fn yielding_threads_2_preemptions() {
    let scheduler = DfsScheduler::new(None, Some(2), false);
    let outcome = run(scheduler, Default::default(), &yielding_threads(2, 2));
    // 4 schedules with <= 1 preemptions, and another 6 with exactly 2 preemptions.
    assert_eq!(outcome.iterations, 10);
}

#[test]
fn yielding_threads_3_preemptions() {
    let scheduler = DfsScheduler::new(None, Some(3), false);
    let outcome = run(scheduler, Default::default(), &yielding_threads(2, 2));
    // 10 schedules with <= 2 preemptions, and another 6 with exactly 3 preemptions.
    assert_eq!(outcome.iterations, 16);
}

// Need two preemptions to trigger this bug, so should pass
#[test]
fn depth_2_bug_0_preemptions() {
    let scheduler = DfsScheduler::new(None, Some(0), false);
    run(scheduler, Default::default(), &depth_2_bug());
}

// Need two preemptions to trigger this bug, so should pass
#[test]
fn depth_2_bug_1_preemptions() {
    let scheduler = DfsScheduler::new(None, Some(1), false);
    run(scheduler, Default::default(), &depth_2_bug());
}

#[test]
#[should_panic(expected = "reads don't match")]
fn depth_2_bug_2_preemptions() {
    let scheduler = DfsScheduler::new(None, Some(2), false);
    run(scheduler, Default::default(), &depth_2_bug());
}

#[test]
fn spawned_thread_interleaves_with_parent_finish() {
    // After the spawn, the parent's last step can come before or after any of the child's 3 steps.
    let scheduler = DfsScheduler::new(None, None, false);
    let outcome = run(
        scheduler,
        Default::default(),
        &[vec![Op::Spawn, Op::Finish], yields(2)],
    );
    assert_eq!(outcome.iterations, 4);
}

#[test]
fn max_iterations_zero_runs_nothing() {
    let scheduler = DfsScheduler::new(Some(0), None, false);
    let outcome = run(scheduler, Default::default(), &yielding_threads(2, 2));
    assert_eq!(outcome.iterations, 0);
}

// Schedules in the order explored must be strictly increasing in depth-first order: at the first
// decision where two consecutive ones part, the later one runs a later task (tasks are listed in
// id order, so this compares task ids).
fn strictly_increasing(schedules: &[(Vec<usize>, usize)]) -> bool {
    schedules.windows(2).all(|w| {
        let (a, b) = (&w[0].0, &w[1].0);
        let k = a.iter().zip(b.iter()).take_while(|(x, y)| x == y).count();
        k < a.len() && k < b.len() && a[k] < b[k]
    })
}

#[test]
fn every_schedule_explored_once_in_order() {
    let scheduler = DfsScheduler::new(None, None, false);
    let outcome = run(scheduler, Default::default(), &yielding_threads(3, 1));
    assert!(strictly_increasing(&outcome.schedules));
    let mut distinct: Vec<Vec<usize>> = outcome.schedules.iter().map(|s| s.0.clone()).collect();
    distinct.sort();
    distinct.dedup();
    assert_eq!(distinct.len(), outcome.iterations);
    // Main thread: spawn, spawn, yield, finish; two threads of yield, finish, each runnable from
    // the step that spawns it on: 126 interleavings.
    assert_eq!(outcome.iterations, 126);
}

#[test]
fn preemption_bound_holds_in_every_execution() {
    for bound in 0..4 {
        let scheduler = DfsScheduler::new(None, Some(bound), false);
        let outcome = run(scheduler, Default::default(), &yielding_threads(3, 2));
        assert!(strictly_increasing(&outcome.schedules));
        assert!(outcome.schedules.iter().all(|s| s.1 <= bound));
    }
}

#[test]
fn zero_preemptions_still_explores_after_current_finishes() {
    // The main thread spawns two threads and finishes without being preempted. Once it has
    // finished, running either spawned thread first is no preemption: both orders are explored.
    let scheduler = DfsScheduler::new(None, Some(0), false);
    let outcome = run(
        scheduler,
        Default::default(),
        &[vec![Op::Spawn, Op::Spawn, Op::Finish], vec![Op::Finish], vec![Op::Finish]],
    );
    assert_eq!(outcome.iterations, 2);
    assert!(outcome.schedules.iter().all(|s| s.1 == 0));
}
