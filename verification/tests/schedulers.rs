use shuttle::runtime::task::TaskId;
use shuttle::scheduler::{DfsScheduler, FuzzScheduler, Schedule, ScheduleStep};

const SPLITMIX_FIRST_FROM_ZERO: u64 = 0xE220_A839_7B1D_CDAF;

#[test]
fn dfs_first_execution_then_next_choice() {
    let mut s = DfsScheduler::new(None, None, false);
    let sch = s.new_execution().unwrap();
    assert_eq!(sch.seed, 0x12345678);
    let runnable = [TaskId(0), TaskId(1), TaskId(2)];
    // A fresh decision takes the first runnable task.
    assert_eq!(s.next_task(&runnable, None, false), Some(TaskId(0)));
    assert_eq!(s.next_task(&runnable, Some(TaskId(0)), false), Some(TaskId(0)));
    // The second execution departs at the deepest decision: the second one moves to task 1.
    assert!(s.new_execution().is_some());
    assert_eq!(s.next_task(&runnable, None, false), Some(TaskId(0)));
    assert_eq!(s.next_task(&runnable, Some(TaskId(0)), false), Some(TaskId(1)));
    // The third execution moves the same decision to task 2.
    assert!(s.new_execution().is_some());
    assert_eq!(s.next_task(&runnable, None, false), Some(TaskId(0)));
    assert_eq!(s.next_task(&runnable, Some(TaskId(0)), false), Some(TaskId(2)));
    // The fourth moves the first decision on, and forgets the deeper one.
    assert!(s.new_execution().is_some());
    assert_eq!(s.next_task(&runnable, None, false), Some(TaskId(1)));
    assert_eq!(s.next_task(&runnable, Some(TaskId(1)), false), Some(TaskId(0)));
}

#[test]
fn dfs_search_ends_when_every_choice_is_taken() {
    let mut s = DfsScheduler::new(None, None, false);
    assert!(s.new_execution().is_some());
    assert_eq!(s.next_task(&[TaskId(4)], None, false), Some(TaskId(4)));
    // The only decision had a single choice: nothing is left to explore.
    assert!(s.new_execution().is_none());
    assert!(s.new_execution().is_none());
}

#[test]
fn dfs_max_iterations_stops_search() {
    let mut s = DfsScheduler::new(Some(1), None, false);
    assert!(s.new_execution().is_some());
    assert_eq!(s.next_task(&[TaskId(0), TaskId(1)], None, false), Some(TaskId(0)));
    // Another choice remains, but the bound of one execution is reached.
    assert!(s.new_execution().is_none());
}

#[test]
fn dfs_preemption_bound_keeps_current_task() {
    let mut s = DfsScheduler::new(None, Some(0), false);
    assert!(s.new_execution().is_some());
    let runnable = [TaskId(0), TaskId(1)];
    // With no preemptions allowed, a runnable current task keeps running.
    assert_eq!(s.next_task(&runnable, Some(TaskId(1)), false), Some(TaskId(1)));
    // Such a decision has no alternative, so the search is complete.
    assert!(s.new_execution().is_none());
}

#[test]
fn dfs_random_data_repeats_in_every_execution() {
    let mut s = DfsScheduler::new(None, None, true);
    assert!(s.new_execution().is_some());
    assert_eq!(s.next_task(&[TaskId(0), TaskId(1)], None, false), Some(TaskId(0)));
    let a = s.next_u64();
    let b = s.next_u64();
    assert_ne!(a, b);
    assert!(s.new_execution().is_some());
    assert_eq!(s.next_u64(), a);
    assert_eq!(s.next_u64(), b);
}

#[test]
fn fuzz_follows_schedule_modulo_runnable() {
    let mut f = FuzzScheduler::new();
    let mut sch = Schedule::new(7);
    sch.push_task(TaskId(5));
    sch.push_random();
    sch.push_task(TaskId(1));
    let copy = f.new_execution_fuzz(Some(sch)).unwrap();
    assert_eq!(copy.seed, 7);
    assert_eq!(
        copy.steps,
        vec![ScheduleStep::Task(TaskId(5)), ScheduleStep::Random, ScheduleStep::Task(TaskId(1))]
    );
    let runnable = [TaskId(10), TaskId(11), TaskId(12)];
    // 5 % 3 == 2
    assert_eq!(f.next_task(&runnable, None, false), Some(TaskId(12)));
    assert_eq!(f.next_task(&runnable, None, false), Some(TaskId(10)));
    assert_eq!(f.next_task(&runnable[1..], None, false), Some(TaskId(12)));
    // The schedule is exhausted: the first runnable task runs, or none when nothing can run.
    assert_eq!(f.next_task(&runnable[1..], None, false), Some(TaskId(11)));
    assert_eq!(f.next_task(&[], None, false), None);
}

#[test]
fn fuzz_without_schedule_chooses_nothing() {
    let mut f = FuzzScheduler::new();
    assert!(f.new_execution_fuzz(None).is_none());
    assert_eq!(f.next_task(&[TaskId(0)], None, false), None);
    assert!(f.new_execution().is_none());
}

#[test]
fn fuzz_new_holds_empty_schedule() {
    let mut f = FuzzScheduler::new();
    assert!(f.new_execution().is_none());
    // The empty schedule is exhausted from the start.
    assert_eq!(f.next_task(&[TaskId(3), TaskId(4)], None, false), Some(TaskId(3)));
}

#[test]
fn data_source_first_value_from_seed_zero() {
    let mut f = FuzzScheduler::new();
    assert_eq!(f.next_u64(), SPLITMIX_FIRST_FROM_ZERO);
}

#[test]
fn schedule_clone_keeps_seed_and_steps() {
    let mut sch = Schedule::new(3);
    sch.push_random();
    sch.push_task(TaskId(2));
    let c = sch.clone();
    assert_eq!(c, sch);
    assert_eq!(c.len(), 2);
}
