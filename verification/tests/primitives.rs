use shuttle::future::{AtomicWaker, RegisterAction};
use shuttle::model::{Builder, LoomEnv, LoomEnvError};
use std::path::PathBuf;
use std::time::Duration;
use shuttle::sync::{Notify, WaitOutcome};
use shuttle::{Config, FailurePersistence, MaxSteps};
use std::sync::atomic::{AtomicUsize, Ordering};
use std::sync::Arc;
use std::task::{Wake, Waker};

struct CountingWake(AtomicUsize);

impl Wake for CountingWake {
    fn wake(self: Arc<Self>) {
        self.0.fetch_add(1, Ordering::SeqCst);
    }
}

fn counting_waker() -> (Arc<CountingWake>, Waker) {
    let counter = Arc::new(CountingWake(AtomicUsize::new(0)));
    let waker = Waker::from(counter.clone());
    (counter, waker)
}

#[test]
fn config_new_has_documented_defaults() {
    let c = Config::new();
    assert_eq!(c.stack_size, 0x8000);
    assert_eq!(c.failure_persistence, FailurePersistence::Print);
    assert_eq!(c.max_steps, MaxSteps::FailAfter(1_000_000));
    assert!(c.max_time.is_none());
    assert!(!c.silence_atomic_ordering_warning);
    let d = Config::default();
    assert_eq!(d.stack_size, c.stack_size);
    assert_eq!(d.max_steps, c.max_steps);
}

fn empty_env() -> LoomEnv {
    LoomEnv {
        max_branches: None,
        max_permutations: None,
        max_duration: None,
        max_preemptions: None,
        checkpoint_file: None,
        checkpoint_interval: None,
        location: false,
        log: false,
    }
}

#[test]
fn builder_new_without_variables_is_all_zero() {
    let b = Builder::new(empty_env()).unwrap();
    assert_eq!(b.max_threads, 0);
    assert_eq!(b.max_branches, 0);
    assert!(b.max_permutations.is_none());
    assert!(b.max_duration.is_none());
    assert!(b.preemption_bound.is_none());
    assert!(b.checkpoint_file.is_none());
    assert_eq!(b.checkpoint_interval, 0);
    assert!(!b.location);
    assert!(!b.log);
    let d = Builder::default();
    assert_eq!(d.max_branches, 0);
    assert!(!d.log);
}

#[test]
fn builder_new_takes_variables() {
    let env = LoomEnv {
        max_branches: Some(b"1000".to_vec()),
        max_permutations: Some(b"+7".to_vec()),
        max_duration: Some(b"90".to_vec()),
        max_preemptions: Some(b"2".to_vec()),
        checkpoint_file: Some(PathBuf::from("loom.json")),
        checkpoint_interval: Some(b"20000".to_vec()),
        location: true,
        log: true,
    };
    let b = Builder::new(env).unwrap();
    assert_eq!(b.max_branches, 1000);
    assert_eq!(b.max_permutations, Some(7));
    assert_eq!(b.max_duration, Some(Duration::from_secs(90)));
    assert_eq!(b.preemption_bound, Some(2));
    assert_eq!(b.checkpoint_file, Some(PathBuf::from("loom.json")));
    assert_eq!(b.checkpoint_interval, 20000);
    assert!(b.location);
    assert!(b.log);
}

#[test]
fn builder_new_rejects_bad_numbers() {
    let mut env = empty_env();
    env.max_preemptions = Some(b"two".to_vec());
    env.checkpoint_interval = Some(b"".to_vec());
    assert!(matches!(Builder::new(env), Err(LoomEnvError::MaxPreemptions)));
    let mut env = empty_env();
    env.checkpoint_interval = Some(b"+".to_vec());
    assert!(matches!(Builder::new(env), Err(LoomEnvError::CheckpointInterval)));
    let mut env = empty_env();
    env.max_duration = Some(b"18446744073709551616".to_vec());
    assert!(matches!(Builder::new(env), Err(LoomEnvError::MaxDuration)));
    let mut env = empty_env();
    env.max_duration = Some(b"18446744073709551615".to_vec());
    assert_eq!(Builder::new(env).unwrap().max_duration, Some(Duration::from_secs(u64::MAX)));
    let mut env = empty_env();
    env.max_branches = Some(b"-1".to_vec());
    assert!(matches!(Builder::new(env), Err(LoomEnvError::MaxBranches)));
}

#[test]
fn atomic_waker_register_then_take() {
    let (counter, waker) = counting_waker();
    let mut slot = AtomicWaker::new();
    assert!(slot.take_waker().is_none());
    slot.register(waker.clone());
    let taken = slot.take_waker().unwrap();
    assert!(taken.will_wake(&waker));
    assert!(slot.take_waker().is_none());
    assert_eq!(counter.0.load(Ordering::SeqCst), 0);
}

#[test]
fn atomic_waker_wake_wakes_once() {
    let (counter, waker) = counting_waker();
    let mut slot = AtomicWaker::default();
    slot.register_by_ref(&waker);
    assert_eq!(counter.0.load(Ordering::SeqCst), 0);
    slot.wake();
    assert_eq!(counter.0.load(Ordering::SeqCst), 1);
    // The slot is empty now: waking again does nothing.
    slot.wake();
    assert_eq!(counter.0.load(Ordering::SeqCst), 1);
}

#[test]
fn atomic_waker_register_replaces() {
    let (first, w1) = counting_waker();
    let (second, w2) = counting_waker();
    let mut slot = AtomicWaker::new();
    slot.register(w1);
    slot.register(w2);
    slot.wake();
    assert_eq!(first.0.load(Ordering::SeqCst), 0);
    assert_eq!(second.0.load(Ordering::SeqCst), 1);
}

#[test]
fn notify_before_wait_returns_at_once() {
    let mut n = Notify::new();
    n.notify();
    assert!(!n.is_waited_on());
    assert_eq!(n.wait(), WaitOutcome::Return);
    assert!(!n.is_waited_on());
    // The notification stays: a later wait returns at once too.
    assert_eq!(n.wait(), WaitOutcome::Return);
}

#[test]
fn notify_after_wait_releases_the_waiter() {
    let mut n = Notify::new();
    assert_eq!(n.wait(), WaitOutcome::Block);
    assert!(n.is_waited_on());
    // A spurious wakeup: still nothing to return for.
    assert_eq!(n.wait_resume(), WaitOutcome::Block);
    n.notify();
    assert!(n.is_waited_on());
    assert_eq!(n.wait_resume(), WaitOutcome::Return);
    assert!(!n.is_waited_on());
}

#[test]
fn atomic_waker_busy_slot_wakes_at_once() {
    assert_eq!(AtomicWaker::register_action(true), RegisterAction::Store);
    assert_eq!(AtomicWaker::register_action(false), RegisterAction::WakeAndYield);
}
