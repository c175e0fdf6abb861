//! Shuttle: randomized and exhaustive testing of concurrent code by controlling the scheduling of
//! every thread.
//!
//! This crate holds the verified core of the library: the configuration types, the depth-first
//! (exhaustive) and fuzz-driven schedulers with their data sources, and the decision logic of the
//! `Notify` and `AtomicWaker` primitives.

use vstd::prelude::*;

pub mod future;
pub mod model;
pub mod runtime;
pub mod scheduler;
pub mod sync;

verus! {

/// `std::path::PathBuf` is carried through `FailurePersistence::File` without being inspected.
#[verifier::external_type_specification]
#[verifier::external_body]
pub struct ExPathBuf(std::path::PathBuf);

/// Stack size, in bytes, that a fresh configuration gives each thread.
pub const DEFAULT_STACK_SIZE: usize = 0x8000;

/// Step bound after which a fresh configuration fails a test.
pub const DEFAULT_MAX_STEPS: usize = 1_000_000;

/// Configuration parameters for Shuttle
#[derive(Clone, Debug)]
#[non_exhaustive]
pub struct Config {
    /// Stack size allocated for each thread
    pub stack_size: usize,
    /// How to persist schedules when a test fails
    pub failure_persistence: FailurePersistence,
    /// Maximum number of steps a single iteration of a test can take, and how to react when the
    /// limit is reached
    pub max_steps: MaxSteps,
    /// Time limit for an entire test; it is only checked between iterations.
    pub max_time: Option<std::time::Duration>,
    /// Whether to silence warnings about the unsound implementation of atomics.
    pub silence_atomic_ordering_warning: bool,
}

impl Config {
    /// The configuration that `Config::new` and `Config::default` produce.
    pub open spec fn is_default(self) -> bool {
        &&& self.stack_size == DEFAULT_STACK_SIZE
        &&& self.failure_persistence is Print
        &&& self.max_steps == MaxSteps::FailAfter(DEFAULT_MAX_STEPS)
        &&& self.max_time is None
        &&& !self.silence_atomic_ordering_warning
    }

    /// Create a new default configuration
    pub fn new() -> (config: Self)
        ensures
            config.is_default(),
            config.stack_size == 0x8000,
            config.failure_persistence == FailurePersistence::Print,
            config.max_steps == MaxSteps::FailAfter(1_000_000),
            config.max_time is None,
            !config.silence_atomic_ordering_warning,
    {
        Self {
            stack_size: DEFAULT_STACK_SIZE,
            failure_persistence: FailurePersistence::Print,
            max_steps: MaxSteps::FailAfter(DEFAULT_MAX_STEPS),
            max_time: None,
            silence_atomic_ordering_warning: false,
        }
    }
}

impl Default for Config {
    fn default() -> (config: Self)
        ensures
            config.is_default(),
            config.stack_size == 0x8000,
            config.failure_persistence == FailurePersistence::Print,
            config.max_steps == MaxSteps::FailAfter(1_000_000),
            config.max_time is None,
            !config.silence_atomic_ordering_warning,
    {
        Self::new()
    }
}

/// The default configuration gives each thread a 32 KiB stack, prints failing schedules, fails a
/// test after a million steps, sets no time limit, and keeps the atomics warning on.
pub proof fn lemma_default_config(c: Config)
    requires
        c.is_default(),
    ensures
        c.stack_size == 0x8000,
        c.failure_persistence == FailurePersistence::Print,
        c.max_steps == MaxSteps::FailAfter(1_000_000),
        c.max_time is None,
        !c.silence_atomic_ordering_warning,
{
}

/// Specifies how to persist schedules when a Shuttle test fails
///
/// By default, schedules are printed to stdout/stderr, and can be replayed with `replay`.
/// Optionally, they can instead be persisted to a file.
#[derive(Debug, Clone, PartialEq, Eq)]
#[non_exhaustive]
pub enum FailurePersistence {
    /// Do not persist failing schedules
    NoPersistence,
    /// Print failing schedules to stdout/stderr
    Print,
    /// Persist schedules as files in the given directory, or the current directory if None.
    File(Option<std::path::PathBuf>),
}

/// Specifies an upper bound on the number of steps a single iteration of a Shuttle test can take,
/// and how to react when the bound is reached.
///
/// A "step" is an atomic region (all the code between two yieldpoints). By default, Shuttle fails a
/// test after 1,000,000 steps.
#[derive(Debug, Clone, Copy, PartialEq, Eq, Structural)]
#[non_exhaustive]
pub enum MaxSteps {
    /// Do not enforce any bound on the maximum number of steps
    NoLimit,
    /// Fail the test (by panicing) after the given number of steps
    FailAfter(usize),
    /// When the given number of steps is reached, stop the current iteration of the test and
    /// begin a new iteration
    ContinueAfter(usize),
}

} // verus!
