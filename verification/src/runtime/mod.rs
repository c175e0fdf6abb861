//! Identifiers of the tasks that a scheduler chooses between.

pub mod task;
