//! Kernel tasks and the round-robin scheduler.
pub mod scheduler;
pub mod task;
