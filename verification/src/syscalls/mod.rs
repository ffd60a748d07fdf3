//! The system-call table and its handlers.
pub mod syscall_handler;
pub mod syscalls;
pub mod syscalls_impl;
