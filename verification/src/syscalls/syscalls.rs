//! System-call numbers.  Their order is fixed.
use vstd::prelude::*;

verus! {

pub const SYS_READ: u64 = 0;

pub const SYS_WRITE: u64 = 1;

pub const SYS_OPEN: u64 = 2;

pub const SYS_CLOSE: u64 = 3;

pub const SYS_EXIT: u64 = 4;

pub const SYS_YIELD: u64 = 5;

pub const SYS_GETPID: u64 = 6;

pub const SYS_MMAP: u64 = 7;

} // verus!
