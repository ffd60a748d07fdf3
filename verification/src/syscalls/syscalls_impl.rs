//! What each system call does.  A handler decides; the effect it asks for
//! (printing user bytes, switching tasks, stopping on a call that does not
//! exist yet) is carried out by the caller.
use vstd::prelude::*;
use crate::tasks::scheduler::Scheduler;

verus! {

/// The system calls.
#[derive(Clone, Copy, PartialEq, Eq, Structural, Debug)]
pub enum Syscall {
    Read,
    Write,
    Open,
    Close,
    Exit,
    Yield,
    GetPid,
    Mmap,
}

/// What the kernel does for a system call.
#[derive(Clone, Copy, PartialEq, Eq, Structural, Debug)]
pub enum SyscallAction {
    /// Return the value to the caller.
    Return(u64),
    /// Print `len` bytes from user address `buf` to the console, then
    /// return `len`.
    WriteConsole { buf: u64, len: u64 },
    /// Switch to the next ready task, then return 0.
    Yield,
    /// The call is not implemented: stop the kernel.
    Unimplemented(Syscall),
    /// No call has this number: report it, then return 0.
    Unknown(u64),
}

/// `read` is not implemented.
pub fn sys_read(args: [u64; 6]) -> (r: SyscallAction)
    ensures
        r == SyscallAction::Unimplemented(Syscall::Read),
{
    SyscallAction::Unimplemented(Syscall::Read)
}

/// `write(fd, buf, len)`: to file descriptor 1, the console, the `len`
/// bytes at `buf` are printed and `len` is returned; any other descriptor
/// returns 0.
pub fn sys_write(args: [u64; 6]) -> (r: SyscallAction)
    ensures
        r == if args[0] == 1 {
            SyscallAction::WriteConsole { buf: args[1], len: args[2] }
        } else {
            SyscallAction::Return(0)
        },
{
    let fd = args[0];
    let buf = args[1];
    let len = args[2];
    if fd == 1 {
        SyscallAction::WriteConsole { buf, len }
    } else {
        SyscallAction::Return(0)
    }
}

/// `open` is not implemented.
pub fn sys_open(args: [u64; 6]) -> (r: SyscallAction)
    ensures
        r == SyscallAction::Unimplemented(Syscall::Open),
{
    SyscallAction::Unimplemented(Syscall::Open)
}

/// `close` is not implemented.
pub fn sys_close(args: [u64; 6]) -> (r: SyscallAction)
    ensures
        r == SyscallAction::Unimplemented(Syscall::Close),
{
    SyscallAction::Unimplemented(Syscall::Close)
}

/// `exit` is not implemented.
pub fn sys_exit(args: [u64; 6]) -> (r: SyscallAction)
    ensures
        r == SyscallAction::Unimplemented(Syscall::Exit),
{
    SyscallAction::Unimplemented(Syscall::Exit)
}

/// `yield` gives the processor to the next ready task.
pub fn sys_yield(_args: [u64; 6]) -> (r: SyscallAction)
    ensures
        r == SyscallAction::Yield,
{
    SyscallAction::Yield
}

/// The id of the running task, or 0 when none runs.
pub open spec fn pid_of(scheduler: Scheduler) -> u64 {
    match scheduler.current() {
        Some(t) => t.id.0 as u64,
        None => 0,
    }
}

/// `getpid` returns the id of the running task, or 0 when none runs.
pub fn sys_getpid(_args: [u64; 6], scheduler: &Scheduler) -> (r: u64)
    ensures
        r == pid_of(*scheduler),
        scheduler.current() matches Some(t) ==> r == t.id.0,
        scheduler.current() is None ==> r == 0,
{
    match scheduler.get_current_task_pid() {
        Some(pid) => pid.0 as u64,
        None => 0,
    }
}

/// `mmap` is not implemented.
pub fn sys_mmap(_args: [u64; 6]) -> (r: SyscallAction)
    ensures
        r == SyscallAction::Unimplemented(Syscall::Mmap),
{
    SyscallAction::Unimplemented(Syscall::Mmap)
}

} // verus!
