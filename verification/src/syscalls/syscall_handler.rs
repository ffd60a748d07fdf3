//! System-call dispatch.
use vstd::prelude::*;
use crate::syscalls::syscalls::{
    SYS_CLOSE, SYS_EXIT, SYS_GETPID, SYS_MMAP, SYS_OPEN, SYS_READ, SYS_WRITE, SYS_YIELD,
};
use crate::syscalls::syscalls_impl::{
    Syscall, SyscallAction, pid_of, sys_close, sys_exit, sys_getpid, sys_mmap, sys_open, sys_read,
    sys_write, sys_yield,
};
use crate::tasks::scheduler::{Scheduler, switch_step};

verus! {

/// What the kernel does for system call `id` with arguments `args`.
pub open spec fn syscall_spec(id: u64, args: [u64; 6], scheduler: Scheduler) -> SyscallAction {
    if id == SYS_READ {
        SyscallAction::Unimplemented(Syscall::Read)
    } else if id == SYS_WRITE {
        if args[0] == 1 {
            SyscallAction::WriteConsole { buf: args[1], len: args[2] }
        } else {
            SyscallAction::Return(0)
        }
    } else if id == SYS_OPEN {
        SyscallAction::Unimplemented(Syscall::Open)
    } else if id == SYS_CLOSE {
        SyscallAction::Unimplemented(Syscall::Close)
    } else if id == SYS_EXIT {
        SyscallAction::Unimplemented(Syscall::Exit)
    } else if id == SYS_YIELD {
        SyscallAction::Yield
    } else if id == SYS_GETPID {
        SyscallAction::Return(pid_of(scheduler))
    } else if id == SYS_MMAP {
        SyscallAction::Unimplemented(Syscall::Mmap)
    } else {
        SyscallAction::Unknown(id)
    }
}

/// Dispatches system call `syscall_id` to its handler.
pub fn syscall_handler(syscall_id: u64, args: [u64; 6], scheduler: &Scheduler) -> (r: SyscallAction)
    ensures
        r == syscall_spec(syscall_id, args, *scheduler),
{
    match syscall_id {
        SYS_READ => sys_read(args),
        SYS_WRITE => sys_write(args),
        SYS_OPEN => sys_open(args),
        SYS_CLOSE => sys_close(args),
        SYS_EXIT => sys_exit(args),
        SYS_YIELD => sys_yield(args),
        SYS_GETPID => SyscallAction::Return(sys_getpid(args, scheduler)),
        SYS_MMAP => sys_mmap(args),
        _ => SyscallAction::Unknown(syscall_id),
    }
}

/// `getpid` answers with the id of the running task, 0 when none runs,
/// whatever else the scheduler holds; right after a switch that is the
/// task that was first in the ready queue.
pub proof fn law_getpid_reports_running_task(s: Scheduler, t: Scheduler, args: [u64; 6])
    ensures
        s.current() matches Some(c) ==> syscall_spec(SYS_GETPID, args, s) == SyscallAction::Return(
            c.id.0 as u64,
        ),
        s.current() is None ==> syscall_spec(SYS_GETPID, args, s) == SyscallAction::Return(0),
        s.current() == t.current() ==> syscall_spec(SYS_GETPID, args, s) == syscall_spec(
            SYS_GETPID,
            args,
            t,
        ),
        switch_step(s, t) ==> syscall_spec(SYS_GETPID, args, t) == SyscallAction::Return(
            s.ready()[0].id.0 as u64,
        ),
{
}

} // verus!
