use cheesecake_kernel::mm::buddy::BuddyAllocator;
use cheesecake_kernel::syscalls::syscall_handler::syscall_handler;
use cheesecake_kernel::syscalls::syscalls::{
    SYS_CLOSE, SYS_EXIT, SYS_GETPID, SYS_MMAP, SYS_OPEN, SYS_READ, SYS_WRITE, SYS_YIELD,
};
use cheesecake_kernel::syscalls::syscalls_impl::{
    sys_close, sys_exit, sys_getpid, sys_mmap, sys_open, sys_read, sys_write, sys_yield, Syscall,
    SyscallAction,
};
use cheesecake_kernel::tasks::scheduler::Scheduler;

#[test]
fn syscall_numbers_are_fixed() {
    assert_eq!(
        [SYS_READ, SYS_WRITE, SYS_OPEN, SYS_CLOSE, SYS_EXIT, SYS_YIELD, SYS_GETPID, SYS_MMAP],
        [0, 1, 2, 3, 4, 5, 6, 7]
    );
}

#[test]
fn write_to_stdout_prints() {
    let args = [1, 0x4000, 12, 0, 0, 0];
    assert_eq!(sys_write(args), SyscallAction::WriteConsole { buf: 0x4000, len: 12 });
    assert_eq!(sys_write([2, 0x4000, 12, 0, 0, 0]), SyscallAction::Return(0));
    assert_eq!(sys_write([0, 0x4000, 12, 0, 0, 0]), SyscallAction::Return(0));
}

#[test]
fn unimplemented_calls_say_so() {
    let a = [0; 6];
    assert_eq!(sys_read(a), SyscallAction::Unimplemented(Syscall::Read));
    assert_eq!(sys_open(a), SyscallAction::Unimplemented(Syscall::Open));
    assert_eq!(sys_close(a), SyscallAction::Unimplemented(Syscall::Close));
    assert_eq!(sys_exit(a), SyscallAction::Unimplemented(Syscall::Exit));
    assert_eq!(sys_mmap(a), SyscallAction::Unimplemented(Syscall::Mmap));
    assert_eq!(sys_yield(a), SyscallAction::Yield);
}

#[test]
fn getpid_reports_running_task() {
    let mut s = Scheduler::new();
    assert_eq!(sys_getpid([0; 6], &s), 0);
    s.init(0);
    assert_eq!(sys_getpid([0; 6], &s), 0);
    let mut b = BuddyAllocator::new();
    b.add_region(0x10000, 0x20000);
    s.spawn(&mut b).unwrap();
    s.switch().unwrap();
    assert_eq!(sys_getpid([0; 6], &s), 1);
}

#[test]
fn handler_dispatches_by_number() {
    let s = Scheduler::new();
    let a = [1, 7, 3, 0, 0, 0];
    assert_eq!(syscall_handler(0, a, &s), SyscallAction::Unimplemented(Syscall::Read));
    assert_eq!(syscall_handler(1, a, &s), SyscallAction::WriteConsole { buf: 7, len: 3 });
    assert_eq!(syscall_handler(2, a, &s), SyscallAction::Unimplemented(Syscall::Open));
    assert_eq!(syscall_handler(3, a, &s), SyscallAction::Unimplemented(Syscall::Close));
    assert_eq!(syscall_handler(4, a, &s), SyscallAction::Unimplemented(Syscall::Exit));
    assert_eq!(syscall_handler(5, a, &s), SyscallAction::Yield);
    assert_eq!(syscall_handler(6, a, &s), SyscallAction::Return(0));
    assert_eq!(syscall_handler(7, a, &s), SyscallAction::Unimplemented(Syscall::Mmap));
    assert_eq!(syscall_handler(8, a, &s), SyscallAction::Unknown(8));
    assert_eq!(syscall_handler(u64::MAX, a, &s), SyscallAction::Unknown(u64::MAX));
}
