use cheesecake_kernel::mm::buddy::BuddyAllocator;
use cheesecake_kernel::mm::free_lists::{MAX_ORDER, PAGE_SIZE};
use cheesecake_kernel::tasks::scheduler::{Scheduler, Switch};
use cheesecake_kernel::tasks::task::{
    stack_layout, StackLayout, Task, TaskContext, TaskId, TaskState, CONTEXT_SIZE,
    DEFAULT_STACK_ORDER,
};

fn allocator() -> BuddyAllocator {
    let mut b = BuddyAllocator::new();
    b.add_region(0x100000, 0x200000); // 1 MiB of frames
    b
}

#[test]
fn new_scheduler_is_empty() {
    let s = Scheduler::new();
    assert_eq!(s.ready_count(), 0);
    assert_eq!(s.current_id(), None);
    assert_eq!(s.get_current_task_pid(), None);
}

#[test]
fn init_runs_kernel_task() {
    let mut s = Scheduler::new();
    assert!(s.init(0x1000).is_none());
    assert_eq!(s.current_id(), Some(TaskId(0)));
    assert_eq!(s.ready_count(), 0);
}

#[test]
fn stack_layout_aligns_and_reserves_exit_slot() {
    // 16 KiB stack at physical 0x100000, physical memory mapped at 0x1000_0000.
    let l = stack_layout(0x100000, 2, 0x1000_0000);
    let top = 0x1000_0000 + 0x100000 + 0x4000;
    assert_eq!(l, StackLayout { exit_slot: top - 8, stack_ptr: top - 8 - 56 });
    // An offset that is not 16-aligned is rounded down.
    let l = stack_layout(0x100000, 0, 0x1003);
    let top = (0x1003usize + 0x100000 + 0x1000) & !0xF;
    assert_eq!(l.exit_slot, top - 8);
    assert_eq!(l.stack_ptr + CONTEXT_SIZE, l.exit_slot);
    assert_eq!(l.exit_slot % 16, 8);
}

#[test]
fn task_new_takes_stack_from_allocator() {
    let mut b = allocator();
    let before = b.free_pages(8);
    let t = Task::new(TaskId(5), &mut b, DEFAULT_STACK_ORDER, 0).unwrap();
    assert_eq!(t.id, TaskId(5));
    assert_eq!(t.state, TaskState::Ready);
    assert_eq!(t.stack_order, DEFAULT_STACK_ORDER);
    assert_eq!(t.stack_bottom % (PAGE_SIZE << DEFAULT_STACK_ORDER), 0);
    assert_eq!(t.stack_ptr, stack_layout(t.stack_bottom, DEFAULT_STACK_ORDER, 0).stack_ptr);
    assert_eq!(b.free_pages(8), before - 1);
    assert!(b.can_free(t.stack_bottom + PAGE_SIZE, 0));
    assert!(!b.can_free(t.stack_bottom + (PAGE_SIZE << DEFAULT_STACK_ORDER), 0));
    assert!(!b.can_free(t.stack_bottom + PAGE_SIZE, 1)); // misaligned
    assert!(b.can_free(t.stack_bottom, DEFAULT_STACK_ORDER));
    t.release(&mut b);
    assert_eq!(b.free_pages(8), before);
    assert!(!b.can_free(0x100000, 0));
}

#[test]
fn task_new_fails_without_memory() {
    let mut b = BuddyAllocator::new();
    assert!(Task::new(TaskId(1), &mut b, 0, 0).is_none());
    let mut b = allocator();
    assert!(Task::new(TaskId(1), &mut b, MAX_ORDER, 0).is_none());
}

#[test]
fn spawn_queues_tasks_with_fresh_ids() {
    let mut b = allocator();
    let mut s = Scheduler::new();
    s.init(0x8000_0000);
    let l1 = s.spawn(&mut b).unwrap();
    let l2 = s.spawn_with_order(&mut b, 1).unwrap();
    assert_eq!(s.ready_count(), 2);
    let ids: Vec<TaskId> = s.ready_queue.iter().map(|t| t.id).collect();
    assert_eq!(ids, vec![TaskId(1), TaskId(2)]);
    assert_eq!(s.ready_queue[0].stack_ptr, l1.stack_ptr);
    assert_eq!(s.ready_queue[1].stack_ptr, l2.stack_ptr);
    assert_eq!(s.ready_queue[1].stack_order, 1);
    assert!(l1.stack_ptr >= 0x8000_0000);
}

#[test]
fn spawn_without_memory_queues_nothing() {
    let mut b = BuddyAllocator::new();
    let mut s = Scheduler::new();
    s.init(0);
    assert!(s.spawn(&mut b).is_none());
    assert_eq!(s.ready_count(), 0);
}

#[test]
fn switch_rotates_round_robin() {
    let mut b = allocator();
    let mut s = Scheduler::new();
    s.init(0);
    assert_eq!(s.switch(), None); // nothing waiting
    assert_eq!(s.current_id(), Some(TaskId(0)));
    s.spawn(&mut b).unwrap();
    s.spawn(&mut b).unwrap();
    let first_rsp = s.ready_queue[0].stack_ptr;
    let sw = s.switch().unwrap();
    // The kernel task has no stack of its own: nothing to save.
    assert_eq!(sw, Switch { save_old: false, new_rsp: first_rsp });
    assert_eq!(s.current_id(), Some(TaskId(1)));
    let ids: Vec<TaskId> = s.ready_queue.iter().map(|t| t.id).collect();
    assert_eq!(ids, vec![TaskId(2), TaskId(0)]);
    assert_eq!(s.ready_queue[1].state, TaskState::Ready);
    let sw = s.switch().unwrap();
    assert!(sw.save_old);
    assert_eq!(s.current_id(), Some(TaskId(2)));
    let ids: Vec<TaskId> = s.ready_queue.iter().map(|t| t.id).collect();
    assert_eq!(ids, vec![TaskId(0), TaskId(1)]);
    assert_eq!(s.ready_count(), 2);
}

#[test]
fn exit_current_runs_next_or_idles() {
    let mut b = allocator();
    let mut s = Scheduler::new();
    s.init(0);
    s.spawn(&mut b).unwrap();
    let rsp = s.ready_queue[0].stack_ptr;
    let (finished, next) = s.exit_current();
    assert_eq!(finished.map(|t| t.id), Some(TaskId(0)));
    assert_eq!(next, Some(rsp));
    assert_eq!(s.current_id(), Some(TaskId(1)));
    let (finished, next) = s.exit_current();
    let finished = finished.unwrap();
    assert_eq!(finished.id, TaskId(1));
    assert_eq!(next, None);
    assert_eq!(s.current_id(), None);
    let before = b.free_pages(8);
    finished.release(&mut b);
    assert_eq!(b.free_pages(8), before + 1);
}

#[test]
fn run_first_starts_head_of_queue() {
    let mut b = allocator();
    let mut s = Scheduler::new();
    s.init(0);
    s.spawn(&mut b).unwrap();
    s.spawn(&mut b).unwrap();
    let rsp = s.ready_queue[0].stack_ptr;
    let (prev, new_rsp) = s.run_first();
    assert_eq!(prev.map(|t| t.id), Some(TaskId(0)));
    assert_eq!(new_rsp, rsp);
    assert_eq!(s.current_id(), Some(TaskId(1)));
    assert_eq!(s.ready_count(), 1);
}

#[test]
fn kernel_task_release_frees_nothing() {
    let mut b = allocator();
    let mut s = Scheduler::new();
    s.init(0);
    let before: Vec<usize> = (0..MAX_ORDER).map(|o| b.free_pages(o)).collect();
    let (finished, _) = s.exit_current();
    finished.unwrap().release(&mut b);
    let after: Vec<usize> = (0..MAX_ORDER).map(|o| b.free_pages(o)).collect();
    assert_eq!(before, after);
}

#[test]
fn task_context_starts_at_entry() {
    let c = TaskContext::starting_at(0xdead);
    assert_eq!(c.rip, 0xdead);
    assert_eq!((c.r15, c.r14, c.r13, c.r12, c.rbx, c.rbp), (0, 0, 0, 0, 0, 0));
}

#[test]
fn n_plus_one_switches_rotate_once() {
    let mut b = allocator();
    let mut s = Scheduler::new();
    s.init(0);
    for _ in 0..3 {
        s.spawn(&mut b).unwrap();
    }
    let before: Vec<TaskId> = s.ready_queue.iter().map(|t| t.id).collect();
    let mut ran = Vec::new();
    for _ in 0..4 {
        s.switch().unwrap();
        ran.push(s.current_id().unwrap());
    }
    assert_eq!(ran, vec![TaskId(1), TaskId(2), TaskId(3), TaskId(0)]);
    let after: Vec<TaskId> = s.ready_queue.iter().map(|t| t.id).collect();
    assert_eq!(after, before);
    assert!(s.ready_queue.iter().all(|t| t.state == TaskState::Ready));
}
