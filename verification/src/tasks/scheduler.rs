//! Round-robin scheduling decisions.  The scheduler keeps the ready queue
//! and the running task; the context switch itself, which moves the stack
//! pointer, is carried out by the caller with the values returned here.
use std::collections::VecDeque;
use vstd::prelude::*;
use crate::mm::buddy::BuddyAllocator;
use crate::mm::free_lists::{PAGE_SIZE, alloc_spec, frame_address};
use crate::tasks::task::{
    DEFAULT_STACK_ORDER, StackLayout, Task, TaskId, TaskState, stack_fits, stack_layout,
    stack_layout_spec,
};

verus! {

/// `t` with its state set to `state`.
pub open spec fn with_state(t: Task, state: TaskState) -> Task {
    Task { id: t.id, state, stack_bottom: t.stack_bottom, stack_ptr: t.stack_ptr, stack_order: t.stack_order }
}

/// The task the kernel runs on before the first switch: id 0, running, and
/// without a stack of its own.
pub open spec fn kernel_task() -> Task {
    Task { id: TaskId(0), state: TaskState::Running, stack_bottom: 0, stack_ptr: 0, stack_order: 0 }
}

/// Every task id in use, waiting or running, is below the next id to hand
/// out, and that id is at least 1.
pub open spec fn ids_below_next(s: Scheduler) -> bool {
    &&& s.next_task_id() >= 1
    &&& forall|i: int| 0 <= i < s.ready().len() ==> (#[trigger] s.ready()[i]).id.0 < s.next_task_id()
    &&& s.current() matches Some(t) ==> t.id.0 < s.next_task_id()
}

/// What a context switch has to do: whether to save the outgoing stack
/// pointer (into the `stack_ptr` of the task now at the back of the ready
/// queue), and the stack pointer to resume.
#[derive(Clone, Copy, PartialEq, Eq, Structural, Debug)]
pub struct Switch {
    pub save_old: bool,
    pub new_rsp: usize,
}

pub struct Scheduler {
    /// The tasks waiting to run, in the order they will run.
    pub ready_queue: VecDeque<Task>,
    current_task: Option<Task>,
    next_id: usize,
    phys_mem_offset: usize,
}

impl Scheduler {
    /// The tasks waiting to run, in the order they will run.
    pub closed spec fn ready(&self) -> Seq<Task> {
        self.ready_queue@
    }

    /// The running task, if any.
    pub closed spec fn current(&self) -> Option<Task> {
        self.current_task
    }

    /// The id the next spawned task gets.
    pub closed spec fn next_task_id(&self) -> usize {
        self.next_id
    }

    /// Where physical memory is mapped in the kernel's address space.
    pub closed spec fn offset(&self) -> usize {
        self.phys_mem_offset
    }

    /// An empty scheduler: no tasks, ids starting at 1.
    pub fn new() -> (r: Self)
        ensures
            r.ready() == Seq::<Task>::empty(),
            r.current() is None,
            r.next_task_id() == 1,
            r.offset() == 0,
            ids_below_next(r),
    {
        Scheduler { ready_queue: VecDeque::new(), current_task: None, next_id: 1, phys_mem_offset: 0 }
    }

    /// Records where physical memory is mapped and makes the kernel's own
    /// task the running one; returns the task it replaces, whose stack the
    /// caller releases.
    pub fn init(&mut self, phys_mem_offset: usize) -> (prev: Option<Task>)
        ensures
            prev == old(self).current(),
            final(self).current() == Some(kernel_task()),
            final(self).offset() == phys_mem_offset,
            final(self).ready() == old(self).ready(),
            final(self).next_task_id() == old(self).next_task_id(),
            ids_below_next(*old(self)) ==> ids_below_next(*final(self)),
    {
        self.phys_mem_offset = phys_mem_offset;
        let prev = self.current_task.take();
        self.current_task = Some(
            Task { id: TaskId(0), state: TaskState::Running, stack_bottom: 0, stack_ptr: 0, stack_order: 0 },
        );
        prev
    }

    /// Spawns a task with a stack of the default order; see
    /// `spawn_with_order`.
    pub fn spawn(&mut self, allocator: &mut BuddyAllocator) -> (r: Option<StackLayout>)
        requires
            old(allocator).wf(),
            old(self).next_task_id() < usize::MAX,
            alloc_spec(old(allocator)@, DEFAULT_STACK_ORDER as int).1 matches Some(p) ==> stack_fits(
                p * PAGE_SIZE,
                DEFAULT_STACK_ORDER as int,
                old(self).offset() as int,
            ),
        ensures
            final(allocator).wf(),
            spawned(*old(self), *final(self), old(allocator)@, final(allocator)@, DEFAULT_STACK_ORDER, r),
    {
        self.spawn_with_order(allocator, DEFAULT_STACK_ORDER)
    }

    /// Spawns a task with a stack of `PAGE_SIZE << order` bytes: it takes
    /// the next id and joins the back of the ready queue.  Returns where the
    /// caller writes the task's exit slot and initial context, or `None`
    /// when no stack block is free.
    pub fn spawn_with_order(&mut self, allocator: &mut BuddyAllocator, order: usize) -> (r: Option<
        StackLayout,
    >)
        requires
            old(allocator).wf(),
            old(self).next_task_id() < usize::MAX,
            alloc_spec(old(allocator)@, order as int).1 matches Some(p) ==> stack_fits(
                p * PAGE_SIZE,
                order as int,
                old(self).offset() as int,
            ),
        ensures
            final(allocator).wf(),
            spawned(*old(self), *final(self), old(allocator)@, final(allocator)@, order, r),
    {
        let id = TaskId(self.next_id);
        self.next_id = self.next_id + 1;
        let offset = self.phys_mem_offset;
        match Task::new(id, allocator, order, offset) {
            Some(task) => {
                let layout = stack_layout(task.stack_bottom, order, offset);
                self.ready_queue.push_back(task);
                Some(layout)
            },
            None => None,
        }
    }

    /// The id of the running task.
    pub fn current_id(&self) -> (r: Option<TaskId>)
        ensures
            r == match self.current() {
                Some(t) => Some(t.id),
                None => None::<TaskId>,
            },
    {
        match &self.current_task {
            Some(t) => Some(t.id),
            None => None,
        }
    }

    /// The id the next spawned task gets.
    pub fn next_id(&self) -> (r: usize)
        ensures
            r == self.next_task_id(),
    {
        self.next_id
    }

    /// Number of tasks waiting to run.
    pub fn ready_count(&self) -> (r: usize)
        ensures
            r == self.ready().len(),
    {
        self.ready_queue.len()
    }

    /// The id of the running task, as the `getpid` call reports it.
    pub fn get_current_task_pid(&self) -> (r: Option<TaskId>)
        ensures
            r == match self.current() {
                Some(t) => Some(t.id),
                None => None::<TaskId>,
            },
    {
        match &self.current_task {
            Some(t) => Some(t.id),
            None => None,
        }
    }

    /// Yields the processor: when a task is waiting, the running task goes
    /// to the back of the ready queue and the first waiting task runs.
    /// Returns the switch to perform, or `None` to keep running.
    pub fn switch(&mut self) -> (r: Option<Switch>)
        requires
            old(self).ready().len() > 0 ==> old(self).current() is Some,
        ensures
            final(self).offset() == old(self).offset(),
            final(self).next_task_id() == old(self).next_task_id(),
            old(self).ready().len() == 0 ==> r is None && final(self).ready() == old(
                self,
            ).ready() && final(self).current() == old(self).current(),
            old(self).ready().len() > 0 ==> {
                let c = old(self).current()->0;
                let q = old(self).ready().push(with_state(c, TaskState::Ready));
                &&& r == Some(Switch { save_old: c.stack_bottom != 0, new_rsp: q[0].stack_ptr })
                &&& final(self).ready() == q.subrange(1, q.len() as int)
                &&& final(self).current() == Some(with_state(q[0], TaskState::Running))
            },
            final(self).ready().len() == old(self).ready().len(),
            old(self).ready().len() > 0 ==> switch_step(*old(self), *final(self)),
            ids_below_next(*old(self)) ==> ids_below_next(*final(self)),
    {
        if self.ready_queue.len() == 0 {
            return None;
        }
        let mut old_task = match self.current_task.take() {
            Some(t) => t,
            None => {
                return None;
            },
        };
        old_task.state = TaskState::Ready;
        let is_real = old_task.stack_bottom != 0;
        self.ready_queue.push_back(old_task);
        let mut next_task = match self.ready_queue.pop_front() {
            Some(t) => t,
            None => {
                return None;
            },
        };
        next_task.state = TaskState::Running;
        let new_rsp = next_task.stack_ptr;
        self.current_task = Some(next_task);
        Some(Switch { save_old: is_real, new_rsp })
    }

    /// Ends the running task.  Returns it, for the caller to release its
    /// stack, and the stack pointer of the first waiting task, which now
    /// runs; `None` when no task waits and the processor idles.
    pub fn exit_current(&mut self) -> (r: (Option<Task>, Option<usize>))
        ensures
            r.0 == old(self).current(),
            final(self).offset() == old(self).offset(),
            final(self).next_task_id() == old(self).next_task_id(),
            old(self).ready().len() == 0 ==> r.1 is None && final(self).current() is None
                && final(self).ready() == old(self).ready(),
            old(self).ready().len() > 0 ==> {
                let q = old(self).ready();
                &&& r.1 == Some(q[0].stack_ptr)
                &&& final(self).ready() == q.subrange(1, q.len() as int)
                &&& final(self).current() == Some(with_state(q[0], TaskState::Running))
            },
            ids_below_next(*old(self)) ==> ids_below_next(*final(self)),
    {
        let finished = self.current_task.take();
        if self.ready_queue.len() == 0 {
            return (finished, None);
        }
        let mut next = match self.ready_queue.pop_front() {
            Some(t) => t,
            None => {
                return (finished, None);
            },
        };
        next.state = TaskState::Running;
        let new_rsp = next.stack_ptr;
        self.current_task = Some(next);
        (finished, Some(new_rsp))
    }

    /// Starts the first waiting task.  Returns the task it replaces as the
    /// running one, for the caller to release, and the stack pointer to
    /// resume.
    pub fn run_first(&mut self) -> (r: (Option<Task>, usize))
        requires
            old(self).ready().len() > 0,
        ensures
            ({
                let q = old(self).ready();
                &&& r.0 == old(self).current()
                &&& r.1 == q[0].stack_ptr
                &&& final(self).ready() == q.subrange(1, q.len() as int)
                &&& final(self).current() == Some(with_state(q[0], TaskState::Running))
                &&& final(self).offset() == old(self).offset()
                &&& final(self).next_task_id() == old(self).next_task_id()
            }),
            ids_below_next(*old(self)) ==> ids_below_next(*final(self)),
    {
        let mut next = match self.ready_queue.pop_front() {
            Some(t) => t,
            None => {
                return (self.current_task.take(), 0);
            },
        };
        next.state = TaskState::Running;
        let new_rsp = next.stack_ptr;
        let prev = self.current_task.take();
        self.current_task = Some(next);
        (prev, new_rsp)
    }
}

/// What spawning a task with a stack of the given order does: the next id
/// is used up; when the allocator hands out a block, a ready task with that
/// stack joins the back of the ready queue and its stack layout is
/// returned; otherwise nothing else changes and `None` is returned.
pub open spec fn spawned(
    before: Scheduler,
    after: Scheduler,
    alloc_before: Seq<Seq<usize>>,
    alloc_after: Seq<Seq<usize>>,
    order: usize,
    r: Option<StackLayout>,
) -> bool {
    &&& alloc_after == alloc_spec(alloc_before, order as int).0
    &&& after.next_task_id() == before.next_task_id() + 1
    &&& after.current() == before.current()
    &&& after.offset() == before.offset()
    &&& ids_below_next(before) ==> ids_below_next(after)
    &&& match frame_address(alloc_spec(alloc_before, order as int).1) {
        None => r is None && after.ready() == before.ready(),
        Some(a) => {
            let layout = stack_layout_spec(a as int, order as int, before.offset() as int);
            &&& r == Some(layout)
            &&& after.ready() == before.ready().push(
                Task {
                    id: TaskId(before.next_task_id()),
                    state: TaskState::Ready,
                    stack_bottom: a,
                    stack_ptr: layout.stack_ptr,
                    stack_order: order,
                },
            )
        },
    }
}

/// What one `switch` does with a task waiting: the running task joins the
/// back of the ready queue as ready, and the first waiting task runs.
pub open spec fn switch_step(a: Scheduler, b: Scheduler) -> bool {
    let q = a.ready().push(with_state(a.current()->0, TaskState::Ready));
    &&& a.ready().len() > 0
    &&& a.current() is Some
    &&& b.ready() == q.subrange(1, q.len() as int)
    &&& b.current() == Some(with_state(q[0], TaskState::Running))
}

/// The tasks marked ready.
pub open spec fn all_ready(q: Seq<Task>) -> Seq<Task> {
    q.map_values(|t: Task| with_state(t, TaskState::Ready))
}

/// After `k` of the switches, `1 <= k <= n` for `n` waiting tasks, task
/// `k - 1` of the queue runs, and the queue holds the rest of the old
/// queue, then the old running task, then the tasks that ran before.
#[verifier::spinoff_prover]
#[verifier::rlimit(40)]
proof fn lemma_rotation(s: Seq<Scheduler>, k: int)
    requires
        s.len() >= 2,
        s[0].ready().len() + 2 == s.len(),
        forall|i: int| 0 <= i < s.len() - 1 ==> switch_step(#[trigger] s[i], s[i + 1]),
        1 <= k <= s[0].ready().len(),
    ensures
        ({
            let q0 = s[0].ready();
            &&& s[k].current() == Some(with_state(q0[k - 1], TaskState::Running))
            &&& s[k].ready() == q0.subrange(k, q0.len() as int) + seq![
                with_state(s[0].current()->0, TaskState::Ready),
            ] + all_ready(q0.subrange(0, k - 1))
        }),
    decreases k,
{
    let q0 = s[0].ready();
    let r0 = with_state(s[0].current()->0, TaskState::Ready);
    if k == 1 {
        assert(switch_step(s[0], s[1]));
        let q = q0.push(r0);
        assert(q.subrange(1, q.len() as int) =~= q0.subrange(1, q0.len() as int) + seq![r0]
            + all_ready(q0.subrange(0, 0)));
    } else {
        lemma_rotation(s, k - 1);
        assert(switch_step(s[k - 1], s[k]));
        let prev = s[k - 1].ready();
        let q = prev.push(with_state(s[k - 1].current()->0, TaskState::Ready));
        assert(q[0] == q0[k - 1]);
        assert(all_ready(q0.subrange(0, k - 2)).push(with_state(q0[k - 2], TaskState::Ready))
            =~= all_ready(q0.subrange(0, k - 1)));
        assert(q.subrange(1, q.len() as int) =~= q0.subrange(k, q0.len() as int) + seq![r0]
            + all_ready(q0.subrange(0, k - 1)));
    }
}

/// With `n` tasks waiting, `n + 1` switches in a row run each waiting task
/// once, in queue order, and then the task that was running; afterwards
/// that task runs again and the queue holds the same tasks in the same
/// order, marked ready.
pub proof fn law_switch_round_robin(s: Seq<Scheduler>)
    requires
        s.len() >= 2,
        s[0].ready().len() + 2 == s.len(),
        forall|i: int| 0 <= i < s.len() - 1 ==> switch_step(#[trigger] s[i], s[i + 1]),
    ensures
        forall|i: int|
            1 <= i < s.len() - 1 ==> #[trigger] s[i].current() == Some(
                with_state(s[0].ready()[i - 1], TaskState::Running),
            ),
        s.last().current() == Some(with_state(s[0].current()->0, TaskState::Running)),
        s.last().ready() == all_ready(s[0].ready()),
{
    let q0 = s[0].ready();
    let n = q0.len() as int;
    assert forall|i: int| 1 <= i < s.len() - 1 implies #[trigger] s[i].current() == Some(
        with_state(q0[i - 1], TaskState::Running),
    ) by {
        lemma_rotation(s, i);
    }
    assert(switch_step(s[0], s[1]));
    let r0 = with_state(s[0].current()->0, TaskState::Ready);
    if n == 0 {
        assert(false);
    }
    lemma_rotation(s, n);
    assert(switch_step(s[n], s[n + 1]));
    let q = s[n].ready().push(with_state(s[n].current()->0, TaskState::Ready));
    assert(q[0] == r0);
    assert(all_ready(q0.subrange(0, n - 1)).push(with_state(q0[n - 1], TaskState::Ready))
        =~= all_ready(q0));
    assert(q.subrange(1, q.len() as int) =~= all_ready(q0));
}

/// Spawning adds one task to the ready queue when a stack was allocated,
/// and none otherwise.
pub proof fn law_spawn_queue_length(
    before: Scheduler,
    after: Scheduler,
    alloc_before: Seq<Seq<usize>>,
    alloc_after: Seq<Seq<usize>>,
    order: usize,
    r: Option<StackLayout>,
)
    requires
        spawned(before, after, alloc_before, alloc_after, order, r),
    ensures
        after.ready().len() == before.ready().len() + if r is Some { 1int } else { 0int },
{
}

/// A spawned task gets an id that no task already there has.
pub proof fn law_spawned_id_is_new(
    before: Scheduler,
    after: Scheduler,
    alloc_before: Seq<Seq<usize>>,
    alloc_after: Seq<Seq<usize>>,
    order: usize,
    r: Option<StackLayout>,
)
    requires
        ids_below_next(before),
        spawned(before, after, alloc_before, alloc_after, order, r),
        r is Some,
    ensures
        after.ready().len() == before.ready().len() + 1,
        after.ready().last().id == TaskId(before.next_task_id()),
        forall|i: int| 0 <= i < before.ready().len() ==> (#[trigger] before.ready()[i]).id != after.ready().last().id,
        before.current() matches Some(t) ==> t.id != after.ready().last().id,
{
}

} // verus!
