//! A kernel task: its identity, state and stack.
use vstd::prelude::*;
use crate::mm::buddy::{BuddyAllocator, can_free_spec};
use crate::mm::free_lists::{
    PAGE_SIZE, MAX_ORDER, alloc_spec, block_pages, frame_address, free_spec, lemma_alloc_spec,
    lemma_wf_block_ok, block_ok, block_is_unused,
};

verus! {

/// Stack order used when none is given: four pages, 16 KiB.
pub const DEFAULT_STACK_ORDER: usize = 2;

/// Bytes in a machine word.
pub const WORD_SIZE: usize = 8;

/// Bytes in a saved `TaskContext`: seven machine words.
pub const CONTEXT_SIZE: usize = 56;

#[derive(Clone, Copy, PartialEq, Eq, Structural, Debug)]
pub struct TaskId(pub usize);

#[derive(Clone, Copy, PartialEq, Eq, Structural, Debug)]
pub enum TaskState {
    Ready,
    Running,
    Blocked,
}

/// The registers a context switch saves on a task's stack, lowest address
/// first; `rip` is where the task resumes.
#[derive(Clone, Copy, PartialEq, Eq, Structural, Debug)]
pub struct TaskContext {
    pub r15: usize,
    pub r14: usize,
    pub r13: usize,
    pub r12: usize,
    pub rbx: usize,
    pub rbp: usize,
    pub rip: usize,
}

impl TaskContext {
    /// The context a new task starts from: every register zero, resuming at
    /// `entry`.
    pub fn starting_at(entry: usize) -> (r: Self)
        ensures
            r == (TaskContext { r15: 0, r14: 0, r13: 0, r12: 0, rbx: 0, rbp: 0, rip: entry }),
    {
        TaskContext { r15: 0, r14: 0, r13: 0, r12: 0, rbx: 0, rbp: 0, rip: entry }
    }
}

pub struct Task {
    pub id: TaskId,
    pub state: TaskState,
    /// Physical address of the stack block; 0 for the kernel's own task.
    pub stack_bottom: usize,
    /// Virtual address of the saved stack pointer.
    pub stack_ptr: usize,
    /// Buddy order of the stack block.
    pub stack_order: usize,
}

/// Where a new task's stack frame lies: the return slot that holds the
/// address of the task-exit routine, and the saved context just below it.
#[derive(Clone, Copy, PartialEq, Eq, Structural, Debug)]
pub struct StackLayout {
    pub exit_slot: usize,
    pub stack_ptr: usize,
}

/// The top of the stack, rounded down to 16 bytes.
pub open spec fn stack_top_aligned(stack_bottom_phys: int, stack_order: int, phys_mem_offset: int) -> int {
    let top = stack_bottom_phys + phys_mem_offset + PAGE_SIZE * block_pages(stack_order);
    top - top % 16
}

/// The layout of a new task's stack: the exit slot one word below the
/// 16-byte-aligned top of the stack (seen through the physical-memory
/// window at `phys_mem_offset`), the context right below the exit slot.
pub open spec fn stack_layout_spec(stack_bottom_phys: int, stack_order: int, phys_mem_offset: int) -> StackLayout {
    let exit_slot = stack_top_aligned(stack_bottom_phys, stack_order, phys_mem_offset) - WORD_SIZE;
    StackLayout { exit_slot: exit_slot as usize, stack_ptr: (exit_slot - CONTEXT_SIZE) as usize }
}

/// The stack's virtual addresses fit in a machine word.
pub open spec fn stack_fits(stack_bottom_phys: int, stack_order: int, phys_mem_offset: int) -> bool {
    stack_bottom_phys + phys_mem_offset + PAGE_SIZE * block_pages(stack_order) <= usize::MAX
}

/// Computes where a new task's exit slot and initial context go.
pub fn stack_layout(stack_bottom_phys: usize, stack_order: usize, phys_mem_offset: usize) -> (r: StackLayout)
    requires
        stack_order < MAX_ORDER,
        stack_fits(stack_bottom_phys as int, stack_order as int, phys_mem_offset as int),
    ensures
        r == stack_layout_spec(stack_bottom_phys as int, stack_order as int, phys_mem_offset as int),
        r.stack_ptr + CONTEXT_SIZE == r.exit_slot,
        r.exit_slot as int % 16 == 8,
{
    proof {
        vstd::arithmetic::power2::lemma2_to64();
        vstd::arithmetic::power2::lemma_pow2_pos(stack_order as nat);
        vstd::bits::lemma_usize_shl_is_mul(4096, stack_order);
        if stack_order < 10 {
            vstd::arithmetic::power2::lemma_pow2_strictly_increases(stack_order as nat, 10);
        }
    }
    let stack_size: usize = 4096 << stack_order;
    let stack_bottom_virt = stack_bottom_phys + phys_mem_offset;
    let stack_top_virt = stack_bottom_virt + stack_size;
    let stack_top_aligned = stack_top_virt & !0xF;
    proof {
        assert(stack_top_virt & !0xFusize == stack_top_virt - stack_top_virt % 16) by (bit_vector);
    }
    let exit_slot = stack_top_aligned - WORD_SIZE;
    let stack_ptr_virt = exit_slot - CONTEXT_SIZE;
    StackLayout { exit_slot, stack_ptr: stack_ptr_virt }
}

impl Task {
    /// A new ready task with a fresh stack of `PAGE_SIZE << stack_order`
    /// bytes from `allocator`; `None` when no such block is free.
    ///
    /// The caller writes the task's initial `TaskContext` at the returned
    /// task's `stack_ptr` and the task-exit address at the exit slot of
    /// `stack_layout`.
    pub fn new(id: TaskId, allocator: &mut BuddyAllocator, stack_order: usize, phys_mem_offset: usize) -> (r: Option<Task>)
        requires
            old(allocator).wf(),
            alloc_spec(old(allocator)@, stack_order as int).1 matches Some(p) ==> stack_fits(
                p * PAGE_SIZE,
                stack_order as int,
                phys_mem_offset as int,
            ),
        ensures
            final(allocator).wf(),
            final(allocator)@ == alloc_spec(old(allocator)@, stack_order as int).0,
            match frame_address(alloc_spec(old(allocator)@, stack_order as int).1) {
                None => r is None,
                Some(a) => r == Some(Task {
                    id,
                    state: TaskState::Ready,
                    stack_bottom: a,
                    stack_ptr: stack_layout_spec(a as int, stack_order as int, phys_mem_offset as int).stack_ptr,
                    stack_order,
                }),
            },
    {
        let stack_bottom_phys = match allocator.alloc_block(stack_order) {
            Some(a) => a,
            None => {
                return None;
            },
        };
        let layout = stack_layout(stack_bottom_phys, stack_order, phys_mem_offset);
        Some(Task {
            id,
            state: TaskState::Ready,
            stack_bottom: stack_bottom_phys,
            stack_ptr: layout.stack_ptr,
            stack_order,
        })
    }

    /// Gives the task's stack back to `allocator`; the kernel's own task
    /// (stack address 0) has none to give back.
    pub fn release(self, allocator: &mut BuddyAllocator)
        requires
            old(allocator).wf(),
            self.stack_bottom != 0 ==> can_free_spec(old(allocator)@, self.stack_bottom, self.stack_order),
        ensures
            final(allocator).wf(),
            self.stack_bottom == 0 ==> final(allocator)@ == old(allocator)@,
            self.stack_bottom != 0 ==> final(allocator)@ == free_spec(
                old(allocator)@,
                (self.stack_bottom / PAGE_SIZE) as usize,
                self.stack_order as int,
            ),
    {
        if self.stack_bottom != 0 {
            allocator.free(self.stack_bottom, self.stack_order);
        }
    }
}

} // verus!
