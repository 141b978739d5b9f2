//! Task bookkeeping: the saved register context, the control block, and
//! the FIFO ready queue of the scheduler.

use std::collections::VecDeque;

use vstd::prelude::*;

verus! {

/// The callee-saved state a task switch preserves.
#[derive(Clone, Copy, Debug)]
pub struct TaskContext {
    /// Return address the switch returns through.
    pub ra: usize,
    /// Kernel stack pointer of the task.
    pub sp: usize,
    /// The callee-saved registers `s0` through `s11`.
    pub s: [usize; 12],
}

impl TaskContext {
    /// An all-zero context, the state before first dispatch.
    pub fn zero_init() -> (r: TaskContext)
        ensures
            r.ra == 0,
            r.sp == 0,
            forall|i: int| 0 <= i < 12 ==> (#[trigger] r.s@[i]) == 0,
    {
        broadcast use vstd::array::group_array_axioms;

        TaskContext { ra: 0, sp: 0, s: [0; 12] }
    }
}

/// Lifecycle state of a task.
#[derive(Clone, Copy, PartialEq, Eq, Structural, Debug)]
pub enum TaskStatus {
    /// Not yet initialized.
    UnInit,
    /// Ready to run.
    Ready,
    /// Currently running.
    Running,
    /// Finished.
    Exited,
}

/// Everything the scheduler keeps per task.
#[derive(Clone, Copy, Debug)]
pub struct TaskControlBlock {
    /// The task's lifecycle state.
    pub task_status: TaskStatus,
    /// The task's saved context.
    pub task_cx: TaskContext,
}

/// The FIFO ready queue: tasks are fetched in the order they were added.
pub struct TaskManager {
    ready_queue: VecDeque<TaskControlBlock>,
}

impl TaskManager {
    /// The queued tasks, front first (specification only).
    pub closed spec fn view(&self) -> Seq<TaskControlBlock> {
        self.ready_queue@
    }

    /// An empty ready queue.
    pub fn new() -> (r: TaskManager)
        ensures
            r@ == Seq::<TaskControlBlock>::empty(),
    {
        TaskManager { ready_queue: VecDeque::new() }
    }

    /// Append a task at the back of the queue.
    pub fn add(&mut self, task: TaskControlBlock)
        ensures
            final(self)@ == old(self)@.push(task),
    {
        self.ready_queue.push_back(task);
    }

    /// Remove and return the task at the front, if any.
    pub fn fetch(&mut self) -> (r: Option<TaskControlBlock>)
        ensures
            match r {
                Some(t) => old(self)@.len() > 0 && t == old(self)@[0] && final(self)@ == old(
                    self,
                )@.subrange(1, old(self)@.len() as int),
                None => old(self)@.len() == 0 && final(self)@ == old(self)@,
            },
    {
        self.ready_queue.pop_front()
    }
}

} // verus!
