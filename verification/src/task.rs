//! Types related to task management: saved contexts, per-task accounting,
//! and the task control block.

use vstd::prelude::*;
use crate::config::SYSCALL_MAX_ID;
use crate::addrspace::AddrSpace;

verus! {

/// Address of the trap-return trampoline that a fresh task context
/// returns through (the assembly trampoline itself is outside this model).
pub const TRAMPOLINE: usize = usize::MAX - 4096 + 1;

/// The status of a task in its lifecycle.
#[derive(Clone, Copy, Debug, PartialEq, Eq, Structural)]
pub enum TaskStatus {
    /// Uninitialized.
    UnInit,
    /// Ready to run.
    Ready,
    /// Running on the processor.
    Running,
    /// Exited, with its exit code not yet collected by its parent.
    Zombie,
}

/// A sequence of `n` zeroed machine words.
pub open spec fn zero_words(n: int) -> Seq<usize> {
    Seq::new(n as nat, |t: int| 0usize)
}

/// Task context: the callee-saved registers and stack pointer preserved
/// across a context switch.
pub struct TaskContext {
    /// Return position after task switching.
    pub ra: usize,
    /// Stack pointer.
    pub sp: usize,
    /// The twelve callee-saved registers.
    pub s: Vec<usize>,
}

impl TaskContext {
    /// The callee-saved register file always has twelve slots.
    pub open spec fn wf(self) -> bool {
        self.s@.len() == 12
    }

    /// Create a new empty task context.
    pub fn zero_init() -> (r: TaskContext)
        ensures
            r.wf(),
            r.ra == 0,
            r.sp == 0,
            r.s@ == zero_words(12),
    {
        TaskContext { ra: 0, sp: 0, s: zero_word_vec(12) }
    }

    /// Create a new task context that returns through the trap-return
    /// trampoline on a given kernel stack.
    pub fn goto_restore(kstack_ptr: usize) -> (r: TaskContext)
        ensures
            r.wf(),
            r.ra == TRAMPOLINE,
            r.sp == kstack_ptr,
            r.s@ == zero_words(12),
    {
        TaskContext { ra: TRAMPOLINE, sp: kstack_ptr, s: zero_word_vec(12) }
    }
}

/// Trap context: the user register snapshot and entry point used to
/// resume or modify user execution on fork and exec.
pub struct TrapContext {
    /// The 32 user general-purpose registers.
    pub x: Vec<usize>,
    /// User program counter at the trap.
    pub sepc: usize,
}

impl TrapContext {
    /// The register file always has 32 slots.
    pub open spec fn wf(self) -> bool {
        self.x@.len() == 32
    }

    /// A trap context for entering an app image: user program counter at
    /// the entry point, stack pointer register set, other registers zero.
    pub fn app_init(entry: usize, user_sp: usize) -> (r: TrapContext)
        ensures
            r.wf(),
            r.sepc == entry,
            r.x@ == zero_words(32).update(2, user_sp),
    {
        let mut x = zero_word_vec(32);
        x[2] = user_sp;
        TrapContext { x, sepc: entry }
    }
}

/// Per-task accounting: one syscall counter per syscall id, plus
/// accumulated user and kernel time with the last observed timestamp.
pub struct TaskInformation {
    /// The syscall count of the task, one slot per id below
    /// `SYSCALL_MAX_ID`.
    pub task_syscall_count: Vec<usize>,
    /// Accumulated user-mode time, then kernel-mode time.
    pub task_time: Vec<usize>,
    /// The last observed timestamp, and a spare flag slot.
    pub task_time_flag: Vec<usize>,
}

impl TaskInformation {
    /// The counter table has one slot per valid syscall id, and the time
    /// buckets have their fixed sizes.
    pub open spec fn wf(self) -> bool {
        &&& self.task_syscall_count@.len() == SYSCALL_MAX_ID
        &&& self.task_time@.len() == 2
        &&& self.task_time_flag@.len() == 2
    }

    /// Fresh task information: every counter and bucket zeroed.
    pub fn new() -> (r: TaskInformation)
        ensures
            r.wf(),
            r.task_syscall_count@ == zero_words(SYSCALL_MAX_ID as int),
            r.task_time@ == zero_words(2),
            r.task_time_flag@ == zero_words(2),
    {
        TaskInformation {
            task_syscall_count: zero_word_vec(SYSCALL_MAX_ID),
            task_time: zero_word_vec(2),
            task_time_flag: zero_word_vec(2),
        }
    }

    /// On a transition between user and kernel mode at time `now`, adds
    /// the elapsed time since the last transition to the chosen bucket
    /// (0 for user time, 1 for kernel time; anything else attributes
    /// nothing) and records `now` as the last observed timestamp.
    pub fn timer(&mut self, flag: usize, now: usize)
        requires
            old(self).wf(),
            now >= old(self).task_time_flag@[0],
            flag <= 1 ==> old(self).task_time@[flag as int]
                + (now - old(self).task_time_flag@[0]) <= usize::MAX,
        ensures
            final(self).wf(),
            final(self).task_time_flag@ == old(self).task_time_flag@.update(0, now),
            flag <= 1 ==> final(self).task_time@ == old(self).task_time@.update(
                flag as int,
                (old(self).task_time@[flag as int]
                    + (now - old(self).task_time_flag@[0])) as usize),
            flag > 1 ==> final(self).task_time@ == old(self).task_time@,
            final(self).task_syscall_count@ == old(self).task_syscall_count@,
    {
        let fl = self.task_time_flag[0];
        if flag <= 1 {
            let bucket = self.task_time[flag];
            self.task_time[flag] = bucket + (now - fl);
        }
        self.task_time_flag[0] = now;
    }
}

/// The task control block: per-task mutable state owned by the kernel.
pub struct TaskControlBlock {
    /// Process id, equal to this block's slot in the process table.
    pub pid: usize,
    /// The task status in its lifecycle.
    pub task_status: TaskStatus,
    /// The task context saved across context switches.
    pub task_cx: TaskContext,
    /// The user register snapshot of the latest trap.
    pub trap_cx: TrapContext,
    /// The task's address space, owned exclusively.
    pub addr_space: AddrSpace,
    /// Open-handle table: position is the descriptor number, each entry
    /// an index into the kernel's open-file table.
    pub fd_table: Vec<Option<usize>>,
    /// Parent link: a pid usable for lookup, not an ownership relation.
    pub parent: Option<usize>,
    /// Owned children, by pid; a child's slot is freed when it is reaped.
    pub children: Vec<usize>,
    /// Exit code, meaningful once the task is a zombie.
    pub exit_code: i32,
    /// Scheduling priority; meaningful values are 2 and above.
    pub priority: usize,
    /// Per-syscall and time accounting.
    pub task_info: TaskInformation,
    /// Lowest address of the task's heap.
    pub heap_bottom: usize,
    /// Current program break.
    pub program_brk: usize,
}

/// A vector of `n` zeroed machine words.
pub fn zero_word_vec(n: usize) -> (r: Vec<usize>)
    ensures
        r@ == zero_words(n as int),
{
    let mut r: Vec<usize> = Vec::new();
    let mut i: usize = 0;
    while i < n
        invariant
            i <= n,
            r@ =~= zero_words(i as int),
        decreases n - i,
    {
        r.push(0usize);
        proof {
            assert(r@ =~= zero_words(i as int + 1));
        }
        i = i + 1;
    }
    proof {
        assert(r@ =~= zero_words(n as int));
    }
    r
}

} // verus!
