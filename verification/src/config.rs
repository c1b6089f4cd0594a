//! Constants of the kernel.

use vstd::prelude::*;

verus! {

/// Size of one page of memory, in bytes.
pub const PAGE_SIZE: usize = 4096;

/// Virtual page numbers are below this bound, so every byte address of a
/// mapped page fits comfortably in a `usize` on any supported machine.
pub const MAX_VPN: usize = 0x80000;

/// User app's stack size.
pub const USER_STACK_SIZE: usize = 4096;

/// Kernel stack size.
pub const KERNEL_STACK_SIZE: usize = 8192;

/// The largest amount a task's heap may grow beyond its starting break.
pub const MAX_HEAP_SIZE: usize = 0x20000;

/// The syscall id max value: per-task syscall counters have one slot for
/// each id below this bound, and larger ids are rejected.
pub const SYSCALL_MAX_ID: usize = 500;

/// The most process-table slots the kernel will ever hold; one more task
/// than this is a resource-exhaustion failure.
pub const MAX_TASKS: usize = 1024;

/// Longest user string (path or argument) the kernel will read before
/// giving up the scan for a terminating zero byte.
pub const MAX_STR_LEN: usize = 256;

} // verus!
