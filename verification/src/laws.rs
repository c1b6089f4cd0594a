//! Laws relating the syscalls to one another, proved once and for all.

use vstd::prelude::*;
use vstd::arithmetic::div_mod::{lemma_div_is_ordered, lemma_fundamental_div_mod};
use crate::kernel::Kernel;
use crate::syscall::{
    bumped_counts, wait_has_match, wait_has_zombie, wait_first_zombie, wait_matches,
    wait_ptr_ok, wait_zombie_at, waitpid_result, SYSCALL_TRACE,
};

verus! {

/// A parent whose only child is a zombie reaps exactly that child's pid
/// (and, by `sys_waitpid`'s contract, its exact exit code is written
/// through the validated pointer) with a wildcard wait; a parent with no
/// children at all — as after that reap — is told that no child matches,
/// not that one is still running.
pub proof fn lemma_reap_only_zombie_child(k: Kernel, k2: Kernel, ptr: int)
    requires
        k.wf(),
        k.running(),
        k.task(k.cur()).children@.len() == 1,
        k.task(k.task(k.cur()).children@[0] as int).task_status is Zombie,
        wait_ptr_ok(k, ptr),
        k2.wf(),
        k2.running(),
        k2.task(k2.cur()).children@.len() == 0,
    ensures
        waitpid_result(k, -1isize, ptr) == k.task(k.cur()).children@[0] as isize,
        waitpid_result(k2, -1isize, ptr) == -1,
{
    assert(wait_matches(k, 0, -1isize));
    assert(wait_has_match(k, -1isize));
    assert(wait_zombie_at(k, 0, -1isize));
    assert(wait_has_zombie(k, -1isize));
    let w = wait_first_zombie(k, -1isize);
    assert(wait_zombie_at(k, w, -1isize)
        && forall|jj: int| 0 <= jj < w ==> !(#[trigger] wait_zombie_at(k, jj, -1isize))) by {
        assert(wait_zombie_at(k, 0, -1isize)
            && forall|jj: int| 0 <= jj < 0 ==> !(#[trigger] wait_zombie_at(k, jj, -1isize)));
    }
    assert(w == 0);
    if wait_has_match(k2, -1isize) {
        let j = choose|j: int|
            0 <= j < k2.task(k2.cur()).children@.len() && #[trigger] wait_matches(k2, j, -1isize);
        assert(false);
    }
}

/// A parent with one child that is still ready or running is told "still
/// running", not "no match", by a wildcard wait.
pub proof fn lemma_wait_on_running_child(k: Kernel, ptr: int)
    requires
        k.wf(),
        k.running(),
        k.task(k.cur()).children@.len() == 1,
        !(k.task(k.task(k.cur()).children@[0] as int).task_status is Zombie),
    ensures
        waitpid_result(k, -1isize, ptr) == -2,
{
    assert(wait_matches(k, 0, -1isize));
    assert(wait_has_match(k, -1isize));
    if wait_has_zombie(k, -1isize) {
        let j = choose|j: int| #[trigger] wait_zombie_at(k, j, -1isize);
        assert(j == 0);
        assert(false);
    }
}

/// Two consecutive trace queries of the trace syscall's own counter, by
/// the same task, return strictly increasing counts: each call itself
/// counts as one more invocation of the id it is invoked under.
pub proof fn lemma_trace_counts_increase(k0: Kernel, k1: Kernel, r1: isize, r2: isize)
    requires
        k0.wf(),
        k0.running(),
        k1.wf(),
        k1.running(),
        k0.task(k0.cur()).task_info.wf(),
        k0.task(k0.cur()).task_info.task_syscall_count@[SYSCALL_TRACE as int] + 2 <= isize::MAX,
        r1 == bumped_counts(k0, SYSCALL_TRACE)[SYSCALL_TRACE as int] as isize,
        k1.task(k1.cur()).task_info.task_syscall_count@ == bumped_counts(k0, SYSCALL_TRACE),
        r2 == bumped_counts(k1, SYSCALL_TRACE)[SYSCALL_TRACE as int] as isize,
    ensures
        r1 < r2,
{
    let c0 = k0.task(k0.cur()).task_info.task_syscall_count@[SYSCALL_TRACE as int];
    assert(c0 < usize::MAX);
    assert(bumped_counts(k0, SYSCALL_TRACE)[SYSCALL_TRACE as int] == c0 + 1);
    assert(bumped_counts(k1, SYSCALL_TRACE)[SYSCALL_TRACE as int] == c0 + 2);
}

/// The (seconds, microseconds) pair reported by get_time never decreases
/// lexicographically: the clock never decreases, and a later clock value
/// gives a later or equal pair.
pub proof fn lemma_time_pairs_monotone(c1: int, c2: int)
    requires
        0 <= c1 <= c2,
    ensures
        c1 / 1000000 <= c2 / 1000000,
        c1 / 1000000 == c2 / 1000000 ==> c1 % 1000000 <= c2 % 1000000,
{
    lemma_div_is_ordered(c1, c2, 1000000);
    if c1 / 1000000 == c2 / 1000000 {
        lemma_fundamental_div_mod(c1, 1000000);
        lemma_fundamental_div_mod(c2, 1000000);
    }
}

} // verus!
