//! Process management and memory syscalls, each acting on behalf of the
//! running task; every user pointer is validated through the address
//! space before any copy.

use vstd::prelude::*;
use crate::addrspace::{AddrSpace, clone_bytes, same_mapping, PERM_R, PERM_W, PERM_U};
use crate::config::{MAX_HEAP_SIZE, MAX_VPN, PAGE_SIZE, SYSCALL_MAX_ID};
use crate::kernel::{
    app_wf, DirEntry, Kernel, lemma_wf_links_preserved, lemma_wf_replace_task, OpenFileEntry,
    same_but_task, same_kernel,
};
use crate::task::{TaskControlBlock, TaskStatus};

verus! {

/// The parts of the kernel state that scheduling never touches.
pub open spec fn same_outside_sched(a: Kernel, b: Kernel) -> bool {
    &&& b.open_files@ == a.open_files@
    &&& b.inodes@ == a.inodes@
    &&& b.dir@ == a.dir@
    &&& b.apps@ == a.apps@
    &&& b.clock_us == a.clock_us
}

/// What a voluntary yield does: the running task goes to the tail of the
/// ready queue as `Ready`, the head of the resulting queue becomes the
/// running task, and nothing else changes. A task that yields with an
/// empty ready queue resumes itself.
pub open spec fn yield_post(pre: Kernel, post: Kernel) -> bool {
    let c = pre.cur();
    let q = pre.ready_queue@.push(pre.current.unwrap());
    let n = q[0] as int;
    &&& post.ready_queue@ == q.drop_first()
    &&& post.current == Some(q[0])
    &&& post.nt() == pre.nt()
    &&& (forall|i: int| pre.live(i) <==> #[trigger] post.live(i))
    &&& post.task(n).task_status is Running
    &&& (n != c ==> post.task(c) == (TaskControlBlock {
            task_status: TaskStatus::Ready,
            ..pre.task(c)
        }))
    &&& (n != c ==> post.task(n) == (TaskControlBlock {
            task_status: TaskStatus::Running,
            ..pre.task(n)
        }))
    &&& (n == c ==> post.task(c) == pre.task(c))
    &&& (forall|i: int| pre.live(i) && i != c && i != n ==> #[trigger] post.task(i) == pre.task(i))
    &&& same_outside_sched(pre, post)
}

/// The current task gives up the processor for other ready tasks.
pub fn sys_yield(k: &mut Kernel) -> (r: isize)
    requires
        old(k).wf(),
        old(k).running(),
    ensures
        final(k).wf(),
        final(k).running(),
        r == 0,
        yield_post(*old(k), *final(k)),
{
    let ghost pre = *old(k);
    let c = k.current_pid();
    proof {
        assert(k.live(c as int));
        assert(k.task_wf(c as int));
        // The running task is never in the ready queue.
        assert forall|q: int| 0 <= q < k.ready_queue@.len()
            implies #[trigger] k.ready_queue@[q] != c by {
            if k.ready_queue@[q] == c {
                assert(k.task(c as int).task_status is Ready);
            }
        }
    }
    let mut t = k.take_task(c);
    t.task_status = TaskStatus::Ready;
    k.put_task(c, t);
    k.ready_queue.push(c);
    let n = k.ready_queue.remove(0);
    proof {
        let q = pre.ready_queue@.push(pre.current.unwrap());
        assert(q[0] == n);
        assert(k.ready_queue@ == q.drop_first());
        if n != c {
            assert(pre.ready_queue@[0] == n);
            assert(pre.live(n as int));
            assert(pre.task(n as int).task_status is Ready);
            assert(k.live(n as int));
        }
    }
    let mut tn = k.take_task(n);
    tn.task_status = TaskStatus::Running;
    k.put_task(n, tn);
    k.current = Some(n);
    proof {
        let post = *k;
        let q = pre.ready_queue@.push(pre.current.unwrap());
        assert forall|i: int| pre.live(i) <==> #[trigger] post.live(i) by {}
        assert forall|i: int| pre.live(i) && i != c && i != n
            implies #[trigger] post.task(i) == pre.task(i) by {}
        assert forall|i: int| pre.live(i)
            implies (#[trigger] post.task(i)).pid == pre.task(i).pid
                && post.task(i).children@ == pre.task(i).children@
                && post.task(i).parent == pre.task(i).parent
                && post.tcb_local_wf(post.task(i))
                && (post.task(i).task_status is Zombie
                    ==> pre.task(i).task_status is Zombie) by {
            assert(pre.task_wf(i));
            if i != c && i != n {
                assert(post.task(i) == pre.task(i));
            }
            assert(pre.tcb_local_wf(pre.task(i)));
        }
        lemma_wf_links_preserved(pre, post);
        assert forall|qq: int| 0 <= qq < post.ready_queue@.len()
            implies post.live(#[trigger] post.ready_queue@[qq] as int)
                && post.task(post.ready_queue@[qq] as int).task_status is Ready by {
            let p = post.ready_queue@[qq] as int;
            assert(q[qq + 1] == post.ready_queue@[qq]);
            if p == c as int {
                assert(post.task(c as int).task_status is Ready);
            } else {
                assert(pre.ready_queue@[qq + 1 - 1] == post.ready_queue@[qq]
                    || pre.ready_queue@[qq + 1] == post.ready_queue@[qq]);
                assert(0 <= qq + 1 < q.len());
                if qq + 1 < pre.ready_queue@.len() {
                    assert(pre.ready_queue@[qq + 1] == q[qq + 1]);
                    assert(pre.live(p));
                    if p != n {
                        assert(post.task(p) == pre.task(p));
                    }
                } else {
                    assert(q[qq + 1] == pre.current.unwrap());
                }
            }
        }
        assert forall|q1: int, q2: int|
            0 <= q1 < post.ready_queue@.len() && 0 <= q2 < post.ready_queue@.len() && q1 != q2
            implies post.ready_queue@[q1] != post.ready_queue@[q2] by {
            assert(post.ready_queue@[q1] == q[q1 + 1]);
            assert(post.ready_queue@[q2] == q[q2 + 1]);
        }
        assert forall|i: int| post.live(i) && (#[trigger] post.task(i)).task_status is Running
            implies post.current == Some(i as usize) by {
            if i != c && i != n {
                assert(post.task(i) == pre.task(i));
                assert(pre.current == Some(i as usize));
                assert(i == c);
            }
            if i == c && c != n {
                assert(post.task(c as int).task_status is Ready);
            }
        }
        assert(post.wf());
        assert(yield_post(pre, post));
    }
    0
}

/// What exiting does: the caller becomes a zombie holding the exit code,
/// its address-space resources are released, every child is reparented to
/// the root task (pid 0) so orphaned zombies stay reapable, and the head
/// of the ready queue (if any) is switched to; exit never returns to the
/// caller.
pub open spec fn exit_post(pre: Kernel, post: Kernel, code: i32) -> bool {
    let c = pre.cur();
    let kids = pre.task(c).children@;
    let q = pre.ready_queue@;
    &&& post.nt() == pre.nt()
    &&& (forall|i: int| pre.live(i) <==> #[trigger] post.live(i))
    &&& post.task(c).task_status is Zombie
    &&& post.task(c).exit_code == code
    &&& post.task(c).children@.len() == 0
    &&& post.task(c).addr_space.pages@.len() == 0
    &&& post.task(c).task_info == pre.task(c).task_info
    &&& (forall|j: int| 0 <= j < kids.len()
            ==> (#[trigger] post.task(kids[j] as int)).parent == Some(0usize))
    &&& post.task(0).children@ == pre.task(0).children@ + kids
    &&& (q.len() == 0 ==> post.current is None && post.ready_queue@ == q)
    &&& (q.len() > 0 ==> post.current == Some(q[0])
            && post.ready_queue@ == q.drop_first()
            && post.task(q[0] as int).task_status is Running)
    &&& (forall|i: int|
            pre.live(i) && i != c && i != 0
                && !kids.contains(i as usize)
                && !(q.len() > 0 && i == q[0] as int)
            ==> #[trigger] post.task(i) == pre.task(i))
    &&& same_outside_sched(pre, post)
}

/// The running task exits with an exit code: it becomes a zombie, its
/// children are reparented to the root task, its address-space resources
/// are released, and the scheduler switches to the next ready task (or
/// idles if there is none). The root task itself never exits.
pub fn sys_exit(k: &mut Kernel, exit_code: i32)
    requires
        old(k).wf(),
        old(k).running(),
        old(k).cur() != 0,
        old(k).live(0),
        old(k).task(0).parent is None,
        !(old(k).task(0).task_status is Zombie),
    ensures
        final(k).wf(),
        exit_post(*old(k), *final(k), exit_code),
        final(k).running() == (old(k).ready_queue@.len() > 0),
{
    let ghost pre = *old(k);
    let c = k.current_pid();
    proof {
        assert(k.live(c as int));
        assert(k.task_wf(c as int));
        assert(k.task_wf(0));
        // The running task is never in the ready queue.
        assert forall|q: int| 0 <= q < k.ready_queue@.len()
            implies #[trigger] k.ready_queue@[q] != c by {
            if k.ready_queue@[q] == c {
                assert(k.task(c as int).task_status is Ready);
            }
        }
    }
    let mut tc = k.take_task(c);
    let mut kids: Vec<usize> = Vec::new();
    core::mem::swap(&mut kids, &mut tc.children);
    let ghost kidseq = kids@;
    tc.task_status = TaskStatus::Zombie;
    tc.exit_code = exit_code;
    tc.addr_space = AddrSpace::new();
    k.put_task(c, tc);
    let ghost zomb = k.task(c as int);
    proof {
        assert(kids@ == pre.task(c as int).children@);
        assert forall|jj: int| 0 <= jj < kids@.len()
            implies pre.live(#[trigger] kids@[jj] as int)
                && pre.task(kids@[jj] as int).parent == Some(c)
                && kids@[jj] != c && kids@[jj] != 0 by {
            let ki = kids@[jj] as int;
            assert(pre.live(ki));
            assert(pre.task(ki).parent == Some(c));
            assert(pre.task_wf(ki));
            if kids@[jj] == 0 {
                assert(pre.task(0).parent == Some(c));
            }
        }
    }
    // Reparent every child to the root task.
    let mut j: usize = 0;
    while j < kids.len()
        invariant
            pre.wf(),
            pre.running(),
            c as int == pre.cur(),
            c != 0,
            pre.live(c as int),
            pre.live(0),
            j <= kids@.len(),
            kids@ == pre.task(c as int).children@,
            forall|jj: int| 0 <= jj < kids@.len()
                ==> pre.live(#[trigger] kids@[jj] as int)
                    && pre.task(kids@[jj] as int).parent == Some(c)
                    && kids@[jj] != c && kids@[jj] != 0,
            forall|j1: int, j2: int|
                0 <= j1 < kids@.len() && 0 <= j2 < kids@.len() && j1 != j2
                ==> kids@[j1] != kids@[j2],
            k.nt() == pre.nt(),
            forall|i: int| pre.live(i) <==> #[trigger] k.live(i),
            k.current == pre.current,
            k.ready_queue@ == pre.ready_queue@,
            same_outside_sched(pre, *k),
            k.task(c as int) == zomb,
            zomb == (TaskControlBlock {
                task_status: TaskStatus::Zombie,
                exit_code: exit_code,
                children: zomb.children,
                addr_space: zomb.addr_space,
                ..pre.task(c as int)
            }),
            zomb.children@.len() == 0,
            zomb.addr_space.pages@.len() == 0,
            zomb.addr_space.wf(),
            forall|jj: int| 0 <= jj < j ==> #[trigger] k.task(kids@[jj] as int)
                == (TaskControlBlock { parent: Some(0usize), ..pre.task(kids@[jj] as int) }),
            forall|jj: int| j <= jj < kids@.len()
                ==> #[trigger] k.task(kids@[jj] as int) == pre.task(kids@[jj] as int),
            forall|i: int|
                pre.live(i) && i != c && !kids@.contains(i as usize)
                ==> #[trigger] k.task(i) == pre.task(i),
        decreases kids@.len() - j,
    {
        let ch = kids[j];
        proof {
            assert(ch == kids@[j as int]);
            assert(pre.live(ch as int));
            assert(k.live(ch as int));
        }
        let ghost kmid = *k;
        let mut t = k.take_task(ch);
        t.parent = Some(0);
        k.put_task(ch, t);
        proof {
            assert(k.tasks@ == kmid.tasks@.update(ch as int, Some(t)));
            assert(t == (TaskControlBlock { parent: Some(0usize), ..pre.task(ch as int) }));
            assert forall|i: int| pre.live(i) <==> #[trigger] k.live(i) by {
                assert(pre.live(i) <==> kmid.live(i));
            }
            assert forall|jj: int| j as int + 1 <= jj < kids@.len()
                implies #[trigger] k.task(kids@[jj] as int) == pre.task(kids@[jj] as int) by {
                assert(kids@[jj] != kids@[j as int]);
                assert(kmid.task(kids@[jj] as int) == pre.task(kids@[jj] as int));
                assert(k.task(kids@[jj] as int) == kmid.task(kids@[jj] as int));
            }
            assert forall|jj: int| 0 <= jj < j as int + 1
                implies #[trigger] k.task(kids@[jj] as int)
                    == (TaskControlBlock {
                        parent: Some(0usize),
                        ..pre.task(kids@[jj] as int)
                    }) by {
                if jj == j as int {
                    assert(k.task(ch as int) == t);
                } else {
                    assert(kids@[jj] != kids@[j as int]);
                    assert(kmid.task(kids@[jj] as int) == (TaskControlBlock {
                        parent: Some(0usize),
                        ..pre.task(kids@[jj] as int)
                    }));
                    assert(k.task(kids@[jj] as int) == kmid.task(kids@[jj] as int));
                }
            }
            assert forall|i: int|
                pre.live(i) && i != c && !kids@.contains(i as usize)
                implies #[trigger] k.task(i) == pre.task(i) by {
                assert(i != ch as int) by {
                    if i == ch as int {
                        assert(kids@[j as int] == i as usize);
                        assert(kids@.contains(i as usize));
                    }
                }
                assert(kmid.task(i) == pre.task(i));
                assert(k.task(i) == kmid.task(i));
            }
            assert(k.task(c as int) == zomb) by {
                assert(c as int != ch as int);
                assert(kmid.task(c as int) == zomb);
                assert(k.task(c as int) == kmid.task(c as int));
            }
        }
        j = j + 1;
    }
    // The root task adopts them.
    let ghost kexit = *k;
    let mut t0 = k.take_task(0);
    proof {
        assert(!kidseq.contains(0usize)) by {
            if kidseq.contains(0usize) {
                let jj = choose|jj: int| 0 <= jj < kidseq.len() && kidseq[jj] == 0usize;
                assert(kidseq[jj] != 0);
            }
        }
        assert(kexit.task(0) == pre.task(0));
        assert(t0 == pre.task(0));
    }
    t0.children.append(&mut kids);
    k.put_task(0, t0);
    let ghost kad = *k;
    proof {
        assert(kad.tasks@ == kexit.tasks@.update(0, kad.tasks@[0]));
        assert forall|i: int| pre.live(i) <==> #[trigger] kad.live(i) by {
            assert(pre.live(i) <==> kexit.live(i));
        }
        assert(kad.task(0).children@ == pre.task(0).children@ + kidseq);
        assert(kad.task(0) == (TaskControlBlock {
            children: kad.task(0).children,
            ..pre.task(0)
        }));
        assert(kad.task(c as int) == zomb) by {
            assert(c != 0);
            assert(kexit.task(c as int) == zomb);
        }
        assert forall|jj: int| 0 <= jj < kidseq.len()
            implies #[trigger] kad.task(kidseq[jj] as int) == (TaskControlBlock {
                parent: Some(0usize),
                ..pre.task(kidseq[jj] as int)
            }) by {
            assert(kidseq[jj] != 0);
            assert(kexit.task(kidseq[jj] as int) == (TaskControlBlock {
                parent: Some(0usize),
                ..pre.task(kidseq[jj] as int)
            }));
        }
        assert forall|i: int|
            pre.live(i) && i != c && i != 0 && !kidseq.contains(i as usize)
            implies #[trigger] kad.task(i) == pre.task(i) by {
            assert(kexit.task(i) == pre.task(i));
        }
    }
    // Switch to the next ready task, if any.
    k.current = None;
    let mut scheduled: usize = 0;
    let mut have_next: bool = false;
    if k.ready_queue.len() > 0 {
        let n = k.ready_queue.remove(0);
        proof {
            assert(pre.ready_queue@[0] == n);
            assert(pre.live(n as int));
            assert(pre.task(n as int).task_status is Ready);
            assert(n != c) by {
                if n == c {
                    assert(pre.task(c as int).task_status is Running);
                }
            }
            assert(kad.live(n as int));
        }
        let mut tn = k.take_task(n);
        tn.task_status = TaskStatus::Running;
        k.put_task(n, tn);
        k.current = Some(n);
        scheduled = n;
        have_next = true;
        proof {
            assert(k.task(n as int) == (TaskControlBlock {
                task_status: TaskStatus::Running,
                ..kad.task(n as int)
            }));
            assert forall|i: int| kad.live(i) && i != n
                implies #[trigger] k.task(i) == kad.task(i) by {}
        }
    }
    proof {
        let post = *k;
        let q = pre.ready_queue@;
        let ic = c as int;
        let isc = scheduled as int;
        assert forall|i: int| pre.live(i) <==> #[trigger] post.live(i) by {
            assert(pre.live(i) <==> kad.live(i));
        }
        // Summaries of what each slot now holds.
        assert forall|i: int| pre.live(i) && !(have_next && i == isc)
            implies #[trigger] post.task(i) == kad.task(i) by {}
        assert forall|i: int| pre.live(i)
            implies (#[trigger] post.task(i)).pid == pre.task(i).pid
                && post.task(i).fd_table@ == pre.task(i).fd_table@
                && post.task(i).task_info == pre.task(i).task_info
                && post.task(i).task_cx == pre.task(i).task_cx
                && post.task(i).trap_cx == pre.task(i).trap_cx
                && post.task(i).heap_bottom == pre.task(i).heap_bottom
                && post.task(i).program_brk == pre.task(i).program_brk
                && (i != ic ==> post.task(i).addr_space == pre.task(i).addr_space)
                && (i != ic ==> post.task(i).exit_code == pre.task(i).exit_code) by {
            if kidseq.contains(i as usize) {
                let jj = choose|jj: int| 0 <= jj < kidseq.len() && kidseq[jj] == i as usize;
                assert(kad.task(i) == (TaskControlBlock {
                    parent: Some(0usize),
                    ..pre.task(i)
                }));
            } else if i != ic && i != 0 {
                assert(kad.task(i) == pre.task(i));
            }
        }
        assert forall|i: int| pre.live(i)
            implies (#[trigger] post.task(i)).parent == (if kidseq.contains(i as usize) {
                Some(0usize)
            } else {
                pre.task(i).parent
            }) by {
            if kidseq.contains(i as usize) {
                let jj = choose|jj: int| 0 <= jj < kidseq.len() && kidseq[jj] == i as usize;
                assert(kad.task(i).parent == Some(0usize));
            } else if i != ic && i != 0 {
                assert(kad.task(i) == pre.task(i));
            }
        }
        assert forall|i: int| pre.live(i)
            implies (#[trigger] post.task(i)).children@ == (if i == ic {
                Seq::<usize>::empty()
            } else if i == 0 {
                pre.task(0).children@ + kidseq
            } else {
                pre.task(i).children@
            }) by {
            if i != ic && i != 0 {
                if kidseq.contains(i as usize) {
                    let jj = choose|jj: int|
                        0 <= jj < kidseq.len() && kidseq[jj] == i as usize;
                    assert(kad.task(i).children@ == pre.task(i).children@);
                } else {
                    assert(kad.task(i) == pre.task(i));
                }
            }
            if i == ic {
                assert(zomb.children@.len() == 0);
                assert(zomb.children@ =~= Seq::<usize>::empty());
            }
        }
        assert forall|i: int| pre.live(i)
            implies (#[trigger] post.task(i)).task_status == (if have_next && i == isc {
                TaskStatus::Running
            } else if i == ic {
                TaskStatus::Zombie
            } else {
                pre.task(i).task_status
            }) by {
            if !(have_next && i == isc) && i != ic {
                if kidseq.contains(i as usize) {
                    let jj = choose|jj: int|
                        0 <= jj < kidseq.len() && kidseq[jj] == i as usize;
                    assert(kad.task(i).task_status == pre.task(i).task_status);
                } else if i != 0 {
                    assert(kad.task(i) == pre.task(i));
                } else {
                    assert(kad.task(0).task_status == pre.task(0).task_status);
                }
            }
            if i == ic {
                assert(!(have_next && i == isc));
            }
        }
        assert(post.task(ic).exit_code == exit_code);
        assert(post.task(ic).addr_space == zomb.addr_space);
        // Every task keeps well-formed links.
        assert forall|i: int| post.live(i) implies #[trigger] post.task_wf(i) by {
            assert(pre.live(i));
            assert(pre.task_wf(i));
            let t = post.task(i);
            assert(post.tcb_local_wf(t)) by {
                assert(pre.tcb_local_wf(pre.task(i)));
            }
            assert(t.pid == i);
            assert(t.parent != Some(i as usize)) by {
                if kidseq.contains(i as usize) {
                    assert(t.parent == Some(0usize));
                    assert(i != 0);
                }
            }
            assert forall|jj: int| 0 <= jj < t.children@.len()
                implies post.live(#[trigger] t.children@[jj] as int)
                    && post.task(t.children@[jj] as int).parent == Some(i as usize) by {
                let cc = t.children@[jj] as int;
                if i == 0 {
                    if jj < pre.task(0).children@.len() {
                        assert(t.children@[jj] == pre.task(0).children@[jj]);
                        assert(pre.live(cc));
                        assert(pre.task(cc).parent == Some(0usize));
                        assert(!kidseq.contains(cc as usize)) by {
                            if kidseq.contains(cc as usize) {
                                let jx = choose|jx: int|
                                    0 <= jx < kidseq.len() && kidseq[jx] == cc as usize;
                                assert(pre.task(cc).parent == Some(c));
                                assert(c != 0);
                            }
                        }
                        assert(post.task(cc).parent == pre.task(cc).parent);
                    } else {
                        let jx = jj - pre.task(0).children@.len();
                        assert(t.children@[jj] == kidseq[jx]);
                        assert(pre.live(cc));
                        assert(kidseq.contains(cc as usize));
                        assert(post.task(cc).parent == Some(0usize));
                    }
                } else if i == ic {
                    assert(t.children@.len() == 0);
                } else {
                    assert(pre.task(i).children@ == t.children@);
                    assert(pre.live(cc));
                    assert(pre.task(cc).parent == Some(i as usize));
                    assert(!kidseq.contains(cc as usize)) by {
                        if kidseq.contains(cc as usize) {
                            let jx = choose|jx: int|
                                0 <= jx < kidseq.len() && kidseq[jx] == cc as usize;
                            assert(pre.task(cc).parent == Some(c));
                            assert(i == ic);
                        }
                    }
                    assert(post.task(cc).parent == pre.task(cc).parent);
                }
            }
            assert forall|j1: int, j2: int|
                0 <= j1 < t.children@.len() && 0 <= j2 < t.children@.len() && j1 != j2
                implies t.children@[j1] != t.children@[j2] by {
                if i == 0 {
                    let base = pre.task(0).children@.len() as int;
                    if j1 < base && j2 < base {
                        assert(pre.task_wf(0));
                        assert(t.children@[j1] == pre.task(0).children@[j1]);
                        assert(t.children@[j2] == pre.task(0).children@[j2]);
                    } else if j1 >= base && j2 >= base {
                        assert(t.children@[j1] == kidseq[j1 - base]);
                        assert(t.children@[j2] == kidseq[j2 - base]);
                    } else {
                        let a = if j1 < base { j1 } else { j2 };
                        let b = if j1 < base { j2 } else { j1 };
                        let oc = pre.task(0).children@[a];
                        let kc = kidseq[b - base];
                        assert(t.children@[a] == oc);
                        assert(t.children@[b] == kc);
                        if oc == kc {
                            assert(pre.task(oc as int).parent == Some(0usize));
                            assert(kidseq.contains(kc));
                            let jx = choose|jx: int|
                                0 <= jx < kidseq.len() && kidseq[jx] == kc;
                            assert(pre.task(kc as int).parent == Some(c));
                            assert(c != 0);
                        }
                    }
                } else if i != ic {
                    assert(t.children@ == pre.task(i).children@);
                }
            }
            if t.parent is Some {
                let p = t.parent.unwrap() as int;
                if kidseq.contains(i as usize) {
                    assert(p == 0);
                    assert(pre.live(0));
                    assert(post.live(0));
                    let jx = choose|jx: int|
                        0 <= jx < kidseq.len() && kidseq[jx] == i as usize;
                    assert(post.task(0).children@[
                        pre.task(0).children@.len() as int + jx] == i as usize);
                } else {
                    assert(t.parent == pre.task(i).parent);
                    assert(pre.live(p));
                    assert(post.live(p));
                    let jx = choose|jx: int|
                        0 <= jx < pre.task(p).children@.len()
                        && pre.task(p).children@[jx] == i;
                    if p == 0 {
                        assert(post.task(0).children@[jx] == i as usize);
                    } else if p == ic {
                        assert(kidseq[jx] == i as usize);
                        assert(kidseq.contains(i as usize));
                        assert(false);
                    } else {
                        assert(post.task(p).children@ == pre.task(p).children@);
                        assert(post.task(p).children@[jx] == i as usize);
                    }
                }
            }
            if t.task_status is Zombie {
                if i == ic {
                    assert(t.children@.len() == 0);
                } else {
                    assert(pre.task(i).task_status is Zombie);
                    assert(i != 0);
                    assert(pre.task(i).children@.len() == 0);
                    assert(t.children@ == pre.task(i).children@);
                }
            }
            assert(post.task_wf(i));
        }
        // Scheduling clauses.
        assert forall|qq: int| 0 <= qq < post.ready_queue@.len()
            implies post.live(#[trigger] post.ready_queue@[qq] as int)
                && post.task(post.ready_queue@[qq] as int).task_status is Ready by {
            let p = post.ready_queue@[qq] as int;
            assert(post.ready_queue@[qq] == q[qq + 1]);
            assert(pre.live(p));
            assert(pre.task(p).task_status is Ready);
            assert(p != ic);
            assert(p != q[0] as int);
        }
        assert forall|q1: int, q2: int|
            0 <= q1 < post.ready_queue@.len() && 0 <= q2 < post.ready_queue@.len() && q1 != q2
            implies post.ready_queue@[q1] != post.ready_queue@[q2] by {
            assert(post.ready_queue@[q1] == q[q1 + 1]);
            assert(post.ready_queue@[q2] == q[q2 + 1]);
        }
        assert forall|i: int| post.live(i) && (#[trigger] post.task(i)).task_status is Running
            implies post.current == Some(i as usize) by {
            assert(pre.live(i));
            if !(have_next && i == isc) {
                if i != ic {
                    assert(post.task(i).task_status == pre.task(i).task_status);
                    assert(pre.current == Some(i as usize));
                    assert(i == ic);
                }
                assert(post.task(ic).task_status is Zombie);
            }
        }
        if post.current is Some {
            assert(have_next);
            assert(post.current == Some(scheduled));
            assert(post.live(isc));
            assert(post.task(isc).task_status is Running);
        }
        assert(post.wf());
        assert(exit_post(pre, post, exit_code));
    }
}

/// The time structure a get_time call fills in: whole seconds, and the
/// microseconds of the current second.
pub struct TimeVal {
    /// Whole seconds.
    pub sec: usize,
    /// Microseconds within the current second.
    pub usec: usize,
}

impl TimeVal {
    /// The pair that a clock reading of `us` microseconds denotes.
    pub fn from_us(us: usize) -> (r: TimeVal)
        ensures
            r.sec == us as int / 1000000,
            r.usec == us as int % 1000000,
    {
        TimeVal { sec: us / 1000000, usec: us % 1000000 }
    }
}

/// The eight little-endian bytes of one machine word.
pub open spec fn word_le_bytes(v: usize) -> Seq<u8> {
    Seq::new(8, |i: int| ((v as u64) >> ((8 * i) as u64)) as u8)
}

/// The sixteen bytes a `TimeVal` occupies in user memory: seconds, then
/// microseconds, each a little-endian machine word.
pub open spec fn timeval_bytes(us: int) -> Seq<u8> {
    word_le_bytes((us / 1000000) as usize) + word_le_bytes((us % 1000000) as usize)
}

/// The four little-endian bytes of an exit code.
pub open spec fn exit_code_bytes(v: i32) -> Seq<u8> {
    Seq::new(4, |i: int| ((v as u32) >> ((8 * i) as u32)) as u8)
}

/// Appends the eight little-endian bytes of `v` to `out`.
fn push_word_le(out: &mut Vec<u8>, v: usize)
    ensures
        final(out)@ == old(out)@ + word_le_bytes(v),
{
    let ghost pre = out@;
    let mut i: usize = 0;
    while i < 8
        invariant
            i <= 8,
            out@ == pre + word_le_bytes(v).take(i as int),
        decreases 8 - i,
    {
        let b: u8 = ((v as u64) >> ((8 * i) as u64)) as u8;
        out.push(b);
        proof {
            assert(out@ =~= pre + word_le_bytes(v).take(i as int + 1));
        }
        i = i + 1;
    }
    proof {
        assert(out@ =~= pre + word_le_bytes(v));
    }
}

/// The sixteen bytes a `TimeVal` of `us` microseconds occupies.
fn timeval_vec(us: usize) -> (r: Vec<u8>)
    ensures
        r@ == timeval_bytes(us as int),
{
    let mut out: Vec<u8> = Vec::new();
    push_word_le(&mut out, us / 1000000);
    push_word_le(&mut out, us % 1000000);
    proof {
        assert(out@ =~= timeval_bytes(us as int));
    }
    out
}

/// The four little-endian bytes of an exit code.
fn exit_code_vec(v: i32) -> (r: Vec<u8>)
    ensures
        r@ == exit_code_bytes(v),
{
    let mut out: Vec<u8> = Vec::new();
    let mut i: usize = 0;
    while i < 4
        invariant
            i <= 4,
            out@ == exit_code_bytes(v).take(i as int),
        decreases 4 - i,
    {
        let b: u8 = ((v as u32) >> ((8 * i) as u32)) as u8;
        out.push(b);
        proof {
            assert(out@ =~= exit_code_bytes(v).take(i as int + 1));
        }
        i = i + 1;
    }
    proof {
        assert(out@ =~= exit_code_bytes(v));
    }
    out
}

/// A fresh vector holding the same machine words as `src`.
fn clone_words(src: &Vec<usize>) -> (r: Vec<usize>)
    ensures
        r@ == src@,
{
    let mut r: Vec<usize> = Vec::new();
    let mut i: usize = 0;
    while i < src.len()
        invariant
            i <= src@.len(),
            r@ == src@.take(i as int),
        decreases src@.len() - i,
    {
        r.push(src[i]);
        proof {
            assert(r@ =~= src@.take(i as int + 1));
        }
        i = i + 1;
    }
    proof {
        assert(r@ =~= src@);
    }
    r
}

/// A fresh descriptor table holding the same entries as `src`: the open
/// handles themselves are shared (the entries point into the kernel's
/// open-file table), not content-copied.
fn clone_fd_table(src: &Vec<Option<usize>>) -> (r: Vec<Option<usize>>)
    ensures
        r@ == src@,
{
    let mut r: Vec<Option<usize>> = Vec::new();
    let mut i: usize = 0;
    while i < src.len()
        invariant
            i <= src@.len(),
            r@ == src@.take(i as int),
        decreases src@.len() - i,
    {
        r.push(src[i]);
        proof {
            assert(r@ =~= src@.take(i as int + 1));
        }
        i = i + 1;
    }
    proof {
        assert(r@ =~= src@);
    }
    r
}

/// What a successful fork does: a fresh pid holds a `Ready` child of the
/// caller, enqueued at the tail of the ready queue; the child deep-copies
/// the parent's address space (independent physical backing, no
/// copy-on-write), shares its open handles, copies its trap context with
/// the return-value register set to 0 so fork returns 0 to the child, and
/// starts with fresh accounting; the parent only gains the child in its
/// children list.
pub open spec fn fork_post(pre: Kernel, post: Kernel, child: int) -> bool {
    let c = pre.cur();
    let pt = pre.task(c);
    let ch = post.task(child);
    &&& 0 <= child < post.nt()
    &&& post.nt() == (if child == pre.nt() { pre.nt() + 1 } else { pre.nt() })
    &&& (child < pre.nt() ==> !pre.live(child))
    &&& post.live(child)
    &&& (forall|i: int| pre.live(i) ==> #[trigger] post.live(i))
    &&& (forall|i: int| pre.live(i) && i != c ==> #[trigger] post.task(i) == pre.task(i))
    &&& post.task(c).children@ == pt.children@.push(child as usize)
    &&& post.task(c) == (TaskControlBlock { children: post.task(c).children, ..pt })
    &&& ch.pid == child
    &&& ch.task_status is Ready
    &&& ch.parent == Some(pre.current.unwrap())
    &&& ch.children@.len() == 0
    &&& ch.exit_code == 0
    &&& ch.priority == pt.priority
    &&& ch.fd_table@ == pt.fd_table@
    &&& same_mapping(pt.addr_space, ch.addr_space)
    &&& (forall|vpn: int| pt.addr_space.is_mapped(vpn)
            ==> (#[trigger] ch.addr_space.page_at(vpn)).data@
                == pt.addr_space.page_at(vpn).data@)
    &&& ch.trap_cx.x@ == pt.trap_cx.x@.update(10, 0usize)
    &&& ch.trap_cx.sepc == pt.trap_cx.sepc
    &&& ch.task_info.task_syscall_count@ == crate::task::zero_words(SYSCALL_MAX_ID as int)
    &&& ch.heap_bottom == pt.heap_bottom
    &&& ch.program_brk == pt.program_brk
    &&& post.ready_queue@ == pre.ready_queue@.push(child as usize)
    &&& post.current == pre.current
    &&& same_outside_sched(pre, post)
}

/// Forks the running task. The child's pid is returned to the caller (the
/// child itself sees 0 in its return-value register); -1 means the process
/// table is full.
pub fn sys_fork(k: &mut Kernel) -> (r: isize)
    requires
        old(k).wf(),
        old(k).running(),
    ensures
        final(k).wf(),
        final(k).running(),
        final(k).current == old(k).current,
        fork_res(*old(k), *final(k), r),
{
    let ghost pre = *old(k);
    let c = k.current_pid();
    proof {
        assert(k.live(c as int));
        assert(k.task_wf(c as int));
    }
    // Allocate a pid: the first free slot, or a new slot if none is free.
    let mut free: Option<usize> = None;
    let mut i: usize = 0;
    while i < k.tasks.len()
        invariant
            *k == pre,
            i <= k.tasks@.len(),
            match free {
                Some(f) => f < k.tasks@.len() && k.tasks@[f as int] is None,
                None => forall|j: int| 0 <= j < i ==> k.tasks@[j] is Some,
            },
        decreases k.tasks@.len() - i,
    {
        if free.is_none() && k.tasks[i].is_none() {
            free = Some(i);
        }
        i = i + 1;
    }
    let child: usize = match free {
        Some(f) => f,
        None => {
            if k.tasks.len() >= crate::config::MAX_TASKS {
                proof {
                    assert(pre.nt() == crate::config::MAX_TASKS);
                }
                return -1;
            }
            let n = k.tasks.len();
            k.tasks.push(None);
            n
        },
    };
    proof {
        assert(!pre.live(child as int) || child as int == pre.nt());
        assert((child as int) < pre.nt() ==> !pre.live(child as int));
        assert(forall|j: int| pre.live(j) <==> #[trigger] k.live(j));
    }
    let mut pt = k.take_task(c);
    let mut x = clone_words(&pt.trap_cx.x);
    x[10] = 0;
    let ch = TaskControlBlock {
        pid: child,
        task_status: TaskStatus::Ready,
        task_cx: crate::task::TaskContext::goto_restore(0),
        trap_cx: crate::task::TrapContext { x, sepc: pt.trap_cx.sepc },
        addr_space: pt.addr_space.clone_space(),
        fd_table: clone_fd_table(&pt.fd_table),
        parent: Some(c),
        children: Vec::new(),
        exit_code: 0,
        priority: pt.priority,
        task_info: crate::task::TaskInformation::new(),
        heap_bottom: pt.heap_bottom,
        program_brk: pt.program_brk,
    };
    pt.children.push(child);
    k.put_task(c, pt);
    k.put_task(child, ch);
    k.ready_queue.push(child);
    proof {
        let post = *k;
        assert(post.live(child as int));
        assert(post.task(child as int) == ch);
        assert forall|j: int| pre.live(j) implies #[trigger] post.live(j) by {}
        assert forall|j: int| pre.live(j) && j != c
            implies #[trigger] post.task(j) == pre.task(j) by {}
        // Every task keeps well-formed links; the parent and child are shown
        // directly.
        assert forall|j: int| post.live(j) implies #[trigger] post.task_wf(j) by {
            if j == child as int {
                assert(post.task(c as int).children@.last() == child);
            } else {
                assert(pre.live(j));
                assert(pre.task_wf(j));
                let t = post.task(j);
                assert(post.tcb_local_wf(t)) by {
                    assert(pre.tcb_local_wf(pre.task(j)));
                }
                assert forall|jj: int| 0 <= jj < t.children@.len()
                    implies post.live(#[trigger] t.children@[jj] as int)
                        && post.task(t.children@[jj] as int).parent == Some(j as usize) by {
                    let cc = t.children@[jj] as int;
                    if j == c as int && jj == t.children@.len() - 1 {
                        assert(cc == child);
                    } else {
                        assert(pre.task(j).children@[jj] == t.children@[jj]);
                        assert(pre.live(cc));
                        assert(cc != child);
                        assert(pre.task(cc).parent == Some(j as usize));
                    }
                }
                assert forall|j1: int, j2: int|
                    0 <= j1 < t.children@.len() && 0 <= j2 < t.children@.len() && j1 != j2
                    implies t.children@[j1] != t.children@[j2] by {
                    if j == c as int {
                        let oc = pre.task(c as int).children@;
                        if j1 < oc.len() && j2 < oc.len() {
                            assert(pre.task_wf(c as int));
                        } else if j1 == oc.len() as int {
                            assert(t.children@[j1] == child);
                            assert(pre.live(oc[j2] as int));
                        } else if j2 == oc.len() as int {
                            assert(t.children@[j2] == child);
                            assert(pre.live(oc[j1] as int));
                        }
                    }
                }
                if t.parent is Some {
                    let p = t.parent.unwrap() as int;
                    assert(pre.live(p));
                    if p == c as int {
                        let j0 = choose|jj: int|
                            0 <= jj < pre.task(p).children@.len()
                            && pre.task(p).children@[jj] == j;
                        assert(post.task(p).children@[j0] == j);
                    }
                }
            }
        }
        assert forall|q: int| 0 <= q < post.ready_queue@.len()
            implies post.live(#[trigger] post.ready_queue@[q] as int)
                && post.task(post.ready_queue@[q] as int).task_status is Ready by {
            let p = post.ready_queue@[q] as int;
            if q < pre.ready_queue@.len() {
                assert(pre.ready_queue@[q] == post.ready_queue@[q]);
                assert(pre.live(p));
                assert(p != child);
                assert(p != c as int);
            } else {
                assert(p == child);
            }
        }
        assert forall|q1: int, q2: int|
            0 <= q1 < post.ready_queue@.len() && 0 <= q2 < post.ready_queue@.len() && q1 != q2
            implies post.ready_queue@[q1] != post.ready_queue@[q2] by {
            if q1 < pre.ready_queue@.len() && q2 == pre.ready_queue@.len() as int {
                assert(pre.live(pre.ready_queue@[q1] as int));
            }
            if q2 < pre.ready_queue@.len() && q1 == pre.ready_queue@.len() as int {
                assert(pre.live(pre.ready_queue@[q2] as int));
            }
        }
        assert forall|j: int| post.live(j) && (#[trigger] post.task(j)).task_status is Running
            implies post.current == Some(j as usize) by {
            if j != child as int && j != c as int {
                assert(post.task(j) == pre.task(j));
            }
        }
        assert(post.wf());
        assert(fork_post(pre, post, child as int));
    }
    child as isize
}

/// A null-terminated user string starts at `ptr`: some length up to the
/// scan bound has all bytes mapped and nonzero and a mapped zero byte
/// after them.
pub open spec fn str_ok(space: AddrSpace, ptr: int) -> bool {
    exists|n: int| 0 <= n <= crate::config::MAX_STR_LEN && #[trigger] space.terminated_at(ptr, n)
}

/// The length of the null-terminated user string at `ptr` (meaningful when
/// one is there).
pub open spec fn str_len_at(space: AddrSpace, ptr: int) -> int {
    choose|n: int| 0 <= n <= crate::config::MAX_STR_LEN && #[trigger] space.terminated_at(ptr, n)
}

/// The bytes of the null-terminated user string at `ptr` (meaningful when
/// one is there).
pub open spec fn str_at(space: AddrSpace, ptr: int) -> Seq<u8> {
    space.bytes_at(ptr, str_len_at(space, ptr))
}

/// The null-terminated user string at `ptr` is there and every one of its
/// bytes, terminator included, sits on a page readable from user mode:
/// the check consulted before the kernel walks a user string.
pub open spec fn str_readable(space: AddrSpace, ptr: int) -> bool {
    &&& str_ok(space, ptr)
    &&& range_flags(space, ptr, str_len_at(space, ptr) + 1, PERM_R | PERM_U)
}

/// A string has only one terminator-determined length.
pub proof fn lemma_terminated_unique(space: AddrSpace, ptr: int, n1: int, n2: int)
    requires
        space.terminated_at(ptr, n1),
        space.terminated_at(ptr, n2),
        0 <= n1,
        0 <= n2,
    ensures
        n1 == n2,
{
    if n1 < n2 {
        assert(space.byte_at(ptr + n1) != 0);
    }
    if n2 < n1 {
        assert(space.byte_at(ptr + n2) != 0);
    }
}

/// Some app image in the loader's table has this name.
pub open spec fn app_named(k: Kernel, name: Seq<u8>) -> bool {
    exists|a: int| 0 <= a < k.apps@.len() && (#[trigger] k.apps@[a]).name@ == name
}

/// The two byte strings hold the same bytes.
fn bytes_eq(a: &Vec<u8>, b: &Vec<u8>) -> (r: bool)
    ensures
        r == (a@ == b@),
{
    if a.len() != b.len() {
        return false;
    }
    let mut i: usize = 0;
    while i < a.len()
        invariant
            a@.len() == b@.len(),
            i <= a@.len(),
            forall|j: int| 0 <= j < i ==> a@[j] == b@[j],
        decreases a@.len() - i,
    {
        if a[i] != b[i] {
            return false;
        }
        i = i + 1;
    }
    proof {
        assert(a@ =~= b@);
    }
    true
}

/// What a successful exec does: the task's old address space is dropped
/// (invalidating all its mappings) and replaced by one built from the
/// named image, the trap context is reset to the image's entry point and
/// initial user stack, and the pid and family links do not change.
pub open spec fn exec_loaded(pre: Kernel, post: Kernel, a: int) -> bool {
    let c = pre.cur();
    let t = pre.task(c);
    let img = pre.apps@[a];
    &&& 0 <= a < pre.apps@.len()
    &&& same_but_task(pre, post, c)
    &&& post.task(c) == (TaskControlBlock {
            addr_space: post.task(c).addr_space,
            trap_cx: post.task(c).trap_cx,
            ..t
        })
    &&& crate::kernel::space_matches_image(img, post.task(c).addr_space)
    &&& post.task(c).trap_cx.sepc == img.entry
    &&& post.task(c).trap_cx.x@ == crate::task::zero_words(32).update(2, img.user_sp)
}

/// Replaces the running task's image with the app named by the
/// null-terminated user string at `path`. Returns -1, changing nothing, if
/// the string is unreadable or unterminated or if no app has that name; on
/// success the task resumes at the new image's entry point.
pub fn sys_exec(k: &mut Kernel, path: usize) -> (r: isize)
    requires
        old(k).wf(),
        old(k).running(),
    ensures
        final(k).wf(),
        final(k).running(),
        final(k).current == old(k).current,
        exec_res(*old(k), *final(k), r, path),
{
    let ghost pre = *old(k);
    let c = k.current_pid();
    proof {
        assert(k.live(c as int));
        assert(k.task_wf(c as int));
    }
    let name = match &k.tasks[c] {
        Some(t) => t.addr_space.translated_str(path),
        None => vstd::pervasive::unreached(),
    };
    let name = match name {
        Some(s) => s,
        None => {
            proof {
                assert(!str_ok(pre.task(c as int).addr_space, path as int));
            }
            return -1;
        },
    };
    proof {
        let space = pre.task(c as int).addr_space;
        assert(str_ok(space, path as int));
        lemma_terminated_unique(
            space, path as int, str_len_at(space, path as int), name@.len() as int);
        assert(str_at(space, path as int) =~= name@);
    }
    let str_perm = match &k.tasks[c] {
        Some(t) => check_range_flags(&t.addr_space, path, name.len() + 1, PERM_R | PERM_U),
        None => vstd::pervasive::unreached(),
    };
    if !str_perm {
        return -1;
    }
    proof {
        assert(str_readable(pre.task(c as int).addr_space, path as int));
    }
    let mut found: Option<usize> = None;
    let mut a: usize = 0;
    while a < k.apps.len()
        invariant
            *k == pre,
            a <= k.apps@.len(),
            match found {
                Some(f) => f < k.apps@.len() && k.apps@[f as int].name@ == name@,
                None => forall|j: int| 0 <= j < a ==> (#[trigger] k.apps@[j]).name@ != name@,
            },
        decreases k.apps@.len() - a,
    {
        if found.is_none() && bytes_eq(&k.apps[a].name, &name) {
            found = Some(a);
        }
        a = a + 1;
    }
    let a = match found {
        Some(a) => a,
        None => {
            proof {
                assert(!app_named(pre, name@));
            }
            return -1;
        },
    };
    proof {
        assert(k.apps@[a as int].name@ == name@);
        assert(app_wf(pre.apps@[a as int]));
    }
    let space = crate::kernel::build_space(&k.apps[a]);
    let entry = k.apps[a].entry;
    let user_sp = k.apps[a].user_sp;
    let mut t = k.take_task(c);
    t.addr_space = space;
    t.trap_cx = crate::task::TrapContext::app_init(entry, user_sp);
    k.put_task(c, t);
    proof {
        assert(k.tasks@ =~= pre.tasks@.update(c as int, k.tasks@[c as int]));
        lemma_wf_replace_task(pre, *k, c as int);
        assert(exec_loaded(pre, *k, a as int));
    }
    0
}

/// What a successful spawn does: a fresh pid holds a `Ready` child of the
/// caller whose address space is built directly from the named image (no
/// intermediate duplicate of the parent's space), whose trap context
/// starts at the image's entry point, and which inherits the caller's open
/// handles; the child is enqueued and its pid returned.
pub open spec fn spawn_post(pre: Kernel, post: Kernel, child: int, a: int) -> bool {
    let c = pre.cur();
    let pt = pre.task(c);
    let ch = post.task(child);
    let img = pre.apps@[a];
    &&& 0 <= a < pre.apps@.len()
    &&& 0 <= child < post.nt()
    &&& post.nt() == (if child == pre.nt() { pre.nt() + 1 } else { pre.nt() })
    &&& (child < pre.nt() ==> !pre.live(child))
    &&& post.live(child)
    &&& (forall|i: int| pre.live(i) ==> #[trigger] post.live(i))
    &&& (forall|i: int| pre.live(i) && i != c ==> #[trigger] post.task(i) == pre.task(i))
    &&& post.task(c).children@ == pt.children@.push(child as usize)
    &&& post.task(c) == (TaskControlBlock { children: post.task(c).children, ..pt })
    &&& ch.pid == child
    &&& ch.task_status is Ready
    &&& ch.parent == Some(pre.current.unwrap())
    &&& ch.children@.len() == 0
    &&& ch.exit_code == 0
    &&& ch.fd_table@ == pt.fd_table@
    &&& crate::kernel::space_matches_image(img, ch.addr_space)
    &&& ch.trap_cx.sepc == img.entry
    &&& ch.trap_cx.x@ == crate::task::zero_words(32).update(2, img.user_sp)
    &&& post.ready_queue@ == pre.ready_queue@.push(child as usize)
    &&& post.current == pre.current
    &&& same_outside_sched(pre, post)
}

/// Spawns a new task running the app named by the null-terminated user
/// string at `path`: like fork followed by exec, but the child's address
/// space is built directly from the image instead of duplicating the
/// parent's. Returns the child pid, or -1 if the string is unreadable or
/// no app has that name or the process table is full.
pub fn sys_spawn(k: &mut Kernel, path: usize) -> (r: isize)
    requires
        old(k).wf(),
        old(k).running(),
    ensures
        final(k).wf(),
        final(k).running(),
        final(k).current == old(k).current,
        spawn_res(*old(k), *final(k), r, path),
{
    let ghost pre = *old(k);
    let c = k.current_pid();
    proof {
        assert(k.live(c as int));
        assert(k.task_wf(c as int));
    }
    let name = match &k.tasks[c] {
        Some(t) => t.addr_space.translated_str(path),
        None => vstd::pervasive::unreached(),
    };
    let name = match name {
        Some(s) => s,
        None => {
            proof {
                assert(!str_ok(pre.task(c as int).addr_space, path as int));
            }
            return -1;
        },
    };
    proof {
        let space = pre.task(c as int).addr_space;
        assert(str_ok(space, path as int));
        lemma_terminated_unique(
            space, path as int, str_len_at(space, path as int), name@.len() as int);
        assert(str_at(space, path as int) =~= name@);
    }
    let str_perm = match &k.tasks[c] {
        Some(t) => check_range_flags(&t.addr_space, path, name.len() + 1, PERM_R | PERM_U),
        None => vstd::pervasive::unreached(),
    };
    if !str_perm {
        return -1;
    }
    proof {
        assert(str_readable(pre.task(c as int).addr_space, path as int));
    }
    let mut found: Option<usize> = None;
    let mut a: usize = 0;
    while a < k.apps.len()
        invariant
            *k == pre,
            a <= k.apps@.len(),
            match found {
                Some(f) => f < k.apps@.len() && k.apps@[f as int].name@ == name@,
                None => forall|j: int| 0 <= j < a ==> (#[trigger] k.apps@[j]).name@ != name@,
            },
        decreases k.apps@.len() - a,
    {
        if found.is_none() && bytes_eq(&k.apps[a].name, &name) {
            found = Some(a);
        }
        a = a + 1;
    }
    let a = match found {
        Some(a) => a,
        None => {
            proof {
                assert(!app_named(pre, name@));
            }
            return -1;
        },
    };
    proof {
        assert(k.apps@[a as int].name@ == name@);
        assert(app_wf(pre.apps@[a as int]));
    }
    // Allocate a pid: the first free slot, or a new slot if none is free.
    let mut free: Option<usize> = None;
    let mut i: usize = 0;
    while i < k.tasks.len()
        invariant
            *k == pre,
            i <= k.tasks@.len(),
            match free {
                Some(f) => f < k.tasks@.len() && k.tasks@[f as int] is None,
                None => forall|j: int| 0 <= j < i ==> k.tasks@[j] is Some,
            },
        decreases k.tasks@.len() - i,
    {
        if free.is_none() && k.tasks[i].is_none() {
            free = Some(i);
        }
        i = i + 1;
    }
    let child: usize = match free {
        Some(f) => f,
        None => {
            if k.tasks.len() >= crate::config::MAX_TASKS {
                proof {
                    assert(pre.nt() == crate::config::MAX_TASKS);
                }
                return -1;
            }
            let n = k.tasks.len();
            k.tasks.push(None);
            n
        },
    };
    proof {
        assert((child as int) < pre.nt() ==> !pre.live(child as int));
        assert(forall|j: int| pre.live(j) <==> #[trigger] k.live(j));
        assert(!(pre.nt() == crate::config::MAX_TASKS
            && (forall|i: int| 0 <= i < pre.nt() ==> pre.live(i))));
    }
    let space = crate::kernel::build_space(&k.apps[a]);
    let entry = k.apps[a].entry;
    let user_sp = k.apps[a].user_sp;
    let mut pt = k.take_task(c);
    let ch = TaskControlBlock {
        pid: child,
        task_status: TaskStatus::Ready,
        task_cx: crate::task::TaskContext::goto_restore(0),
        trap_cx: crate::task::TrapContext::app_init(entry, user_sp),
        addr_space: space,
        fd_table: clone_fd_table(&pt.fd_table),
        parent: Some(c),
        children: Vec::new(),
        exit_code: 0,
        priority: pt.priority,
        task_info: crate::task::TaskInformation::new(),
        heap_bottom: pt.heap_bottom,
        program_brk: pt.program_brk,
    };
    pt.children.push(child);
    k.put_task(c, pt);
    k.put_task(child, ch);
    k.ready_queue.push(child);
    proof {
        let post = *k;
        assert(post.live(child as int));
        assert(post.task(child as int) == ch);
        assert forall|j: int| pre.live(j) implies #[trigger] post.live(j) by {}
        assert forall|j: int| pre.live(j) && j != c
            implies #[trigger] post.task(j) == pre.task(j) by {}
        assert forall|j: int| post.live(j) implies #[trigger] post.task_wf(j) by {
            if j == child as int {
                assert(post.task(c as int).children@.last() == child);
            } else {
                assert(pre.live(j));
                assert(pre.task_wf(j));
                let t = post.task(j);
                assert(post.tcb_local_wf(t)) by {
                    assert(pre.tcb_local_wf(pre.task(j)));
                }
                assert forall|jj: int| 0 <= jj < t.children@.len()
                    implies post.live(#[trigger] t.children@[jj] as int)
                        && post.task(t.children@[jj] as int).parent == Some(j as usize) by {
                    let cc = t.children@[jj] as int;
                    if j == c as int && jj == t.children@.len() - 1 {
                        assert(cc == child);
                    } else {
                        assert(pre.task(j).children@[jj] == t.children@[jj]);
                        assert(pre.live(cc));
                        assert(cc != child);
                        assert(pre.task(cc).parent == Some(j as usize));
                    }
                }
                assert forall|j1: int, j2: int|
                    0 <= j1 < t.children@.len() && 0 <= j2 < t.children@.len() && j1 != j2
                    implies t.children@[j1] != t.children@[j2] by {
                    if j == c as int {
                        let oc = pre.task(c as int).children@;
                        if j1 < oc.len() && j2 < oc.len() {
                            assert(pre.task_wf(c as int));
                        } else if j1 == oc.len() as int {
                            assert(t.children@[j1] == child);
                            assert(pre.live(oc[j2] as int));
                        } else if j2 == oc.len() as int {
                            assert(t.children@[j2] == child);
                            assert(pre.live(oc[j1] as int));
                        }
                    }
                }
                if t.parent is Some {
                    let p = t.parent.unwrap() as int;
                    assert(pre.live(p));
                    if p == c as int {
                        let j0 = choose|jj: int|
                            0 <= jj < pre.task(p).children@.len()
                            && pre.task(p).children@[jj] == j;
                        assert(post.task(p).children@[j0] == j);
                    }
                }
            }
        }
        assert forall|q: int| 0 <= q < post.ready_queue@.len()
            implies post.live(#[trigger] post.ready_queue@[q] as int)
                && post.task(post.ready_queue@[q] as int).task_status is Ready by {
            let p = post.ready_queue@[q] as int;
            if q < pre.ready_queue@.len() {
                assert(pre.ready_queue@[q] == post.ready_queue@[q]);
                assert(pre.live(p));
                assert(p != child);
                assert(p != c as int);
            } else {
                assert(p == child);
            }
        }
        assert forall|q1: int, q2: int|
            0 <= q1 < post.ready_queue@.len() && 0 <= q2 < post.ready_queue@.len() && q1 != q2
            implies post.ready_queue@[q1] != post.ready_queue@[q2] by {
            if q1 < pre.ready_queue@.len() && q2 == pre.ready_queue@.len() as int {
                assert(pre.live(pre.ready_queue@[q1] as int));
            }
            if q2 < pre.ready_queue@.len() && q1 == pre.ready_queue@.len() as int {
                assert(pre.live(pre.ready_queue@[q2] as int));
            }
        }
        assert forall|j: int| post.live(j) && (#[trigger] post.task(j)).task_status is Running
            implies post.current == Some(j as usize) by {
            if j != child as int && j != c as int {
                assert(post.task(j) == pre.task(j));
            }
        }
        assert(post.wf());
        assert(spawn_post(pre, post, child as int, a as int));
    }
    child as isize
}

/// Child `j` of the running task matches the wait request: `pid` is the
/// wildcard -1, or equals the child's pid.
pub open spec fn wait_matches(pre: Kernel, j: int, pid: isize) -> bool {
    pid == -1 || pre.task(pre.cur()).children@[j] as int == pid as int
}

/// Some child of the running task matches the wait request.
pub open spec fn wait_has_match(pre: Kernel, pid: isize) -> bool {
    exists|j: int|
        0 <= j < pre.task(pre.cur()).children@.len() && #[trigger] wait_matches(pre, j, pid)
}

/// Child `j` of the running task matches the wait request and is a zombie.
pub open spec fn wait_zombie_at(pre: Kernel, j: int, pid: isize) -> bool {
    &&& 0 <= j < pre.task(pre.cur()).children@.len()
    &&& wait_matches(pre, j, pid)
    &&& pre.task(pre.task(pre.cur()).children@[j] as int).task_status is Zombie
}

/// Some matching child of the running task is a zombie.
pub open spec fn wait_has_zombie(pre: Kernel, pid: isize) -> bool {
    exists|j: int| #[trigger] wait_zombie_at(pre, j, pid)
}

/// The index of the first matching zombie child (meaningful when one
/// exists).
pub open spec fn wait_first_zombie(pre: Kernel, pid: isize) -> int {
    choose|j: int|
        #[trigger] wait_zombie_at(pre, j, pid)
        && forall|jj: int| 0 <= jj < j ==> !(#[trigger] wait_zombie_at(pre, jj, pid))
}

/// All four bytes of the exit-code destination are writable from user
/// mode in the running task's address space.
pub open spec fn wait_ptr_ok(pre: Kernel, ptr: int) -> bool {
    let space = pre.task(pre.cur()).addr_space;
    space.flag_ok(ptr, PERM_W | PERM_U) && space.flag_ok(ptr + 3, PERM_W | PERM_U)
}

/// What waitpid returns: -1 when no child matches at all, -2 when a match
/// exists but none is a zombie yet, -3 (with nothing reaped) when the
/// exit-code pointer is not writable — a value distinct from the no-match
/// and still-running answers, since invalid memory is a different fault —
/// and otherwise the pid of the first matching zombie child, which is
/// reaped.
pub open spec fn waitpid_result(pre: Kernel, pid: isize, ptr: int) -> isize {
    if !wait_has_match(pre, pid) {
        -1isize
    } else if !wait_has_zombie(pre, pid) {
        -2isize
    } else if !wait_ptr_ok(pre, ptr) {
        -3isize
    } else {
        pre.task(pre.cur()).children@[wait_first_zombie(pre, pid)] as isize
    }
}

/// What a successful reap does: the first matching zombie child leaves the
/// caller's children list, its process-table slot is freed (the last
/// reference to it is gone), and its exit code is written through the
/// validated user pointer; nothing else changes.
pub open spec fn wait_reap_post(pre: Kernel, post: Kernel, pid: isize, ptr: int) -> bool {
    let c = pre.cur();
    let j = wait_first_zombie(pre, pid);
    let ch = pre.task(c).children@[j] as int;
    &&& post.nt() == pre.nt()
    &&& !post.live(ch)
    &&& (forall|i: int| pre.live(i) && i != ch ==> #[trigger] post.live(i))
    &&& (forall|i: int| pre.live(i) && i != ch && i != c
            ==> #[trigger] post.task(i) == pre.task(i))
    &&& post.task(c).children@ == pre.task(c).children@.remove(j)
    &&& post.task(c) == (TaskControlBlock {
            children: post.task(c).children,
            addr_space: post.task(c).addr_space,
            ..pre.task(c)
        })
    &&& same_mapping(pre.task(c).addr_space, post.task(c).addr_space)
    &&& (forall|x: int| ptr <= x < ptr + 4
            ==> #[trigger] post.task(c).addr_space.byte_at(x)
                == exit_code_bytes(pre.task(ch).exit_code)[x - ptr])
    &&& (forall|x: int|
            pre.task(c).addr_space.is_mapped(x / PAGE_SIZE as int) && !(ptr <= x < ptr + 4)
            ==> #[trigger] post.task(c).addr_space.byte_at(x)
                == pre.task(c).addr_space.byte_at(x))
    &&& post.ready_queue@ == pre.ready_queue@
    &&& post.current == pre.current
    &&& same_outside_sched(pre, post)
}

/// Waits for a child to exit. `pid` of -1 means any child. Returns -1 if
/// no child matches at all; -2 if a match exists but none is a zombie yet;
/// -3, reaping nothing, if the exit-code pointer is not writable from user
/// mode; otherwise reaps the first matching zombie child, writes its exit
/// code through the pointer, and returns its pid.
pub fn sys_waitpid(k: &mut Kernel, pid: isize, exit_code_ptr: usize) -> (r: isize)
    requires
        old(k).wf(),
        old(k).running(),
    ensures
        final(k).wf(),
        final(k).running(),
        final(k).current == old(k).current,
        waitpid_post(*old(k), *final(k), r, pid, exit_code_ptr),
{
    let ghost pre = *old(k);
    let c = k.current_pid();
    proof {
        assert(k.live(c as int));
        assert(k.task_wf(c as int));
    }
    let n = k.child_count(c);
    let mut any: bool = false;
    let mut zidx: usize = n;
    let mut j: usize = 0;
    while j < n
        invariant
            *k == pre,
            pre.wf(),
            pre.running(),
            c as int == pre.cur(),
            pre.live(c as int),
            n == pre.task(c as int).children@.len(),
            j <= n,
            any == (exists|jj: int| 0 <= jj < j && #[trigger] wait_matches(pre, jj, pid)),
            zidx == n || (zidx < j && wait_zombie_at(pre, zidx as int, pid)
                && (forall|jj: int| 0 <= jj < zidx
                        ==> !(#[trigger] wait_zombie_at(pre, jj, pid)))),
            zidx == n ==> forall|jj: int| 0 <= jj < j
                ==> !(#[trigger] wait_zombie_at(pre, jj, pid)),
        decreases n - j,
    {
        let ch = k.child_at(c, j);
        proof {
            assert(k.task_wf(c as int));
            assert(k.live(ch as int));
        }
        let m = pid == -1 || ch as isize == pid;
        proof {
            assert(ch < crate::config::MAX_TASKS);
            assert(m == wait_matches(pre, j as int, pid));
        }
        if m {
            any = true;
            if zidx == n && k.status_of(ch) == TaskStatus::Zombie {
                zidx = j;
                proof {
                    assert(wait_zombie_at(pre, j as int, pid));
                }
            }
        }
        j = j + 1;
    }
    if !any {
        proof {
            assert(!wait_has_match(pre, pid));
        }
        return -1;
    }
    if zidx == n {
        proof {
            assert(wait_has_match(pre, pid));
            assert forall|jj: int| !(#[trigger] wait_zombie_at(pre, jj, pid)) by {}
            assert(!wait_has_zombie(pre, pid));
        }
        return -2;
    }
    proof {
        assert(wait_has_match(pre, pid));
        assert(wait_has_zombie(pre, pid));
        // The scan found the unique first matching zombie.
        let w = wait_first_zombie(pre, pid);
        assert(wait_zombie_at(pre, w, pid)
            && forall|jj: int| 0 <= jj < w ==> !(#[trigger] wait_zombie_at(pre, jj, pid)));
        if w < zidx as int {
            assert(wait_zombie_at(pre, w, pid));
            assert(false);
        }
        if w > zidx as int {
            assert(!wait_zombie_at(pre, zidx as int, pid));
            assert(false);
        }
        assert(w == zidx as int);
    }
    let ch = k.child_at(c, zidx);
    // Validate the destination through the address space before any write.
    let flags = PERM_W | PERM_U;
    let ok: bool;
    if exit_code_ptr > usize::MAX - 3 {
        ok = false;
        proof {
            let space = pre.task(c as int).addr_space;
            let iva = exit_code_ptr as int + 3;
            vstd::arithmetic::div_mod::lemma_div_is_ordered(
                MAX_VPN * PAGE_SIZE, iva, PAGE_SIZE as int);
            assert(MAX_VPN * PAGE_SIZE / PAGE_SIZE as int == MAX_VPN) by (nonlinear_arith);
            if space.is_mapped(iva / PAGE_SIZE as int) {
                space.lemma_mapped_bound(iva / PAGE_SIZE as int);
            }
            assert(!wait_ptr_ok(pre, exit_code_ptr as int));
        }
    } else {
        let o1 = match &k.tasks[c] {
            Some(t) => t.addr_space.addr_flag(exit_code_ptr, flags),
            None => vstd::pervasive::unreached(),
        };
        let o2 = match &k.tasks[c] {
            Some(t) => t.addr_space.addr_flag(exit_code_ptr + 3, flags),
            None => vstd::pervasive::unreached(),
        };
        ok = o1 && o2;
        proof {
            assert(ok == wait_ptr_ok(pre, exit_code_ptr as int));
        }
    }
    if !ok {
        return -3;
    }
    let code = k.exit_code_of(ch);
    let mut tc = k.take_task(c);
    tc.children.remove(zidx);
    let buf = exit_code_vec(code);
    proof {
        tc.addr_space.lemma_small_range_mapped(exit_code_ptr as int, 4);
    }
    let wrote = tc.addr_space.write_buffer(exit_code_ptr, &buf);
    proof {
        assert(wrote);
    }
    k.put_task(c, tc);
    k.tasks[ch] = None;
    proof {
        let post = *k;
        let ich = ch as int;
        let ic = c as int;
        assert(ich != ic);
        assert(!post.live(ich));
        assert forall|i: int| pre.live(i) && i != ich implies #[trigger] post.live(i) by {}
        assert forall|i: int| pre.live(i) && i != ich && i != ic
            implies #[trigger] post.task(i) == pre.task(i) by {}
        // Only the caller referenced the reaped child.
        assert forall|i: int| post.live(i) implies #[trigger] post.task_wf(i) by {
            assert(pre.live(i));
            assert(pre.task_wf(i));
            let t = post.task(i);
            assert(post.tcb_local_wf(t)) by {
                assert(pre.tcb_local_wf(pre.task(i)));
            }
            assert forall|jj: int| 0 <= jj < t.children@.len()
                implies post.live(#[trigger] t.children@[jj] as int)
                    && post.task(t.children@[jj] as int).parent == Some(i as usize) by {
                let cc = t.children@[jj] as int;
                if i == ic {
                    let oc = pre.task(ic).children@;
                    let jj0 = if jj < zidx as int { jj } else { jj + 1 };
                    assert(oc[jj0] == t.children@[jj]);
                    assert(pre.live(cc));
                    assert(pre.task(cc).parent == Some(i as usize));
                    assert(jj0 != zidx as int);
                    assert(cc != ich);
                } else {
                    assert(pre.live(cc));
                    assert(pre.task(cc).parent == Some(i as usize));
                    if cc == ich {
                        // the reaped child's only parent was the caller
                        assert(pre.task(ich).parent == Some(c));
                        assert(i as usize == c);
                        assert(false);
                    }
                }
            }
            assert forall|j1: int, j2: int|
                0 <= j1 < t.children@.len() && 0 <= j2 < t.children@.len() && j1 != j2
                implies t.children@[j1] != t.children@[j2] by {
                if i == ic {
                    let oc = pre.task(ic).children@;
                    let a0 = if j1 < zidx as int { j1 } else { j1 + 1 };
                    let b0 = if j2 < zidx as int { j2 } else { j2 + 1 };
                    assert(oc[a0] == t.children@[j1]);
                    assert(oc[b0] == t.children@[j2]);
                }
            }
            if t.parent is Some {
                let p = t.parent.unwrap() as int;
                assert(pre.live(p));
                if p == ich {
                    // the zombie child had no children, so nobody's parent
                    assert(wait_zombie_at(pre, zidx as int, pid));
                    assert(pre.task(ich).task_status is Zombie);
                    assert(pre.task_wf(ich));
                    assert(pre.task(ich).children@.len() == 0);
                    let jw = choose|jj: int|
                        0 <= jj < pre.task(ich).children@.len()
                        && pre.task(ich).children@[jj] == i;
                    assert(false);
                }
                if p == ic {
                    let j0 = choose|jj: int|
                        0 <= jj < pre.task(p).children@.len()
                        && pre.task(p).children@[jj] == i;
                    assert(i != ich);
                    assert(j0 != zidx as int);
                    let oc = pre.task(ic).children@;
                    if j0 < zidx as int {
                        assert(post.task(ic).children@[j0] == i);
                    } else {
                        assert(post.task(ic).children@[j0 - 1] == i);
                    }
                }
            }
        }
        assert forall|q: int| 0 <= q < post.ready_queue@.len()
            implies post.live(#[trigger] post.ready_queue@[q] as int)
                && post.task(post.ready_queue@[q] as int).task_status is Ready by {
            let p = post.ready_queue@[q] as int;
            assert(pre.live(p));
            assert(pre.task(p).task_status is Ready);
            if p == ich {
                assert(pre.task(ich).task_status is Zombie);
                assert(false);
            }
        }
        assert forall|i: int| post.live(i) && (#[trigger] post.task(i)).task_status is Running
            implies post.current == Some(i as usize) by {
            if i != ic {
                assert(post.task(i) == pre.task(i));
            }
        }
        assert(post.wf());
        assert(wait_reap_post(pre, post, pid, exit_code_ptr as int));
        assert(ch as isize == waitpid_result(pre, pid, exit_code_ptr as int));
    }
    ch as isize
}


/// The full behaviour of `sys_set_priority`.
pub open spec fn set_priority_post(pre: Kernel, post: Kernel, r: isize, prio: isize) -> bool {
    &&& r == (if prio >= 2 { prio } else { -1isize })
    &&& prio <= 1 ==> same_kernel(pre, post)
    &&& prio >= 2 ==> same_but_task(pre, post, pre.cur())
            && post.task(pre.cur()) == (TaskControlBlock {
                priority: prio as usize,
                ..pre.task(pre.cur())
            })
}

/// The full behaviour of `sys_close`.
pub open spec fn close_post(pre: Kernel, post: Kernel, r: isize, fd: usize) -> bool {
    &&& (r == 0) == fd_ok(pre, fd)
    &&& r == 0 || r == -1
    &&& r == -1 ==> same_kernel(pre, post)
    &&& r == 0 ==> same_but_task(pre, post, pre.cur())
            && post.task(pre.cur()) == (TaskControlBlock {
                fd_table: post.task(pre.cur()).fd_table,
                ..pre.task(pre.cur())
            })
            && post.task(pre.cur()).fd_table@
                == pre.task(pre.cur()).fd_table@.update(fd as int, None::<usize>)
}

/// The full behaviour of `sys_linkat`.
pub open spec fn linkat_post(pre: Kernel, post: Kernel, r: isize, old_name: usize, new_name: usize) -> bool {
    &&& r == 0 || r == -1
    &&& r == -1 ==> same_kernel(pre, post)
    &&& linkat_main(pre, post, r, old_name, new_name)
}

/// The full behaviour of `sys_unlinkat`.
pub open spec fn unlinkat_post(pre: Kernel, post: Kernel, r: isize, path: usize) -> bool {
    &&& r == 0 || r == -1
    &&& r == -1 ==> same_kernel(pre, post)
    &&& unlinkat_main(pre, post, r, path)
}

/// The full behaviour of `sys_mmap`.
pub open spec fn mmap_post(pre: Kernel, post: Kernel, r: isize, start: usize, len: usize, port: usize) -> bool {
    &&& r == 0 || r == -1
    &&& (r == -1) == pre.task(pre.cur()).addr_space.mmap_invalid(start as int, len as int, port)
    &&& r == -1 ==> same_kernel(pre, post)
    &&& r == 0 ==> same_but_task(pre, post, pre.cur())
            && AddrSpace::mmap_success(
                pre.task(pre.cur()).addr_space,
                post.task(pre.cur()).addr_space,
                start as int, len as int, port)
            && post.task(pre.cur()) == (TaskControlBlock {
                addr_space: post.task(pre.cur()).addr_space,
                ..pre.task(pre.cur())
            })
}

/// The full behaviour of `sys_munmap`.
pub open spec fn munmap_post(pre: Kernel, post: Kernel, r: isize, start: usize, len: usize) -> bool {
    &&& r == 0 || r == -1
    &&& (r == -1) == pre.task(pre.cur()).addr_space.munmap_invalid(start as int, len as int)
    &&& r == -1 ==> same_kernel(pre, post)
    &&& r == 0 ==> same_but_task(pre, post, pre.cur())
            && AddrSpace::munmap_success(
                pre.task(pre.cur()).addr_space,
                post.task(pre.cur()).addr_space,
                start as int, len as int)
            && post.task(pre.cur()) == (TaskControlBlock {
                addr_space: post.task(pre.cur()).addr_space,
                ..pre.task(pre.cur())
            })
}

/// The full behaviour of `sys_fork`.
pub open spec fn fork_res(pre: Kernel, post: Kernel, r: isize) -> bool {
    &&& r == -1 || 0 <= r < crate::config::MAX_TASKS
    &&& (r == -1) == (pre.nt() == crate::config::MAX_TASKS
            && (forall|i: int| 0 <= i < pre.nt() ==> pre.live(i)))
    &&& r == -1 ==> same_kernel(pre, post)
    &&& r >= 0 ==> fork_post(pre, post, r as int)
}

/// The full behaviour of `sys_exec`.
pub open spec fn exec_res(pre: Kernel, post: Kernel, r: isize, path: usize) -> bool {
    &&& r == 0 || r == -1
    &&& (r == 0) == (str_readable(pre.task(pre.cur()).addr_space, path as int)
            && app_named(pre, str_at(pre.task(pre.cur()).addr_space, path as int)))
    &&& r == -1 ==> same_kernel(pre, post)
    &&& r == 0 ==> (exists|a: int|
            (#[trigger] pre.apps@[a]).name@
                == str_at(pre.task(pre.cur()).addr_space, path as int)
            && exec_loaded(pre, post, a))
}

/// The full behaviour of `sys_spawn`.
pub open spec fn spawn_res(pre: Kernel, post: Kernel, r: isize, path: usize) -> bool {
    &&& r == -1 || 0 <= r < crate::config::MAX_TASKS
    &&& r == -1 ==> same_kernel(pre, post)
    &&& (r == -1) == (!(str_readable(pre.task(pre.cur()).addr_space, path as int)
                && app_named(pre, str_at(pre.task(pre.cur()).addr_space, path as int)))
            || (pre.nt() == crate::config::MAX_TASKS
                && (forall|i: int| 0 <= i < pre.nt() ==> pre.live(i))))
    &&& r >= 0 ==> (exists|a: int|
            (#[trigger] pre.apps@[a]).name@
                == str_at(pre.task(pre.cur()).addr_space, path as int)
            && spawn_post(pre, post, r as int, a))
}

/// The full behaviour of `sys_waitpid`.
pub open spec fn waitpid_post(pre: Kernel, post: Kernel, r: isize, pid: isize, ptr: usize) -> bool {
    &&& r == waitpid_result(pre, pid, ptr as int)
    &&& r < 0 ==> same_kernel(pre, post)
    &&& r >= 0 ==> wait_reap_post(pre, post, pid, ptr as int)
}

/// What recording one syscall invocation does: only the running task's
/// counter table changes, by one bump of the dispatched id's slot.
pub open spec fn counted_post(pre: Kernel, mid: Kernel, id: usize) -> bool {
    &&& mid.wf()
    &&& mid.running()
    &&& mid.current == pre.current
    &&& same_but_task(pre, mid, pre.cur())
    &&& mid.task(pre.cur()) == (TaskControlBlock {
            task_info: crate::task::TaskInformation {
                task_syscall_count: mid.task(pre.cur()).task_info.task_syscall_count,
                ..pre.task(pre.cur()).task_info
            },
            ..pre.task(pre.cur())
        })
    &&& mid.task(pre.cur()).task_info.task_syscall_count@ == bumped_counts(pre, id)
}

/// Syscall id: unlinkat.
pub const SYSCALL_UNLINKAT: usize = 35;

/// Syscall id: linkat.
pub const SYSCALL_LINKAT: usize = 37;

/// Syscall id: open.
pub const SYSCALL_OPEN: usize = 56;

/// Syscall id: close.
pub const SYSCALL_CLOSE: usize = 57;

/// Syscall id: read.
pub const SYSCALL_READ: usize = 63;

/// Syscall id: write.
pub const SYSCALL_WRITE: usize = 64;

/// Syscall id: fstat.
pub const SYSCALL_FSTAT: usize = 80;

/// Syscall id: exit.
pub const SYSCALL_EXIT: usize = 93;

/// Syscall id: yield.
pub const SYSCALL_YIELD: usize = 124;

/// Syscall id: set_priority.
pub const SYSCALL_SET_PRIORITY: usize = 140;

/// Syscall id: get_time.
pub const SYSCALL_GET_TIME: usize = 169;

/// Syscall id: getpid.
pub const SYSCALL_GETPID: usize = 172;

/// Syscall id: sbrk.
pub const SYSCALL_SBRK: usize = 214;

/// Syscall id: munmap.
pub const SYSCALL_MUNMAP: usize = 215;

/// Syscall id: fork.
pub const SYSCALL_FORK: usize = 220;

/// Syscall id: exec.
pub const SYSCALL_EXEC: usize = 221;

/// Syscall id: mmap.
pub const SYSCALL_MMAP: usize = 222;

/// Syscall id: waitpid.
pub const SYSCALL_WAITPID: usize = 260;

/// Syscall id: spawn.
pub const SYSCALL_SPAWN: usize = 400;

/// Syscall id: trace.
pub const SYSCALL_TRACE: usize = 410;

/// The running task's counter for syscall `id` after one more invocation
/// is recorded (a counter at the largest machine word stays there).
pub open spec fn bumped_counts(pre: Kernel, id: usize) -> Seq<usize> {
    let counts = pre.task(pre.cur()).task_info.task_syscall_count@;
    let bumped = if counts[id as int] < usize::MAX {
        (counts[id as int] + 1) as usize
    } else {
        counts[id as int]
    };
    counts.update(id as int, bumped)
}

/// The trap dispatcher's syscall path: rejects ids at or above the table
/// bound with -1, otherwise increments the running task's counter for the
/// id and routes to the matching handler (unknown ids below the bound get
/// -1 after being counted, as any trap costs its bookkeeping).
pub fn syscall(k: &mut Kernel, id: usize, a0: usize, a1: usize, a2: usize) -> (r: isize)
    requires
        old(k).wf(),
        old(k).running(),
        id == SYSCALL_EXIT ==> old(k).cur() != 0 && old(k).live(0)
            && old(k).task(0).parent is None
            && !(old(k).task(0).task_status is Zombie),
    ensures
        final(k).wf(),
        id >= SYSCALL_MAX_ID ==> r == -1 && same_kernel(*old(k), *final(k)),
        id < SYSCALL_MAX_ID ==> final(k).live(old(k).cur())
            && final(k).task(old(k).cur()).task_info.task_syscall_count@
                == bumped_counts(*old(k), id),
        id < SYSCALL_MAX_ID && id != SYSCALL_EXIT && id != SYSCALL_YIELD
            ==> final(k).running() && final(k).current == old(k).current,
        id == SYSCALL_TRACE && a0 == 2 && a1 < SYSCALL_MAX_ID
            ==> r == bumped_counts(*old(k), id)[a1 as int] as isize,
        id == SYSCALL_WRITE ==> (exists|mid: Kernel|
            #[trigger] counted_post(*old(k), mid, id) && write_post(mid, *final(k), r, a0, a1, a2)),
        id == SYSCALL_READ ==> (exists|mid: Kernel|
            #[trigger] counted_post(*old(k), mid, id) && read_post(mid, *final(k), r, a0, a1, a2)),
        id == SYSCALL_OPEN ==> (exists|mid: Kernel|
            #[trigger] counted_post(*old(k), mid, id)
                && open_post(mid, *final(k), r, a0, (a1 as u64) as u32)),
        id == SYSCALL_CLOSE ==> (exists|mid: Kernel|
            #[trigger] counted_post(*old(k), mid, id) && close_post(mid, *final(k), r, a0)),
        id == SYSCALL_LINKAT ==> (exists|mid: Kernel|
            #[trigger] counted_post(*old(k), mid, id) && linkat_post(mid, *final(k), r, a0, a1)),
        id == SYSCALL_UNLINKAT ==> (exists|mid: Kernel|
            #[trigger] counted_post(*old(k), mid, id) && unlinkat_post(mid, *final(k), r, a0)),
        id == SYSCALL_FSTAT ==> (exists|mid: Kernel|
            #[trigger] counted_post(*old(k), mid, id) && fstat_post(mid, *final(k), r, a0, a1)),
        id == SYSCALL_EXIT ==> r == 0 && (exists|mid: Kernel|
            #[trigger] counted_post(*old(k), mid, id)
                && exit_post(mid, *final(k), (a0 as u64) as i32))
            && final(k).running() == (old(k).ready_queue@.len() > 0),
        id == SYSCALL_YIELD ==> r == 0 && (exists|mid: Kernel|
            #[trigger] counted_post(*old(k), mid, id) && yield_post(mid, *final(k))),
        id == SYSCALL_SET_PRIORITY ==> (exists|mid: Kernel|
            #[trigger] counted_post(*old(k), mid, id)
                && set_priority_post(mid, *final(k), r, a0 as isize)),
        id == SYSCALL_GET_TIME ==> (exists|mid: Kernel|
            #[trigger] counted_post(*old(k), mid, id) && get_time_post(mid, *final(k), r, a0)),
        id == SYSCALL_GETPID ==> r == old(k).cur() as isize,
        id == SYSCALL_SBRK ==> (exists|mid: Kernel|
            #[trigger] counted_post(*old(k), mid, id)
                && sbrk_post(mid, *final(k), r, (a0 as u64) as i32)),
        id == SYSCALL_MUNMAP ==> (exists|mid: Kernel|
            #[trigger] counted_post(*old(k), mid, id) && munmap_post(mid, *final(k), r, a0, a1)),
        id == SYSCALL_FORK ==> (exists|mid: Kernel|
            #[trigger] counted_post(*old(k), mid, id) && fork_res(mid, *final(k), r)),
        id == SYSCALL_EXEC ==> (exists|mid: Kernel|
            #[trigger] counted_post(*old(k), mid, id) && exec_res(mid, *final(k), r, a0)),
        id == SYSCALL_MMAP ==> (exists|mid: Kernel|
            #[trigger] counted_post(*old(k), mid, id) && mmap_post(mid, *final(k), r, a0, a1, a2)),
        id == SYSCALL_WAITPID ==> (exists|mid: Kernel|
            #[trigger] counted_post(*old(k), mid, id)
                && waitpid_post(mid, *final(k), r, a0 as isize, a1)),
        id == SYSCALL_SPAWN ==> (exists|mid: Kernel|
            #[trigger] counted_post(*old(k), mid, id) && spawn_res(mid, *final(k), r, a0)),
        id == SYSCALL_TRACE ==> (exists|mid: Kernel|
            #[trigger] counted_post(*old(k), mid, id) && trace_post(mid, *final(k), r, a0, a1, a2)),
        id < SYSCALL_MAX_ID && id != SYSCALL_WRITE && id != SYSCALL_READ && id != SYSCALL_OPEN
            && id != SYSCALL_CLOSE && id != SYSCALL_LINKAT && id != SYSCALL_UNLINKAT
            && id != SYSCALL_FSTAT && id != SYSCALL_EXIT && id != SYSCALL_YIELD
            && id != SYSCALL_SET_PRIORITY && id != SYSCALL_GET_TIME && id != SYSCALL_GETPID
            && id != SYSCALL_SBRK && id != SYSCALL_MUNMAP && id != SYSCALL_FORK
            && id != SYSCALL_EXEC && id != SYSCALL_MMAP && id != SYSCALL_WAITPID
            && id != SYSCALL_SPAWN && id != SYSCALL_TRACE
            ==> r == -1 && (exists|mid: Kernel|
                #[trigger] counted_post(*old(k), mid, id) && same_kernel(mid, *final(k))),
{
    let ghost pre = *old(k);
    if id >= SYSCALL_MAX_ID {
        return -1;
    }
    let ghost c = pre.cur();
    proof {
        assert(k.live(c));
        assert(k.task_wf(c));
    }
    count_syscall(k, id);
    let ghost mid = *k;
    let r: isize = if id == SYSCALL_WRITE {
        sys_write(k, a0, a1, a2)
    } else if id == SYSCALL_READ {
        sys_read(k, a0, a1, a2)
    } else if id == SYSCALL_OPEN {
        sys_open(k, a0, (a1 as u64) as u32)
    } else if id == SYSCALL_CLOSE {
        sys_close(k, a0)
    } else if id == SYSCALL_LINKAT {
        sys_linkat(k, a0, a1)
    } else if id == SYSCALL_UNLINKAT {
        sys_unlinkat(k, a0)
    } else if id == SYSCALL_FSTAT {
        sys_fstat(k, a0, a1)
    } else if id == SYSCALL_EXIT {
        sys_exit(k, (a0 as u64) as i32);
        0
    } else if id == SYSCALL_YIELD {
        sys_yield(k)
    } else if id == SYSCALL_SET_PRIORITY {
        sys_set_priority(k, a0 as isize)
    } else if id == SYSCALL_GET_TIME {
        sys_get_time(k, a0, a1)
    } else if id == SYSCALL_GETPID {
        sys_getpid(k)
    } else if id == SYSCALL_SBRK {
        sys_sbrk(k, (a0 as u64) as i32)
    } else if id == SYSCALL_MUNMAP {
        sys_munmap(k, a0, a1)
    } else if id == SYSCALL_FORK {
        sys_fork(k)
    } else if id == SYSCALL_EXEC {
        sys_exec(k, a0)
    } else if id == SYSCALL_MMAP {
        sys_mmap(k, a0, a1, a2)
    } else if id == SYSCALL_WAITPID {
        sys_waitpid(k, a0 as isize, a1)
    } else if id == SYSCALL_SPAWN {
        sys_spawn(k, a0)
    } else if id == SYSCALL_TRACE {
        sys_trace(k, a0, a1, a2)
    } else {
        -1
    };
    proof {
        assert(k.live(c));
        assert(k.task(c).task_info == mid.task(c).task_info);
        assert(mid.task(c).task_info.task_syscall_count@ == bumped_counts(pre, id));
    }
    r
}

/// The trap dispatcher's timer path: the clock advances and, the running
/// task's slice being over, a yield is forced (cooperative round-robin
/// preemption).
pub fn handle_timer_tick(k: &mut Kernel, delta: usize) -> (r: isize)
    requires
        old(k).wf(),
        old(k).running(),
        old(k).clock_us + delta <= usize::MAX,
    ensures
        final(k).wf(),
        final(k).running(),
        r == 0,
        final(k).clock_us == old(k).clock_us + delta,
        exists|mid: Kernel|
            #[trigger] ticked(*old(k), mid, delta) && yield_post(mid, *final(k)),
{
    tick(k, delta);
    let ghost mid = *k;
    let r = sys_yield(k);
    proof {
        assert(ticked(*old(k), mid, delta) && yield_post(mid, *k));
    }
    r
}

/// The trap dispatcher's path for an unhandled or illegal access: the
/// offending task is terminated as if it had called exit with a failure
/// code, preserving kernel and sibling-task integrity.
pub fn handle_illegal_access(k: &mut Kernel)
    requires
        old(k).wf(),
        old(k).running(),
        old(k).cur() != 0,
        old(k).live(0),
        old(k).task(0).parent is None,
        !(old(k).task(0).task_status is Zombie),
    ensures
        final(k).wf(),
        exit_post(*old(k), *final(k), -2i32),
        final(k).running() == (old(k).ready_queue@.len() > 0),
{
    sys_exit(k, -2);
}

/// The full behaviour of `sys_trace`, relating the state before the call
/// to the state after it and the returned value.
pub open spec fn trace_post(pre: Kernel, post: Kernel, r: isize, trace_request: usize, id: usize, data: usize) -> bool {
    let space = pre.task(pre.cur()).addr_space;
    let counts = pre.task(pre.cur()).task_info.task_syscall_count@;
    if trace_request == 0 {
        if space.flag_ok(id as int, PERM_R | PERM_U) {
            r == space.byte_at(id as int) as isize && same_kernel(pre, post)
        } else {
            r == -1 && same_kernel(pre, post)
        }
    } else if trace_request == 1 {
        if space.flag_ok(id as int, PERM_W | PERM_U) {
            r == 0
                && same_but_task(pre, post, pre.cur())
                && same_mapping(space, post.task(pre.cur()).addr_space)
                && post.task(pre.cur()).addr_space.byte_at(id as int)
                    == (data as u8)
                && (forall|x: int| space.is_mapped(x / PAGE_SIZE as int) && x != id
                        ==> #[trigger] post.task(pre.cur()).addr_space.byte_at(x)
                            == space.byte_at(x))
                && post.task(pre.cur()) == (TaskControlBlock {
                    addr_space: post.task(pre.cur()).addr_space,
                    ..pre.task(pre.cur())
                })
        } else {
            r == -1 && same_kernel(pre, post)
        }
    } else if trace_request == 2 {
        if id < SYSCALL_MAX_ID {
            r == counts[id as int] as isize && same_kernel(pre, post)
        } else {
            r == -1 && same_kernel(pre, post)
        }
    } else {
        r == -1 && same_kernel(pre, post)
    }
}

/// Handles the trace syscall. Request 0 reads one byte at user address
/// `id` (returned as its value) after checking user-mode read permission;
/// request 1 writes the low byte of `data` at `id` after checking
/// user-mode write permission; request 2 returns the running task's
/// invocation count for syscall id `id` (the dispatcher has already
/// counted the trace call itself); any other request returns -1.
pub fn sys_trace(k: &mut Kernel, trace_request: usize, id: usize, data: usize) -> (r: isize)
    requires
        old(k).wf(),
        old(k).running(),
    ensures
        final(k).wf(),
        final(k).running(),
        final(k).current == old(k).current,
        trace_post(*old(k), *final(k), r, trace_request, id, data),
{
    let c = k.current_pid();
    proof {
        assert(k.live(c as int));
        assert(k.task_wf(c as int));
    }
    if trace_request == 0 {
        let b = match &k.tasks[c] {
            Some(t) => {
                if t.addr_space.addr_flag(id, PERM_R | PERM_U) {
                    t.addr_space.read_byte(id)
                } else {
                    None
                }
            },
            None => vstd::pervasive::unreached(),
        };
        match b {
            Some(b) => b as isize,
            None => -1,
        }
    } else if trace_request == 1 {
        let mut t = k.take_task(c);
        let okp = t.addr_space.addr_flag(id, PERM_W | PERM_U);
        let ok = if okp {
            t.addr_space.set_byte(id, data as u8)
        } else {
            false
        };
        k.put_task(c, t);
        proof {
            assert(k.tasks@ =~= old(k).tasks@.update(c as int, k.tasks@[c as int]));
            lemma_wf_replace_task(*old(k), *k, c as int);
            if !ok {
                assert(k.tasks@ =~= old(k).tasks@);
            }
        }
        if ok {
            0
        } else {
            -1
        }
    } else if trace_request == 2 {
        if id < SYSCALL_MAX_ID {
            let cnt = match &k.tasks[c] {
                Some(t) => t.task_info.task_syscall_count[id],
                None => vstd::pervasive::unreached(),
            };
            cnt as isize
        } else {
            -1
        }
    } else {
        -1
    }
}

/// Records one invocation of syscall `id` against the running task's
/// counter table; a counter that has reached the largest machine word
/// stays there.
pub fn count_syscall(k: &mut Kernel, id: usize)
    requires
        old(k).wf(),
        old(k).running(),
        id < SYSCALL_MAX_ID,
    ensures
        counted_post(*old(k), *final(k), id),
{
    let c = k.current_pid();
    proof {
        assert(k.live(c as int));
        assert(k.task_wf(c as int));
    }
    let mut t = k.take_task(c);
    let cur = t.task_info.task_syscall_count[id];
    if cur < usize::MAX {
        t.task_info.task_syscall_count[id] = cur + 1;
    } else {
        proof {
            assert(t.task_info.task_syscall_count@ =~= old(
                k).task(old(k).cur()).task_info.task_syscall_count@.update(id as int, cur));
        }
    }
    k.put_task(c, t);
    proof {
        assert(k.tasks@ =~= old(k).tasks@.update(c as int, k.tasks@[c as int]));
        lemma_wf_replace_task(*old(k), *k, c as int);
    }
}

/// The four little-endian bytes of a 32-bit word.
pub open spec fn u32_le_bytes(v: u32) -> Seq<u8> {
    Seq::new(4, |i: int| (v >> ((8 * i) as u32)) as u8)
}

/// The file mode reported for every regular file.
pub const STAT_MODE_FILE: u32 = 32768;

/// The eighty bytes a `Stat` occupies in user memory: device (always 0),
/// inode number, mode, link count, and seven words of padding.
pub open spec fn stat_bytes(ino: usize, nlink: u32) -> Seq<u8> {
    word_le_bytes(0) + word_le_bytes(ino) + u32_le_bytes(STAT_MODE_FILE) + u32_le_bytes(nlink)
        + Seq::new(56, |i: int| 0u8)
}

/// How many directory entries link to inode `ino`.
pub open spec fn count_links(dir: Seq<DirEntry>, ino: usize) -> int
    decreases dir.len(),
{
    if dir.len() == 0 {
        0
    } else {
        count_links(dir.drop_last(), ino) + if dir.last().inode == ino { 1int } else { 0int }
    }
}

/// Counting links over one more directory entry.
proof fn lemma_count_links_step(dir: Seq<DirEntry>, ino: usize, kk: int)
    requires
        0 <= kk < dir.len(),
    ensures
        count_links(dir.take(kk + 1), ino) == count_links(dir.take(kk), ino)
            + if dir[kk].inode == ino { 1int } else { 0int },
{
    assert(dir.take(kk + 1).drop_last() =~= dir.take(kk));
    assert(dir.take(kk + 1).last() == dir[kk]);
}

/// The bytes of `data` after writing `src` at offset `off`, zero-padding
/// any gap between the old end of the file and the write position.
pub open spec fn write_at(data: Seq<u8>, off: int, src: Seq<u8>) -> Seq<u8> {
    Seq::new(
        if data.len() >= off + src.len() { data.len() } else { (off + src.len()) as nat },
        |i: int| if off <= i < off + src.len() {
            src[i - off]
        } else if i < data.len() {
            data[i]
        } else {
            0u8
        },
    )
}

/// The first free descriptor slot, or the table's length if none is free.
pub open spec fn first_free_fd(t: Seq<Option<usize>>) -> int {
    if exists|j: int| 0 <= j < t.len() && t[j] is None {
        choose|j: int| 0 <= j < t.len() && t[j] is None
            && forall|jj: int| 0 <= jj < j ==> t[jj] is Some
    } else {
        t.len() as int
    }
}

/// Some directory entry carries this name.
pub open spec fn dir_named(dir: Seq<DirEntry>, name: Seq<u8>) -> bool {
    exists|d: int| 0 <= d < dir.len() && (#[trigger] dir[d]).name@ == name
}

/// Every byte of `[ptr, ptr + len)` is mapped with at least the bits `fl`.
pub open spec fn range_flags(space: AddrSpace, ptr: int, len: int, fl: usize) -> bool {
    forall|x: int| ptr <= x < ptr + len ==> #[trigger] space.flag_ok(x, fl)
}

/// A byte range that carries permission bits everywhere is in particular
/// fully mapped.
proof fn lemma_range_flags_mapped(space: AddrSpace, ptr: int, len: int, fl: usize)
    requires
        space.wf(),
        0 <= ptr,
        0 < len,
        range_flags(space, ptr, len, fl),
    ensures
        space.range_mapped(ptr, len),
{
    let ps = PAGE_SIZE as int;
    let first = ptr / ps;
    assert forall|vpn: int|
        first <= vpn < first + crate::addrspace::page_count(ptr, len)
        implies #[trigger] space.is_mapped(vpn) by {
        if vpn == first {
            assert(space.flag_ok(ptr, fl));
        } else {
            let last = (ptr + len - 1) / ps;
            let x = vpn * ps;
            vstd::arithmetic::div_mod::lemma_fundamental_div_mod(ptr, ps);
            vstd::arithmetic::div_mod::lemma_fundamental_div_mod(ptr + len - 1, ps);
            assert(ptr < x && x <= ptr + len - 1) by (nonlinear_arith)
                requires (x == vpn * ps) && (first + 1 <= vpn) && (vpn <= last) && (ps > 0)
                    && (ptr == first * ps + (ptr % ps)) && (0 <= ptr % ps) && (ptr % ps < ps)
                    && (ptr + len - 1 == last * ps + ((ptr + len - 1) % ps))
                    && (0 <= (ptr + len - 1) % ps);
            vstd::arithmetic::div_mod::lemma_fundamental_div_mod_converse(x, ps, vpn, 0);
            assert(space.flag_ok(x, fl));
        }
    }
}

/// Walks the byte range `[ptr, ptr + len)` and reports whether every byte
/// sits on a page mapped with at least the bits `fl`.
fn check_range_flags(space: &AddrSpace, ptr: usize, len: usize, fl: usize) -> (r: bool)
    requires
        space.wf(),
    ensures
        r == range_flags(*space, ptr as int, len as int, fl),
{
    let mut i: usize = 0;
    while i < len
        invariant
            space.wf(),
            i <= len,
            forall|x: int| ptr <= x < ptr + i ==> #[trigger] space.flag_ok(x, fl),
        decreases len - i,
    {
        if i > usize::MAX - ptr {
            // The byte lies beyond any mappable address.
            proof {
                let iva = ptr as int + i as int;
                vstd::arithmetic::div_mod::lemma_div_is_ordered(
                    MAX_VPN * PAGE_SIZE, iva, PAGE_SIZE as int);
                assert(MAX_VPN * PAGE_SIZE / PAGE_SIZE as int == MAX_VPN) by (nonlinear_arith);
                if space.is_mapped(iva / PAGE_SIZE as int) {
                    space.lemma_mapped_bound(iva / PAGE_SIZE as int);
                }
                assert(!space.flag_ok(iva, fl));
            }
            return false;
        }
        if !space.addr_flag(ptr + i, fl) {
            return false;
        }
        i = i + 1;
    }
    true
}

/// Reads `len` bytes of user memory starting at `ptr`, or `None` if any
/// page of the range is unmapped.
fn read_user_bytes(space: &AddrSpace, ptr: usize, len: usize) -> (r: Option<Vec<u8>>)
    requires
        space.wf(),
    ensures
        match r {
            Some(v) => space.range_mapped(ptr as int, len as int)
                && v@ == space.bytes_at(ptr as int, len as int),
            None => !space.range_mapped(ptr as int, len as int),
        },
{
    match space.translated_byte_buffer(ptr, len) {
        Some(bufs) => {
            let mut out: Vec<u8> = Vec::new();
            let mut i: usize = 0;
            proof {
                assert(crate::addrspace::views_of(bufs@).take(0) =~= Seq::<Seq<u8>>::empty());
            }
            let ghost views = crate::addrspace::views_of(bufs@);
            while i < bufs.len()
                invariant
                    i <= bufs@.len(),
                    views == crate::addrspace::views_of(bufs@),
                    out@ == views.take(i as int).flatten(),
                decreases bufs@.len() - i,
            {
                let mut jj: usize = 0;
                let ghost outpre = out@;
                while jj < bufs[i].len()
                    invariant
                        i < bufs@.len(),
                        jj <= bufs@[i as int]@.len(),
                        out@ == outpre + bufs@[i as int]@.take(jj as int),
                    decreases bufs@[i as int]@.len() - jj,
                {
                    out.push(bufs[i][jj]);
                    proof {
                        assert(out@ =~= outpre + bufs@[i as int]@.take(jj as int + 1));
                    }
                    jj = jj + 1;
                }
                proof {
                    assert(views.take(i as int + 1) =~= views.take(i as int).push(
                        bufs@[i as int]@));
                    views.take(i as int).lemma_flatten_push(bufs@[i as int]@);
                    assert(out@ =~= views.take(i as int + 1).flatten()) by {
                        assert(bufs@[i as int]@.take(bufs@[i as int]@.len() as int)
                            =~= bufs@[i as int]@);
                    }
                }
                i = i + 1;
            }
            proof {
                assert(views.take(bufs@.len() as int) =~= views);
            }
            Some(out)
        },
        None => None,
    }
}

/// Linear directory walk: the first entry carrying `name`.
fn find_dir(dir: &Vec<DirEntry>, name: &Vec<u8>) -> (r: Option<usize>)
    ensures
        match r {
            Some(d) => d < dir@.len() && dir@[d as int].name@ == name@,
            None => !dir_named(dir@, name@),
        },
{
    let mut d: usize = 0;
    let mut found: Option<usize> = None;
    while d < dir.len()
        invariant
            d <= dir@.len(),
            match found {
                Some(f) => f < dir@.len() && dir@[f as int].name@ == name@,
                None => forall|j: int| 0 <= j < d ==> (#[trigger] dir@[j]).name@ != name@,
            },
        decreases dir@.len() - d,
    {
        if found.is_none() && bytes_eq(&dir[d].name, name) {
            found = Some(d);
        }
        d = d + 1;
    }
    found
}

/// Descriptor `fd` of the running task is open.
pub open spec fn fd_ok(pre: Kernel, fd: usize) -> bool {
    let t = pre.task(pre.cur());
    fd < t.fd_table@.len() && t.fd_table@[fd as int] is Some
}

/// The open-file table slot behind descriptor `fd` (meaningful when open).
pub open spec fn fd_slot(pre: Kernel, fd: usize) -> int {
    pre.task(pre.cur()).fd_table@[fd as int].unwrap() as int
}

/// The full behaviour of `sys_write`, relating the state before the call
/// to the state after it and the returned value.
pub open spec fn write_post(pre: Kernel, post: Kernel, r: isize, fd: usize, buf: usize, len: usize) -> bool {
    let space = pre.task(pre.cur()).addr_space;
    if !(fd_ok(pre, fd) && pre.open_files@[fd_slot(pre, fd)].writable) {
        r == -1 && same_kernel(pre, post)
    } else if !range_flags(space, buf as int, len as int, PERM_R | PERM_U) {
        r == -2 && same_kernel(pre, post)
    } else if !(pre.open_files@[fd_slot(pre, fd)].offset + len <= usize::MAX) {
        r == -3 && same_kernel(pre, post)
    } else {
        let of = fd_slot(pre, fd);
        let e = pre.open_files@[of];
        r == len as isize
            && post.tasks@ == pre.tasks@
            && post.ready_queue@ == pre.ready_queue@
            && post.dir@ == pre.dir@
            && post.apps@ == pre.apps@
            && post.clock_us == pre.clock_us
            && post.open_files@ == pre.open_files@.update(of, OpenFileEntry {
                offset: (e.offset + len) as usize,
                ..e
            })
            && post.inodes@ == pre.inodes@.update(e.inode as int,
                post.inodes@[e.inode as int])
            && post.inodes@[e.inode as int]@ == write_at(
                pre.inodes@[e.inode as int]@, e.offset as int,
                space.bytes_at(buf as int, len as int))
    }
}

/// Writes `len` bytes from user address `buf` to the file behind `fd`,
/// advancing the shared cursor. Returns the byte count; -1 if the
/// descriptor is invalid or not writable; -2, a distinct fault, if any
/// byte of the source range lacks user-mode read permission; -3 if the
/// cursor would overflow.
pub fn sys_write(k: &mut Kernel, fd: usize, buf: usize, len: usize) -> (r: isize)
    requires
        old(k).wf(),
        old(k).running(),
    ensures
        final(k).wf(),
        final(k).running(),
        final(k).current == old(k).current,
        write_post(*old(k), *final(k), r, fd, buf, len),
{
    let ghost pre = *old(k);
    let c = k.current_pid();
    proof {
        assert(k.live(c as int));
        assert(k.task_wf(c as int));
    }
    let nfds = match &k.tasks[c] {
        Some(t) => t.fd_table.len(),
        None => vstd::pervasive::unreached(),
    };
    if fd >= nfds {
        return -1;
    }
    let slot = match &k.tasks[c] {
        Some(t) => t.fd_table[fd],
        None => vstd::pervasive::unreached(),
    };
    let of = match slot {
        Some(of) => of,
        None => {
            return -1;
        },
    };
    let entry = OpenFileEntry {
        inode: k.open_files[of].inode,
        offset: k.open_files[of].offset,
        readable: k.open_files[of].readable,
        writable: k.open_files[of].writable,
    };
    proof {
        assert(entry == pre.open_files@[of as int]);
    }
    if !entry.writable {
        return -1;
    }
    // Validate user-mode read permission on every source byte first.
    let perm_ok = match &k.tasks[c] {
        Some(t) => check_range_flags(&t.addr_space, buf, len, PERM_R | PERM_U),
        None => vstd::pervasive::unreached(),
    };
    if !perm_ok {
        return -2;
    }
    proof {
        if len > 0 {
            lemma_range_flags_mapped(
                pre.task(c as int).addr_space, buf as int, len as int, PERM_R | PERM_U);
        }
    }
    let bytes = match &k.tasks[c] {
        Some(t) => read_user_bytes(&t.addr_space, buf, len),
        None => vstd::pervasive::unreached(),
    };
    let bytes = match bytes {
        Some(b) => b,
        None => vstd::pervasive::unreached(),
    };
    if len > usize::MAX - entry.offset {
        return -3;
    }
    // Splice the bytes into the file at the cursor, zero-padding any gap.
    let old_data = clone_bytes(&k.inodes[entry.inode]);
    let end = if old_data.len() >= entry.offset + len {
        old_data.len()
    } else {
        entry.offset + len
    };
    let mut nd: Vec<u8> = Vec::new();
    let ghost target = write_at(old_data@, entry.offset as int, bytes@);
    let mut i: usize = 0;
    while i < end
        invariant
            end == target.len(),
            target == write_at(old_data@, entry.offset as int, bytes@),
            bytes@.len() == len,
            entry.offset + len <= usize::MAX,
            i <= end,
            nd@ == target.take(i as int),
        decreases end - i,
    {
        let b: u8 = if entry.offset <= i && i < entry.offset + len {
            bytes[i - entry.offset]
        } else if i < old_data.len() {
            old_data[i]
        } else {
            0u8
        };
        nd.push(b);
        proof {
            assert(nd@ =~= target.take(i as int + 1));
        }
        i = i + 1;
    }
    proof {
        assert(nd@ =~= target);
    }
    k.inodes[entry.inode] = nd;
    k.open_files[of] = OpenFileEntry { offset: entry.offset + len, ..entry };
    proof {
        assert(k.tasks@ =~= pre.tasks@.update(c as int, k.tasks@[c as int]));
        lemma_wf_replace_task(pre, *k, c as int);
    }
    len as isize
}

/// The full behaviour of `sys_read`, relating the state before the call
/// to the state after it and the returned value.
pub open spec fn read_post(pre: Kernel, post: Kernel, r: isize, fd: usize, buf: usize, len: usize) -> bool {
    let space = pre.task(pre.cur()).addr_space;
    if fd_ok(pre, fd) && pre.open_files@[fd_slot(pre, fd)].readable {
        let of = fd_slot(pre, fd);
        let e = pre.open_files@[of];
        let data = pre.inodes@[e.inode as int]@;
        let n = if e.offset >= data.len() {
            0int
        } else if e.offset + len <= data.len() {
            len as int
        } else {
            data.len() - e.offset
        };
        if range_flags(space, buf as int, n, PERM_W | PERM_U) {
            r == n as isize
                && post.tasks@ == pre.tasks@.update(
                    pre.cur(), post.tasks@[pre.cur()])
                && post.ready_queue@ == pre.ready_queue@
                && post.apps@ == pre.apps@
                && post.clock_us == pre.clock_us
                && same_mapping(space, post.task(pre.cur()).addr_space)
                && (forall|x: int| buf <= x < buf + n
                        ==> #[trigger] post.task(pre.cur()).addr_space.byte_at(x)
                            == data[e.offset + (x - buf)])
                && post.open_files@ == pre.open_files@.update(of, OpenFileEntry {
                    offset: (e.offset + n) as usize,
                    ..e
                })
                && post.inodes@ == pre.inodes@
                && post.dir@ == pre.dir@
                && post.task(pre.cur()) == (TaskControlBlock {
                    addr_space: post.task(pre.cur()).addr_space,
                    ..pre.task(pre.cur())
                })
        } else {
            r == -2 && same_kernel(pre, post)
        }
    } else {
        r == -1 && same_kernel(pre, post)
    }
}

/// Reads up to `len` bytes from the file behind `fd` into user memory at
/// `buf`, advancing the shared cursor. Returns the byte count actually
/// read (zero at or past end of file); -1 if the descriptor is invalid or
/// not readable; -2, a distinct fault, if any destination byte lacks
/// user-mode write permission.
pub fn sys_read(k: &mut Kernel, fd: usize, buf: usize, len: usize) -> (r: isize)
    requires
        old(k).wf(),
        old(k).running(),
    ensures
        final(k).wf(),
        final(k).running(),
        final(k).current == old(k).current,
        read_post(*old(k), *final(k), r, fd, buf, len),
{
    let ghost pre = *old(k);
    let c = k.current_pid();
    proof {
        assert(k.live(c as int));
        assert(k.task_wf(c as int));
    }
    let nfds = match &k.tasks[c] {
        Some(t) => t.fd_table.len(),
        None => vstd::pervasive::unreached(),
    };
    if fd >= nfds {
        return -1;
    }
    let slot = match &k.tasks[c] {
        Some(t) => t.fd_table[fd],
        None => vstd::pervasive::unreached(),
    };
    let of = match slot {
        Some(of) => of,
        None => {
            return -1;
        },
    };
    let entry = OpenFileEntry {
        inode: k.open_files[of].inode,
        offset: k.open_files[of].offset,
        readable: k.open_files[of].readable,
        writable: k.open_files[of].writable,
    };
    proof {
        assert(entry == pre.open_files@[of as int]);
    }
    if !entry.readable {
        return -1;
    }
    let flen = k.inodes[entry.inode].len();
    let n: usize = if entry.offset >= flen {
        0
    } else if flen - entry.offset >= len {
        len
    } else {
        flen - entry.offset
    };
    let mut chunk: Vec<u8> = Vec::new();
    let mut i: usize = 0;
    while i < n
        invariant
            entry.inode < k.inodes@.len(),
            *k == pre,
            n > 0 ==> entry.offset + n <= k.inodes@[entry.inode as int]@.len(),
            n > 0 ==> entry.offset + n <= usize::MAX,
            i <= n,
            chunk@.len() == i,
            forall|j: int| 0 <= j < i
                ==> #[trigger] chunk@[j] == k.inodes@[entry.inode as int]@[entry.offset + j],
        decreases n - i,
    {
        proof {
            assert(n > 0);
            assert(entry.offset + n <= k.inodes@[entry.inode as int]@.len());
        }
        chunk.push(k.inodes[entry.inode][entry.offset + i]);
        i = i + 1;
    }
    // Validate user-mode write permission on every destination byte first.
    let perm_ok = match &k.tasks[c] {
        Some(t) => check_range_flags(&t.addr_space, buf, n, PERM_W | PERM_U),
        None => vstd::pervasive::unreached(),
    };
    if !perm_ok {
        return -2;
    }
    proof {
        if n > 0 {
            lemma_range_flags_mapped(
                pre.task(c as int).addr_space, buf as int, n as int, PERM_W | PERM_U);
        }
    }
    let mut t = k.take_task(c);
    let wrote = t.addr_space.write_buffer(buf, &chunk);
    k.put_task(c, t);
    proof {
        assert(wrote);
    }
    k.open_files[of] = OpenFileEntry { offset: entry.offset + n, ..entry };
    proof {
        assert(k.tasks@ =~= pre.tasks@.update(c as int, k.tasks@[c as int]));
        lemma_wf_replace_task(pre, *k, c as int);
        let post = *k;
        let data = pre.inodes@[entry.inode as int]@;
        assert forall|x: int| buf <= x < buf + n as int
            implies #[trigger] post.task(c as int).addr_space.byte_at(x)
                == data[entry.offset + (x - buf)] by {
            assert(post.task(c as int).addr_space.byte_at(x) == chunk@[x - buf]);
        }
    }
    n as isize
}

/// Closes descriptor `fd` of the running task. Returns -1 if the
/// descriptor is invalid or already closed.
pub fn sys_close(k: &mut Kernel, fd: usize) -> (r: isize)
    requires
        old(k).wf(),
        old(k).running(),
    ensures
        final(k).wf(),
        final(k).running(),
        final(k).current == old(k).current,
        close_post(*old(k), *final(k), r, fd),
{
    let c = k.current_pid();
    proof {
        assert(k.live(c as int));
        assert(k.task_wf(c as int));
    }
    let nfds = match &k.tasks[c] {
        Some(t) => t.fd_table.len(),
        None => vstd::pervasive::unreached(),
    };
    if fd >= nfds {
        return -1;
    }
    let slot = match &k.tasks[c] {
        Some(t) => t.fd_table[fd],
        None => vstd::pervasive::unreached(),
    };
    if slot.is_none() {
        return -1;
    }
    let mut t = k.take_task(c);
    t.fd_table[fd] = None;
    k.put_task(c, t);
    proof {
        assert(k.tasks@ =~= old(k).tasks@.update(c as int, k.tasks@[c as int]));
        lemma_wf_replace_task(*old(k), *k, c as int);
    }
    0
}

/// Valid open-flag bits: write-only, read-write, create, truncate.
pub const OPEN_FLAG_BITS: u32 = 1539;

/// The full behaviour of `sys_open`, relating the state before the call
/// to the state after it and the returned value.
pub open spec fn open_post(pre: Kernel, post: Kernel, r: isize, path: usize, flags: u32) -> bool {
    let space = pre.task(pre.cur()).addr_space;
    let t = pre.task(pre.cur());
    if flags & OPEN_FLAG_BITS != flags {
        r == -1 && same_kernel(pre, post)
    } else if !str_readable(space, path as int) {
        r == -1 && same_kernel(pre, post)
    } else if !dir_named(pre.dir@, str_at(space, path as int)) && flags & 512 == 0 {
        r == -1 && same_kernel(pre, post)
    } else {
        let fd = first_free_fd(t.fd_table@);
        r == fd as isize
            && post.open_files@.len() == pre.open_files@.len() + 1
            && post.open_files@.last() == (OpenFileEntry {
                inode: post.open_files@.last().inode,
                offset: 0,
                readable: flags & 1 == 0,
                writable: flags & 1 != 0 || flags & 2 != 0,
            })
            && post.open_files@.last().inode < post.inodes@.len()
            && post.task(pre.cur()).fd_table@.len() > fd
            && post.task(pre.cur()).fd_table@[fd]
                == Some(pre.open_files@.len() as usize)
            && post.task(pre.cur()) == (TaskControlBlock {
                fd_table: post.task(pre.cur()).fd_table,
                ..t
            })
            && (dir_named(pre.dir@, str_at(space, path as int)) ==> post.inodes@.len()
                    == pre.inodes@.len() && post.dir@ == pre.dir@
                    && (exists|d: int| 0 <= d < pre.dir@.len()
                        && (#[trigger] pre.dir@[d]).name@ == str_at(space, path as int)
                        && post.open_files@.last().inode == pre.dir@[d].inode
                        && (flags & 1024 != 0 ==> post.inodes@
                                == pre.inodes@.update(pre.dir@[d].inode as int,
                                    post.inodes@[pre.dir@[d].inode as int])
                            && post.inodes@[pre.dir@[d].inode as int]@
                                == Seq::<u8>::empty())
                        && (flags & 1024 == 0 ==> post.inodes@ == pre.inodes@)))
            && (!dir_named(pre.dir@, str_at(space, path as int)) ==> {
                &&& post.inodes@.len() == pre.inodes@.len() + 1
                &&& post.inodes@.last()@ == Seq::<u8>::empty()
                &&& post.dir@.len() == pre.dir@.len() + 1
                &&& post.dir@.last().name@ == str_at(space, path as int)
                &&& post.dir@.last().inode == pre.inodes@.len()
                &&& post.open_files@.last().inode == pre.inodes@.len()
            })
            && post.ready_queue@ == pre.ready_queue@
            && post.apps@ == pre.apps@
            && post.clock_us == pre.clock_us
    }
}

/// Opens the file named by the null-terminated user string at `path`,
/// creating it if asked to, and returns a new descriptor (the first free
/// slot, or a fresh one). Returns -1 on stray flag bits, an unreadable
/// name, or a missing file without the create flag.
pub fn sys_open(k: &mut Kernel, path: usize, flags: u32) -> (r: isize)
    requires
        old(k).wf(),
        old(k).running(),
    ensures
        final(k).wf(),
        final(k).running(),
        final(k).current == old(k).current,
        open_post(*old(k), *final(k), r, path, flags),
{
    let ghost pre = *old(k);
    let c = k.current_pid();
    proof {
        assert(k.live(c as int));
        assert(k.task_wf(c as int));
    }
    if flags & OPEN_FLAG_BITS != flags {
        return -1;
    }
    let name = match &k.tasks[c] {
        Some(t) => t.addr_space.translated_str(path),
        None => vstd::pervasive::unreached(),
    };
    let name = match name {
        Some(s) => s,
        None => {
            proof {
                assert(!str_ok(pre.task(c as int).addr_space, path as int));
            }
            return -1;
        },
    };
    proof {
        let space = pre.task(c as int).addr_space;
        assert(str_ok(space, path as int));
        lemma_terminated_unique(
            space, path as int, str_len_at(space, path as int), name@.len() as int);
        assert(str_at(space, path as int) =~= name@);
    }
    let str_perm = match &k.tasks[c] {
        Some(t) => check_range_flags(&t.addr_space, path, name.len() + 1, PERM_R | PERM_U),
        None => vstd::pervasive::unreached(),
    };
    if !str_perm {
        return -1;
    }
    proof {
        assert(str_readable(pre.task(c as int).addr_space, path as int));
    }
    let ino: usize = match find_dir(&k.dir, &name) {
        Some(d) => {
            let ino = k.dir[d].inode;
            if flags & 1024 != 0 {
                // truncate
                k.inodes[ino] = Vec::new();
            }
            proof {
                assert(dir_named(pre.dir@, name@));
            }
            ino
        },
        None => {
            if flags & 512 == 0 {
                return -1;
            }
            let ino = k.inodes.len();
            k.inodes.push(Vec::new());
            k.dir.push(DirEntry { name, inode: ino });
            ino
        },
    };
    let of = k.open_files.len();
    k.open_files.push(OpenFileEntry {
        inode: ino,
        offset: 0,
        readable: flags & 1 == 0,
        writable: flags & 1 != 0 || flags & 2 != 0,
    });
    // The first free descriptor slot is reused; a fresh one otherwise.
    let mut t = k.take_task(c);
    let mut scan: usize = 0;
    let mut free_fd: Option<usize> = None;
    while scan < t.fd_table.len()
        invariant
            scan <= t.fd_table@.len(),
            match free_fd {
                Some(f) => f < t.fd_table@.len() && t.fd_table@[f as int] is None
                    && (forall|j: int| 0 <= j < f ==> (#[trigger] t.fd_table@[j]) is Some),
                None => forall|j: int| 0 <= j < scan ==> (#[trigger] t.fd_table@[j]) is Some,
            },
        decreases t.fd_table@.len() - scan,
    {
        if free_fd.is_none() && t.fd_table[scan].is_none() {
            free_fd = Some(scan);
        }
        scan = scan + 1;
    }
    let fd: usize = match free_fd {
        Some(f) => {
            proof {
                assert(first_free_fd(t.fd_table@) == f as int) by {
                    let w = first_free_fd(t.fd_table@);
                    assert(t.fd_table@[f as int] is None);
                    assert(0 <= w < t.fd_table@.len() && t.fd_table@[w] is None
                        && forall|jj: int| 0 <= jj < w ==> t.fd_table@[jj] is Some);
                    if w < f as int {
                        assert(t.fd_table@[w] is Some);
                    }
                    if w > f as int {
                        assert(t.fd_table@[f as int] is Some);
                    }
                }
            }
            t.fd_table[f] = Some(of);
            f
        },
        None => {
            proof {
                assert(first_free_fd(t.fd_table@) == t.fd_table@.len()) by {
                    if exists|j: int| 0 <= j < t.fd_table@.len() && t.fd_table@[j] is None {
                        let w = choose|j: int|
                            0 <= j < t.fd_table@.len() && t.fd_table@[j] is None;
                        assert(t.fd_table@[w] is Some);
                    }
                }
            }
            let f = t.fd_table.len();
            t.fd_table.push(Some(of));
            f
        },
    };
    k.put_task(c, t);
    proof {
        assert(k.tasks@ =~= pre.tasks@.update(c as int, k.tasks@[c as int]));
        lemma_wf_replace_task(pre, *k, c as int);
    }
    #[verifier::truncate]
    (fd as isize)
}

/// The full behaviour of `sys_fstat`, relating the state before the call
/// to the state after it and the returned value.
pub open spec fn fstat_post(pre: Kernel, post: Kernel, r: isize, fd: usize, st: usize) -> bool {
    let space = pre.task(pre.cur()).addr_space;
    let writable = space.flag_ok(st as int, PERM_W | PERM_U)
        && space.flag_ok(st as int + 79, PERM_W | PERM_U);
    if fd_ok(pre, fd) && writable {
        let e = pre.open_files@[fd_slot(pre, fd)];
        r == 0
            && same_but_task(pre, post, pre.cur())
            && same_mapping(space, post.task(pre.cur()).addr_space)
            && (forall|x: int| st <= x < st + 80
                    ==> #[trigger] post.task(pre.cur()).addr_space.byte_at(x)
                        == stat_bytes(e.inode,
                            count_links(pre.dir@, e.inode) as u32)[x - st])
            && post.task(pre.cur()) == (TaskControlBlock {
                addr_space: post.task(pre.cur()).addr_space,
                ..pre.task(pre.cur())
            })
    } else {
        r == -1 && same_kernel(pre, post)
    }
}

/// Writes a `Stat` describing the file behind `fd` (device 0, its inode
/// number, the regular-file mode, and its current link count) to user
/// address `st`, validating both the first and the last byte of the
/// structure first. Returns -1 on a bad descriptor or unwritable pointer.
pub fn sys_fstat(k: &mut Kernel, fd: usize, st: usize) -> (r: isize)
    requires
        old(k).wf(),
        old(k).running(),
    ensures
        final(k).wf(),
        final(k).running(),
        final(k).current == old(k).current,
        fstat_post(*old(k), *final(k), r, fd, st),
{
    let ghost pre = *old(k);
    let c = k.current_pid();
    proof {
        assert(k.live(c as int));
        assert(k.task_wf(c as int));
    }
    let nfds = match &k.tasks[c] {
        Some(t) => t.fd_table.len(),
        None => vstd::pervasive::unreached(),
    };
    if fd >= nfds {
        return -1;
    }
    let slot = match &k.tasks[c] {
        Some(t) => t.fd_table[fd],
        None => vstd::pervasive::unreached(),
    };
    let of = match slot {
        Some(of) => of,
        None => {
            return -1;
        },
    };
    let ino = k.open_files[of].inode;
    let flags = PERM_W | PERM_U;
    let ok: bool;
    if st > usize::MAX - 79 {
        ok = false;
        proof {
            let space = pre.task(c as int).addr_space;
            let iva = st as int + 79;
            vstd::arithmetic::div_mod::lemma_div_is_ordered(
                MAX_VPN * PAGE_SIZE, iva, PAGE_SIZE as int);
            assert(MAX_VPN * PAGE_SIZE / PAGE_SIZE as int == MAX_VPN) by (nonlinear_arith);
            if space.is_mapped(iva / PAGE_SIZE as int) {
                space.lemma_mapped_bound(iva / PAGE_SIZE as int);
            }
            assert(!space.flag_ok(iva, flags));
        }
    } else {
        let o1 = match &k.tasks[c] {
            Some(t) => t.addr_space.addr_flag(st, flags),
            None => vstd::pervasive::unreached(),
        };
        let o2 = match &k.tasks[c] {
            Some(t) => t.addr_space.addr_flag(st + 79, flags),
            None => vstd::pervasive::unreached(),
        };
        ok = o1 && o2;
    }
    if !ok {
        return -1;
    }
    // Count the directory links to this inode.
    let mut nlink: usize = 0;
    let mut d: usize = 0;
    proof {
        assert(pre.dir@.take(0) =~= Seq::<DirEntry>::empty());
    }
    while d < k.dir.len()
        invariant
            *k == pre,
            d <= k.dir@.len(),
            nlink as int == count_links(k.dir@.take(d as int), ino),
            nlink <= d,
        decreases k.dir@.len() - d,
    {
        proof {
            lemma_count_links_step(pre.dir@, ino, d as int);
        }
        if k.dir[d].inode == ino {
            nlink = nlink + 1;
        }
        d = d + 1;
    }
    proof {
        assert(pre.dir@.take(pre.dir@.len() as int) =~= pre.dir@);
    }
    // Build the stat record and copy it out, segment by segment.
    let mut buf: Vec<u8> = Vec::new();
    push_word_le(&mut buf, 0);
    push_word_le(&mut buf, ino);
    let mut i: usize = 0;
    let ghost mid = buf@;
    while i < 4
        invariant
            i <= 4,
            buf@ == mid + u32_le_bytes(STAT_MODE_FILE).take(i as int),
        decreases 4 - i,
    {
        buf.push((STAT_MODE_FILE >> ((8 * i) as u32)) as u8);
        proof {
            assert(buf@ =~= mid + u32_le_bytes(STAT_MODE_FILE).take(i as int + 1));
        }
        i = i + 1;
    }
    let nl32: u32 = nlink as u32;
    let mut i: usize = 0;
    let ghost mid2 = buf@;
    while i < 4
        invariant
            i <= 4,
            buf@ == mid2 + u32_le_bytes(nl32).take(i as int),
        decreases 4 - i,
    {
        buf.push((nl32 >> ((8 * i) as u32)) as u8);
        proof {
            assert(buf@ =~= mid2 + u32_le_bytes(nl32).take(i as int + 1));
        }
        i = i + 1;
    }
    let mut i: usize = 0;
    let ghost mid3 = buf@;
    while i < 56
        invariant
            i <= 56,
            buf@.len() == mid3.len() + i,
            buf@ == mid3 + Seq::new(i as nat, |t: int| 0u8),
        decreases 56 - i,
    {
        buf.push(0u8);
        proof {
            assert(buf@ =~= mid3 + Seq::new(i as nat + 1, |t: int| 0u8));
        }
        i = i + 1;
    }
    proof {
        assert(buf@ =~= stat_bytes(ino, nl32));
        assert(count_links(pre.dir@, ino) as u32 == nl32) by {
            assert(nlink <= pre.dir@.len());
        }
    }
    let mut t = k.take_task(c);
    proof {
        t.addr_space.lemma_small_range_mapped(st as int, 80);
    }
    let wrote = t.addr_space.write_buffer(st, &buf);
    proof {
        assert(wrote);
    }
    k.put_task(c, t);
    proof {
        assert(k.tasks@ =~= pre.tasks@.update(c as int, k.tasks@[c as int]));
        lemma_wf_replace_task(pre, *k, c as int);
    }
    0
}

/// The conditional behaviour of `sys_linkat`.
pub open spec fn linkat_main(pre: Kernel, post: Kernel, r: isize, old_name: usize, new_name: usize) -> bool {
    let space = pre.task(pre.cur()).addr_space;
    if str_readable(space, old_name as int) && str_readable(space, new_name as int)
        && dir_named(pre.dir@, str_at(space, old_name as int))
        && !dir_named(pre.dir@, str_at(space, new_name as int)) {
        r == 0
            && post.tasks@ == pre.tasks@
            && post.ready_queue@ == pre.ready_queue@
            && post.open_files@ == pre.open_files@
            && post.inodes@ == pre.inodes@
            && post.apps@ == pre.apps@
            && post.clock_us == pre.clock_us
            && post.dir@.len() == pre.dir@.len() + 1
            && post.dir@.take(pre.dir@.len() as int) == pre.dir@
            && post.dir@.last().name@ == str_at(space, new_name as int)
            && (exists|d: int| 0 <= d < pre.dir@.len()
                    && (#[trigger] pre.dir@[d]).name@ == str_at(space, old_name as int)
                    && post.dir@.last().inode == pre.dir@[d].inode)
    } else {
        r == -1
    }
}

/// Links a new name to the file already named by `old_name`. Returns -1 if
/// either string is unreadable, the old name does not exist, or the new
/// name already exists (or equals the old one).
pub fn sys_linkat(k: &mut Kernel, old_name: usize, new_name: usize) -> (r: isize)
    requires
        old(k).wf(),
        old(k).running(),
    ensures
        final(k).wf(),
        final(k).running(),
        final(k).current == old(k).current,
        linkat_post(*old(k), *final(k), r, old_name, new_name),
{
    let ghost pre = *old(k);
    let c = k.current_pid();
    proof {
        assert(k.live(c as int));
        assert(k.task_wf(c as int));
    }
    let oldp = match &k.tasks[c] {
        Some(t) => t.addr_space.translated_str(old_name),
        None => vstd::pervasive::unreached(),
    };
    let oldp = match oldp {
        Some(s) => s,
        None => {
            proof {
                assert(!str_ok(pre.task(c as int).addr_space, old_name as int));
            }
            return -1;
        },
    };
    let newp = match &k.tasks[c] {
        Some(t) => t.addr_space.translated_str(new_name),
        None => vstd::pervasive::unreached(),
    };
    let newp = match newp {
        Some(s) => s,
        None => {
            proof {
                assert(!str_ok(pre.task(c as int).addr_space, new_name as int));
            }
            return -1;
        },
    };
    proof {
        let space = pre.task(c as int).addr_space;
        lemma_terminated_unique(
            space, old_name as int, str_len_at(space, old_name as int), oldp@.len() as int);
        assert(str_at(space, old_name as int) =~= oldp@);
        lemma_terminated_unique(
            space, new_name as int, str_len_at(space, new_name as int), newp@.len() as int);
        assert(str_at(space, new_name as int) =~= newp@);
    }
    let old_perm = match &k.tasks[c] {
        Some(t) => check_range_flags(&t.addr_space, old_name, oldp.len() + 1, PERM_R | PERM_U),
        None => vstd::pervasive::unreached(),
    };
    if !old_perm {
        return -1;
    }
    let new_perm = match &k.tasks[c] {
        Some(t) => check_range_flags(&t.addr_space, new_name, newp.len() + 1, PERM_R | PERM_U),
        None => vstd::pervasive::unreached(),
    };
    if !new_perm {
        return -1;
    }
    proof {
        assert(str_readable(pre.task(c as int).addr_space, old_name as int));
        assert(str_readable(pre.task(c as int).addr_space, new_name as int));
    }
    let d = match find_dir(&k.dir, &oldp) {
        Some(d) => d,
        None => {
            return -1;
        },
    };
    if find_dir(&k.dir, &newp).is_some() {
        return -1;
    }
    let ino = k.dir[d].inode;
    proof {
        assert(dir_named(pre.dir@, oldp@));
    }
    k.dir.push(DirEntry { name: newp, inode: ino });
    proof {
        assert(k.dir@.take(pre.dir@.len() as int) =~= pre.dir@);
        assert(k.tasks@ =~= pre.tasks@.update(c as int, k.tasks@[c as int]));
        lemma_wf_replace_task(pre, *k, c as int);
    }
    0
}

/// The conditional behaviour of `sys_unlinkat`.
pub open spec fn unlinkat_main(pre: Kernel, post: Kernel, r: isize, path: usize) -> bool {
    let space = pre.task(pre.cur()).addr_space;
    if str_readable(space, path as int) && dir_named(pre.dir@, str_at(space, path as int)) {
        r == 0
            && post.tasks@ == pre.tasks@
            && post.ready_queue@ == pre.ready_queue@
            && post.open_files@ == pre.open_files@
            && post.inodes@ == pre.inodes@
            && post.apps@ == pre.apps@
            && post.clock_us == pre.clock_us
            && (exists|d: int| 0 <= d < pre.dir@.len()
                    && (#[trigger] pre.dir@[d]).name@ == str_at(space, path as int)
                    && post.dir@ == pre.dir@.remove(d))
    } else {
        r == -1
    }
}

/// Removes the directory entry named by the user string at `path` (the
/// file's bytes survive as long as open handles reference its inode).
/// Returns -1 if the string is unreadable or no entry has that name.
pub fn sys_unlinkat(k: &mut Kernel, path: usize) -> (r: isize)
    requires
        old(k).wf(),
        old(k).running(),
    ensures
        final(k).wf(),
        final(k).running(),
        final(k).current == old(k).current,
        unlinkat_post(*old(k), *final(k), r, path),
{
    let ghost pre = *old(k);
    let c = k.current_pid();
    proof {
        assert(k.live(c as int));
        assert(k.task_wf(c as int));
    }
    let name = match &k.tasks[c] {
        Some(t) => t.addr_space.translated_str(path),
        None => vstd::pervasive::unreached(),
    };
    let name = match name {
        Some(s) => s,
        None => {
            proof {
                assert(!str_ok(pre.task(c as int).addr_space, path as int));
            }
            return -1;
        },
    };
    proof {
        let space = pre.task(c as int).addr_space;
        lemma_terminated_unique(
            space, path as int, str_len_at(space, path as int), name@.len() as int);
        assert(str_at(space, path as int) =~= name@);
    }
    let str_perm = match &k.tasks[c] {
        Some(t) => check_range_flags(&t.addr_space, path, name.len() + 1, PERM_R | PERM_U),
        None => vstd::pervasive::unreached(),
    };
    if !str_perm {
        return -1;
    }
    proof {
        assert(str_readable(pre.task(c as int).addr_space, path as int));
    }
    let d = match find_dir(&k.dir, &name) {
        Some(d) => d,
        None => {
            return -1;
        },
    };
    proof {
        assert(dir_named(pre.dir@, name@));
    }
    k.dir.remove(d);
    proof {
        assert(k.tasks@ =~= pre.tasks@.update(c as int, k.tasks@[c as int]));
        lemma_wf_replace_task(pre, *k, c as int);
    }
    0
}

/// The running task's pid.
pub fn sys_getpid(k: &Kernel) -> (r: isize)
    requires
        k.wf(),
        k.running(),
    ensures
        r == k.cur() as isize,
        0 <= r < crate::config::MAX_TASKS,
{
    proof {
        assert(k.live(k.cur()));
    }
    k.current_pid() as isize
}

/// Sets the running task's scheduling priority. Values below 2 are
/// rejected with -1 and change nothing; on success returns the priority
/// that was set.
pub fn sys_set_priority(k: &mut Kernel, prio: isize) -> (r: isize)
    requires
        old(k).wf(),
        old(k).running(),
    ensures
        final(k).wf(),
        final(k).running(),
        final(k).current == old(k).current,
        set_priority_post(*old(k), *final(k), r, prio),
{
    if prio <= 1 {
        return -1;
    }
    let c = k.current_pid();
    proof {
        assert(k.live(c as int));
        assert(k.task_wf(c as int));
    }
    let mut t = k.take_task(c);
    t.priority = prio as usize;
    k.put_task(c, t);
    proof {
        assert(k.tasks@ =~= old(k).tasks@.update(c as int, k.tasks@[c as int]));
        lemma_wf_replace_task(*old(k), *k, c as int);
    }
    prio
}

/// Maps the byte range `[start, start + len)` into the running task's
/// address space with the permission bits of `port` (bit 0 read, bit 1
/// write, bit 2 execute). Returns -1, changing nothing, on misalignment,
/// empty or stray permission bits, overlap with an existing mapping, or
/// frame exhaustion.
pub fn sys_mmap(k: &mut Kernel, start: usize, len: usize, port: usize) -> (r: isize)
    requires
        old(k).wf(),
        old(k).running(),
    ensures
        final(k).wf(),
        final(k).running(),
        final(k).current == old(k).current,
        mmap_post(*old(k), *final(k), r, start, len, port),
{
    let c = k.current_pid();
    proof {
        assert(k.live(c as int));
        assert(k.task_wf(c as int));
    }
    let mut t = k.take_task(c);
    let r = t.addr_space.insert_framed_area(start, len, port);
    k.put_task(c, t);
    proof {
        assert(k.tasks@ =~= old(k).tasks@.update(c as int, k.tasks@[c as int]));
        lemma_wf_replace_task(*old(k), *k, c as int);
        if r == -1 {
            assert(k.tasks@ =~= old(k).tasks@);
        }
    }
    r
}

/// Unmaps the byte range `[start, start + len)` from the running task's
/// address space. Returns -1, changing nothing, on misalignment or if any
/// page of the range is not mapped (no partial unmap).
pub fn sys_munmap(k: &mut Kernel, start: usize, len: usize) -> (r: isize)
    requires
        old(k).wf(),
        old(k).running(),
    ensures
        final(k).wf(),
        final(k).running(),
        final(k).current == old(k).current,
        munmap_post(*old(k), *final(k), r, start, len),
{
    let c = k.current_pid();
    proof {
        assert(k.live(c as int));
        assert(k.task_wf(c as int));
    }
    let mut t = k.take_task(c);
    let r = t.addr_space.delete_framed_area(start, len);
    k.put_task(c, t);
    proof {
        assert(k.tasks@ =~= old(k).tasks@.update(c as int, k.tasks@[c as int]));
        lemma_wf_replace_task(*old(k), *k, c as int);
        if r == -1 {
            assert(k.tasks@ =~= old(k).tasks@);
        }
    }
    r
}

/// The full behaviour of `sys_sbrk`, relating the state before the call
/// to the state after it and the returned value.
pub open spec fn sbrk_post(pre: Kernel, post: Kernel, r: isize, size: i32) -> bool {
    let t = pre.task(pre.cur());
    let nb = t.program_brk + size;
    if t.heap_bottom <= nb <= t.heap_bottom + MAX_HEAP_SIZE {
        r == t.program_brk as isize
            && same_but_task(pre, post, pre.cur())
            && post.task(pre.cur()) == (TaskControlBlock {
                program_brk: nb as usize,
                ..t
            })
    } else {
        r == -1 && same_kernel(pre, post)
    }
}

/// Changes the running task's program break by `size` bytes (negative
/// shrinks). Returns the previous break, or -1 if the break would fall
/// below the heap bottom or grow past the heap budget.
pub fn sys_sbrk(k: &mut Kernel, size: i32) -> (r: isize)
    requires
        old(k).wf(),
        old(k).running(),
    ensures
        final(k).wf(),
        final(k).running(),
        final(k).current == old(k).current,
        sbrk_post(*old(k), *final(k), r, size),
{
    let c = k.current_pid();
    proof {
        assert(k.live(c as int));
        assert(k.task_wf(c as int));
    }
    let mut t = k.take_task(c);
    let brk = t.program_brk;
    let bottom = t.heap_bottom;
    let ok: bool;
    if size >= 0 {
        let add = size as usize;
        if add <= MAX_HEAP_SIZE && brk - bottom <= MAX_HEAP_SIZE - add {
            t.program_brk = brk + add;
            ok = true;
        } else {
            ok = false;
        }
    } else {
        let sub = (-(size as i64)) as usize;
        if sub <= brk - bottom {
            t.program_brk = brk - sub;
            ok = true;
        } else {
            ok = false;
        }
    }
    k.put_task(c, t);
    proof {
        assert(k.tasks@ =~= old(k).tasks@.update(c as int, k.tasks@[c as int]));
        lemma_wf_replace_task(*old(k), *k, c as int);
        if !ok {
            assert(k.tasks@ =~= old(k).tasks@);
        }
    }
    if ok {
        brk as isize
    } else {
        -1
    }
}

/// What advancing the clock does: only the clock changes, and it grows.
pub open spec fn ticked(pre: Kernel, post: Kernel, delta: usize) -> bool {
    &&& post.wf()
    &&& post.clock_us == pre.clock_us + delta
    &&& post.tasks@ == pre.tasks@
    &&& post.current == pre.current
    &&& post.ready_queue@ == pre.ready_queue@
    &&& post.open_files@ == pre.open_files@
    &&& post.inodes@ == pre.inodes@
    &&& post.dir@ == pre.dir@
    &&& post.apps@ == pre.apps@
}

/// Advances the kernel clock by `delta` microseconds. The clock never
/// decreases: this is the only operation that changes it, and it only
/// adds.
pub fn tick(k: &mut Kernel, delta: usize)
    requires
        old(k).wf(),
        old(k).clock_us + delta <= usize::MAX,
    ensures
        ticked(*old(k), *final(k), delta),
{
    k.clock_us = k.clock_us + delta;
    proof {
        let pre = *old(k);
        let post = *k;
        assert forall|i: int| post.live(i) implies #[trigger] post.task_wf(i) by {
            assert(pre.task_wf(i));
            assert(post.task(i) == pre.task(i));
            assert forall|j: int| 0 <= j < post.task(i).children@.len()
                implies post.live(#[trigger] post.task(i).children@[j] as int)
                    && post.task(post.task(i).children@[j] as int).parent
                        == Some(i as usize) by {
                let c = post.task(i).children@[j] as int;
                assert(pre.live(c));
                assert(post.task(c) == pre.task(c));
            }
            if post.task(i).parent is Some {
                let p = post.task(i).parent.unwrap() as int;
                assert(pre.live(p));
                assert(post.task(p) == pre.task(p));
            }
        }
        assert forall|q: int| 0 <= q < post.ready_queue@.len()
            implies post.live(#[trigger] post.ready_queue@[q] as int)
                && post.task(post.ready_queue@[q] as int).task_status is Ready by {
            let p = post.ready_queue@[q] as int;
            assert(pre.live(p));
            assert(post.task(p) == pre.task(p));
        }
        assert forall|i: int| post.live(i)
            && (#[trigger] post.task(i)).task_status is Running
            implies post.current == Some(i as usize) by {
            assert(post.task(i) == pre.task(i));
        }
        if post.current is Some {
            assert(post.task(post.current.unwrap() as int)
                == pre.task(pre.current.unwrap() as int));
        }
    }
}

/// The full behaviour of `sys_get_time`, relating the state before the call
/// to the state after it and the returned value.
pub open spec fn get_time_post(pre: Kernel, post: Kernel, r: isize, ts: usize) -> bool {
    let space = pre.task(pre.cur()).addr_space;
    let writable = space.flag_ok(ts as int, PERM_W | PERM_U)
        && space.flag_ok(ts as int + 15, PERM_W | PERM_U);
    if writable {
        r == 0
            && same_but_task(pre, post, pre.cur())
            && same_mapping(space, post.task(pre.cur()).addr_space)
            && (forall|x: int| ts <= x < ts + 16
                    ==> #[trigger] post.task(pre.cur()).addr_space.byte_at(x)
                        == timeval_bytes(pre.clock_us as int)[x - ts])
            && post.task(pre.cur()) == (TaskControlBlock {
                addr_space: post.task(pre.cur()).addr_space,
                ..pre.task(pre.cur())
            })
    } else {
        r == -1 && same_kernel(pre, post)
    }
}

/// Writes the current time as a `TimeVal` (seconds, then microseconds,
/// little-endian words) to user address `ts`, after validating that both
/// the first and the last byte of the structure are writable from user
/// mode — the structure may straddle a page boundary. Returns -1, writing
/// nothing, if the pointer is not writable.
pub fn sys_get_time(k: &mut Kernel, ts: usize, tz: usize) -> (r: isize)
    requires
        old(k).wf(),
        old(k).running(),
    ensures
        final(k).wf(),
        final(k).running(),
        final(k).current == old(k).current,
        get_time_post(*old(k), *final(k), r, ts),
{
    let _ = tz;
    let c = k.current_pid();
    proof {
        assert(k.live(c as int));
        assert(k.task_wf(c as int));
    }
    let mut t = k.take_task(c);
    let flags = PERM_W | PERM_U;
    let ok = if ts > usize::MAX - 15 {
        false
    } else {
        t.addr_space.addr_flag(ts, flags) && t.addr_space.addr_flag(ts + 15, flags)
    };
    proof {
        if ts > usize::MAX - 15 {
            let space = t.addr_space;
            let iva = ts as int + 15;
            vstd::arithmetic::div_mod::lemma_div_is_ordered(
                MAX_VPN * PAGE_SIZE, iva, PAGE_SIZE as int);
            assert(MAX_VPN * PAGE_SIZE / PAGE_SIZE as int == MAX_VPN) by (nonlinear_arith);
            if space.is_mapped(iva / PAGE_SIZE as int) {
                space.lemma_mapped_bound(iva / PAGE_SIZE as int);
            }
            assert(!space.flag_ok(iva, flags));
        }
    }
    if !ok {
        k.put_task(c, t);
        proof {
            assert(k.tasks@ =~= old(k).tasks@);
            assert(k.tasks@ =~= old(k).tasks@.update(c as int, k.tasks@[c as int]));
            lemma_wf_replace_task(*old(k), *k, c as int);
        }
        return -1;
    }
    let buf = timeval_vec(k.clock_us);
    proof {
        t.addr_space.lemma_small_range_mapped(ts as int, 16);
    }
    let wrote = t.addr_space.write_buffer(ts, &buf);
    proof {
        assert(wrote);
    }
    k.put_task(c, t);
    proof {
        assert(k.tasks@ =~= old(k).tasks@.update(c as int, k.tasks@[c as int]));
        lemma_wf_replace_task(*old(k), *k, c as int);
    }
    0
}

} // verus!
