//! The kernel state: the process table (an arena of task control blocks
//! keyed by pid), the FIFO ready queue, the in-memory file layer, the app
//! image table of the loader, and the clock.

use vstd::prelude::*;
use crate::addrspace::{AddrSpace, pages_of_len};
use crate::config::{MAX_VPN, PAGE_SIZE, MAX_TASKS};
use crate::task::{TaskControlBlock, TaskStatus};

verus! {

/// The two kernel states are observably identical.
pub open spec fn same_kernel(a: Kernel, b: Kernel) -> bool {
    &&& b.tasks@ == a.tasks@
    &&& b.current == a.current
    &&& b.ready_queue@ == a.ready_queue@
    &&& b.open_files@ == a.open_files@
    &&& b.inodes@ == a.inodes@
    &&& b.dir@ == a.dir@
    &&& b.apps@ == a.apps@
    &&& b.clock_us == a.clock_us
}

/// The two kernel states differ at most in the task in slot `i`.
pub open spec fn same_but_task(a: Kernel, b: Kernel, i: int) -> bool {
    &&& b.tasks@ == a.tasks@.update(i, b.tasks@[i])
    &&& b.current == a.current
    &&& b.ready_queue@ == a.ready_queue@
    &&& b.open_files@ == a.open_files@
    &&& b.inodes@ == a.inodes@
    &&& b.dir@ == a.dir@
    &&& b.apps@ == a.apps@
    &&& b.clock_us == a.clock_us
}

/// One open file: which inode it reads or writes, the shared cursor, and
/// the access mode it was opened with.
pub struct OpenFileEntry {
    /// Index into the kernel's inode table.
    pub inode: usize,
    /// Read/write cursor, shared by every descriptor created from the
    /// same open call (fork shares handles, it does not copy them).
    pub offset: usize,
    /// Whether the handle may read.
    pub readable: bool,
    /// Whether the handle may write.
    pub writable: bool,
}

/// One directory entry: a name linked to an inode.
pub struct DirEntry {
    /// The file name.
    pub name: Vec<u8>,
    /// Index into the kernel's inode table.
    pub inode: usize,
}

/// One loadable segment of an app image.
pub struct AppSegment {
    /// Page-aligned start address.
    pub start: usize,
    /// Length in bytes.
    pub len: usize,
    /// Requested permission bits (a nonempty subset of {read, write,
    /// execute}).
    pub port: usize,
}

/// An app image as the external loader hands it over: a name, an entry
/// point, an initial user stack pointer, and loadable segments.
pub struct AppImage {
    /// The app's name.
    pub name: Vec<u8>,
    /// Entry point of the image.
    pub entry: usize,
    /// Initial user stack pointer.
    pub user_sp: usize,
    /// The loadable segments, pairwise disjoint.
    pub segments: Vec<AppSegment>,
}

/// A loadable segment is page-aligned, within the address bound, and asks
/// for a nonempty subset of {read, write, execute}.
pub open spec fn seg_wf(s: AppSegment) -> bool {
    &&& s.start as int % PAGE_SIZE as int == 0
    &&& s.port & 7 != 0
    &&& s.port <= 7
    &&& s.len > 0
    &&& s.start as int / PAGE_SIZE as int + pages_of_len(s.len as int) <= MAX_VPN
}

/// The page range of a segment contains `vpn`.
pub open spec fn seg_covers(s: AppSegment, vpn: int) -> bool {
    s.start as int / PAGE_SIZE as int <= vpn
        && vpn < s.start as int / PAGE_SIZE as int + pages_of_len(s.len as int)
}

/// Total number of pages of a sequence of segments.
pub open spec fn seg_pages(segs: Seq<AppSegment>) -> int
    decreases segs.len(),
{
    if segs.len() == 0 {
        0
    } else {
        seg_pages(segs.drop_last()) + pages_of_len(segs.last().len as int)
    }
}

/// An app image is well formed: every segment is well formed, the
/// segments' page ranges are pairwise disjoint, and the whole image fits
/// in the frame budget of one address space.
pub open spec fn app_wf(a: AppImage) -> bool {
    &&& forall|i: int| 0 <= i < a.segments@.len() ==> seg_wf(#[trigger] a.segments@[i])
    &&& forall|i: int, j: int, vpn: int|
            0 <= i < a.segments@.len() && 0 <= j < a.segments@.len() && i != j
            ==> !(#[trigger] seg_covers(a.segments@[i], vpn)
                && #[trigger] seg_covers(a.segments@[j], vpn))
    &&& seg_pages(a.segments@) <= MAX_VPN
}

/// The kernel state.
pub struct Kernel {
    /// The process table: slot number is the pid; a reaped task's slot is
    /// freed for reuse.
    pub tasks: Vec<Option<TaskControlBlock>>,
    /// The running task's pid, if any task is running.
    pub current: Option<usize>,
    /// The ready queue: pids of runnable tasks, FIFO.
    pub ready_queue: Vec<usize>,
    /// The open-file table that descriptor tables point into.
    pub open_files: Vec<OpenFileEntry>,
    /// File contents, one entry per inode.
    pub inodes: Vec<Vec<u8>>,
    /// Directory: names linked to inodes.
    pub dir: Vec<DirEntry>,
    /// The app images the external loader knows by name.
    pub apps: Vec<AppImage>,
    /// The clock, in microseconds; it never decreases.
    pub clock_us: usize,
}

impl Kernel {
    /// Number of slots in the process table.
    pub open spec fn nt(self) -> int {
        self.tasks@.len() as int
    }

    /// Slot `i` holds a task.
    pub open spec fn live(self, i: int) -> bool {
        0 <= i < self.nt() && self.tasks@[i] is Some
    }

    /// The task in slot `i` (meaningful when live).
    pub open spec fn task(self, i: int) -> TaskControlBlock {
        self.tasks@[i].unwrap()
    }

    /// Well-formedness of one task's own state: its address space, its
    /// accounting tables, its register files, its heap bounds, and its
    /// descriptor table's links into the open-file table.
    pub open spec fn tcb_local_wf(self, t: TaskControlBlock) -> bool {
        &&& t.addr_space.wf()
        &&& t.task_info.wf()
        &&& t.task_cx.wf()
        &&& t.trap_cx.wf()
        &&& t.heap_bottom <= t.program_brk
        &&& t.program_brk <= t.heap_bottom + crate::config::MAX_HEAP_SIZE
        &&& t.heap_bottom + crate::config::MAX_HEAP_SIZE <= usize::MAX
        &&& forall|f: int|
                0 <= f < t.fd_table@.len() && t.fd_table@[f] is Some
                ==> (#[trigger] t.fd_table@[f]).unwrap() < self.open_files@.len()
    }

    /// Local well-formedness of the task in slot `i`, including its links
    /// into the rest of the kernel state.
    pub open spec fn task_wf(self, i: int) -> bool {
        let t = self.task(i);
        &&& t.pid == i
        &&& self.tcb_local_wf(t)
        &&& forall|j: int| 0 <= j < t.children@.len()
                ==> self.live(#[trigger] t.children@[j] as int)
                    && self.task(t.children@[j] as int).parent == Some(i as usize)
        &&& forall|j1: int, j2: int|
                0 <= j1 < t.children@.len() && 0 <= j2 < t.children@.len() && j1 != j2
                ==> t.children@[j1] != t.children@[j2]
        &&& t.parent != Some(i as usize)
        &&& t.parent matches Some(p) ==> self.live(p as int)
                && (exists|j: int|
                        0 <= j < self.task(p as int).children@.len()
                        && self.task(p as int).children@[j] == i)
        &&& t.task_status is Zombie ==> t.children@.len() == 0
    }

    /// Well-formedness of the whole kernel state: exactly the running task
    /// is current, the ready queue holds distinct live ready tasks, every
    /// parent/child link is mirrored on the other side, and every file and
    /// app reference is in bounds.
    pub open spec fn wf(self) -> bool {
        &&& self.nt() <= MAX_TASKS
        &&& forall|i: int| self.live(i) ==> #[trigger] self.task_wf(i)
        &&& self.current matches Some(c) ==> self.live(c as int)
                && self.task(c as int).task_status is Running
        &&& forall|i: int| self.live(i) && (#[trigger] self.task(i)).task_status is Running
                ==> self.current == Some(i as usize)
        &&& forall|q: int| 0 <= q < self.ready_queue@.len()
                ==> self.live(#[trigger] self.ready_queue@[q] as int)
                    && self.task(self.ready_queue@[q] as int).task_status is Ready
        &&& forall|q1: int, q2: int|
                0 <= q1 < self.ready_queue@.len() && 0 <= q2 < self.ready_queue@.len()
                    && q1 != q2
                ==> self.ready_queue@[q1] != self.ready_queue@[q2]
        &&& forall|d: int| 0 <= d < self.dir@.len()
                ==> (#[trigger] self.dir@[d]).inode < self.inodes@.len()
        &&& forall|o: int| 0 <= o < self.open_files@.len()
                ==> (#[trigger] self.open_files@[o]).inode < self.inodes@.len()
        &&& forall|a: int| 0 <= a < self.apps@.len() ==> app_wf(#[trigger] self.apps@[a])
    }

    /// A task is running, and it is the current one.
    pub open spec fn running(self) -> bool {
        self.current is Some
    }

    /// The running task's pid (meaningful when one is running).
    pub open spec fn cur(self) -> int {
        self.current.unwrap() as int
    }

    /// The running task's pid.
    pub fn current_pid(&self) -> (r: usize)
        requires
            self.running(),
        ensures
            r as int == self.cur(),
    {
        match self.current {
            Some(c) => c,
            None => vstd::pervasive::unreached(),
        }
    }

    /// The status of the task in slot `i`.
    pub fn status_of(&self, i: usize) -> (r: TaskStatus)
        requires
            self.live(i as int),
        ensures
            r == self.task(i as int).task_status,
    {
        match &self.tasks[i] {
            Some(t) => t.task_status,
            None => vstd::pervasive::unreached(),
        }
    }

    /// The stored exit code of the task in slot `i`.
    pub fn exit_code_of(&self, i: usize) -> (r: i32)
        requires
            self.live(i as int),
        ensures
            r == self.task(i as int).exit_code,
    {
        match &self.tasks[i] {
            Some(t) => t.exit_code,
            None => vstd::pervasive::unreached(),
        }
    }

    /// How many children the task in slot `i` has.
    pub fn child_count(&self, i: usize) -> (r: usize)
        requires
            self.live(i as int),
        ensures
            r == self.task(i as int).children@.len(),
    {
        match &self.tasks[i] {
            Some(t) => t.children.len(),
            None => vstd::pervasive::unreached(),
        }
    }

    /// The `j`-th child pid of the task in slot `i`.
    pub fn child_at(&self, i: usize, j: usize) -> (r: usize)
        requires
            self.live(i as int),
            j < self.task(i as int).children@.len(),
        ensures
            r == self.task(i as int).children@[j as int],
    {
        match &self.tasks[i] {
            Some(t) => t.children[j],
            None => vstd::pervasive::unreached(),
        }
    }

    /// Moves the task out of slot `i`, leaving the slot empty.
    pub fn take_task(&mut self, i: usize) -> (t: TaskControlBlock)
        requires
            old(self).live(i as int),
        ensures
            t == old(self).task(i as int),
            final(self).tasks@ == old(self).tasks@.update(i as int, None::<TaskControlBlock>),
            final(self).current == old(self).current,
            final(self).ready_queue@ == old(self).ready_queue@,
            final(self).open_files@ == old(self).open_files@,
            final(self).inodes@ == old(self).inodes@,
            final(self).dir@ == old(self).dir@,
            final(self).apps@ == old(self).apps@,
            final(self).clock_us == old(self).clock_us,
    {
        let mut slot: Option<TaskControlBlock> = None;
        core::mem::swap(&mut slot, &mut self.tasks[i]);
        match slot {
            Some(t) => t,
            None => vstd::pervasive::unreached(),
        }
    }

    /// Puts a task into slot `i`.
    pub fn put_task(&mut self, i: usize, t: TaskControlBlock)
        requires
            i < old(self).tasks@.len(),
        ensures
            final(self).tasks@ == old(self).tasks@.update(i as int, Some(t)),
            final(self).current == old(self).current,
            final(self).ready_queue@ == old(self).ready_queue@,
            final(self).open_files@ == old(self).open_files@,
            final(self).inodes@ == old(self).inodes@,
            final(self).dir@ == old(self).dir@,
            final(self).apps@ == old(self).apps@,
            final(self).clock_us == old(self).clock_us,
    {
        self.tasks[i] = Some(t);
    }
}

/// Splitting off one more segment of the page total.
pub proof fn lemma_seg_pages_take_step(segs: Seq<AppSegment>, kk: int)
    requires
        0 <= kk < segs.len(),
    ensures
        seg_pages(segs.take(kk + 1)) == seg_pages(segs.take(kk))
            + pages_of_len(segs[kk].len as int),
{
    assert(segs.take(kk + 1).drop_last() =~= segs.take(kk));
    assert(segs.take(kk + 1).last() == segs[kk]);
}

/// A prefix of the segments never needs a negative number of pages.
pub proof fn lemma_seg_pages_nonneg(segs: Seq<AppSegment>, kk: int)
    requires
        0 <= kk <= segs.len(),
        forall|i: int| 0 <= i < segs.len() ==> seg_wf(#[trigger] segs[i]),
    ensures
        0 <= seg_pages(segs.take(kk)),
    decreases kk,
{
    if kk == 0 {
        assert(segs.take(0) =~= Seq::<AppSegment>::empty());
    } else {
        lemma_seg_pages_nonneg(segs, kk - 1);
        lemma_seg_pages_take_step(segs, kk - 1);
        assert(seg_wf(segs[kk - 1]));
        assert(pages_of_len(segs[kk - 1].len as int) >= 0) by {
            vstd::arithmetic::div_mod::lemma_div_pos_is_pos(
                segs[kk - 1].len as int + PAGE_SIZE - 1, PAGE_SIZE as int);
        }
    }
}

/// A prefix of the segments needs no more pages than the whole image.
pub proof fn lemma_seg_pages_take_bound(segs: Seq<AppSegment>, kk: int)
    requires
        0 <= kk <= segs.len(),
        forall|i: int| 0 <= i < segs.len() ==> seg_wf(#[trigger] segs[i]),
    ensures
        0 <= seg_pages(segs.take(kk)),
        seg_pages(segs.take(kk)) <= seg_pages(segs),
    decreases segs.len() - kk,
{
    lemma_seg_pages_nonneg(segs, kk);
    if kk < segs.len() {
        lemma_seg_pages_take_bound(segs, kk + 1);
        lemma_seg_pages_take_step(segs, kk);
        assert(pages_of_len(segs[kk].len as int) >= 0) by {
            vstd::arithmetic::div_mod::lemma_div_pos_is_pos(
                segs[kk].len as int + PAGE_SIZE - 1, PAGE_SIZE as int);
        }
    } else {
        assert(segs.take(kk) =~= segs);
    }
}

/// The address space built from an app image: exactly the image's segments
/// are mapped, each page carrying exactly the user bit plus its segment's
/// requested permissions, on zeroed frames.
pub open spec fn space_matches_image(a: AppImage, space: AddrSpace) -> bool {
    &&& space.wf()
    &&& (forall|vpn: int| space.is_mapped(vpn)
            <==> exists|s: int| 0 <= s < a.segments@.len()
                && #[trigger] seg_covers(a.segments@[s], vpn))
    &&& (forall|s: int, vpn: int|
            0 <= s < a.segments@.len() && #[trigger] seg_covers(a.segments@[s], vpn)
            ==> space.is_mapped(vpn)
                && space.perm_at(vpn) == ((a.segments@[s].port << 1) | crate::addrspace::PERM_U)
                && space.page_at(vpn).data@ == crate::addrspace::zero_page_bytes())
    &&& (forall|s: int, x: int|
            0 <= s < a.segments@.len()
                && a.segments@[s].start <= x < a.segments@[s].start + a.segments@[s].len
            ==> #[trigger] space.flag_ok(x, ((a.segments@[s].port << 1) | crate::addrspace::PERM_U)))
}

/// Builds a brand-new address space directly from an app image, mapping
/// each of its segments on fresh zeroed frames.
pub fn build_space(a: &AppImage) -> (r: AddrSpace)
    requires
        app_wf(*a),
    ensures
        space_matches_image(*a, r),
{
    let mut space = crate::addrspace::AddrSpace::new();
    let mut kk: usize = 0;
    proof {
        assert(a.segments@.take(0) =~= Seq::<AppSegment>::empty());
    }
    while kk < a.segments.len()
        invariant
            app_wf(*a),
            kk <= a.segments@.len(),
            space.wf(),
            space.next_frame == seg_pages(a.segments@.take(kk as int)),
            forall|vpn: int| space.is_mapped(vpn)
                <==> exists|s: int| 0 <= s < kk && #[trigger] seg_covers(a.segments@[s], vpn),
            forall|s: int, vpn: int|
                0 <= s < kk && #[trigger] seg_covers(a.segments@[s], vpn)
                ==> space.is_mapped(vpn)
                    && space.perm_at(vpn)
                        == ((a.segments@[s].port << 1) | crate::addrspace::PERM_U)
                    && space.page_at(vpn).data@ == crate::addrspace::zero_page_bytes(),
            forall|s: int, x: int|
                0 <= s < kk
                    && a.segments@[s].start <= x < a.segments@[s].start + a.segments@[s].len
                ==> #[trigger] space.flag_ok(
                    x, ((a.segments@[s].port << 1) | crate::addrspace::PERM_U)),
        decreases a.segments@.len() - kk,
    {
        let ghost mid = space;
        let seg = AppSegment {
            start: a.segments[kk].start,
            len: a.segments[kk].len,
            port: a.segments[kk].port,
        };
        proof {
            assert(seg == a.segments@[kk as int]);
            assert(seg_wf(seg));
            lemma_seg_pages_take_bound(a.segments@, kk as int + 1);
            lemma_seg_pages_take_step(a.segments@, kk as int);
            lemma_seg_pages_take_bound(a.segments@, kk as int);
            // No overlap with the segments already mapped, and enough frames.
            assert(!mid.mmap_invalid(seg.start as int, seg.len as int, seg.port)) by {
                if exists|vpn: int|
                    seg.start as int / PAGE_SIZE as int <= vpn
                        < seg.start as int / PAGE_SIZE as int + pages_of_len(seg.len as int)
                    && #[trigger] mid.is_mapped(vpn) {
                    let vpn = choose|vpn: int|
                        seg.start as int / PAGE_SIZE as int <= vpn
                            < seg.start as int / PAGE_SIZE as int
                                + pages_of_len(seg.len as int)
                        && #[trigger] mid.is_mapped(vpn);
                    let s = choose|s: int|
                        0 <= s < kk && #[trigger] seg_covers(a.segments@[s], vpn);
                    assert(seg_covers(a.segments@[s], vpn));
                    assert(seg_covers(a.segments@[kk as int], vpn));
                }
            }
        }
        let res = space.insert_framed_area(seg.start, seg.len, seg.port);
        proof {
            assert(res == 0);
            assert forall|vpn: int| space.is_mapped(vpn)
                <==> exists|s: int| 0 <= s < kk as int + 1
                    && #[trigger] seg_covers(a.segments@[s], vpn) by {
                let svpn = seg.start as int / PAGE_SIZE as int;
                let np = pages_of_len(seg.len as int);
                if svpn <= vpn < svpn + np {
                    assert(space.is_mapped(vpn));
                    assert(seg_covers(a.segments@[kk as int], vpn));
                } else {
                    assert(space.is_mapped(vpn) <==> mid.is_mapped(vpn));
                    if space.is_mapped(vpn) {
                        let s = choose|s: int|
                            0 <= s < kk && #[trigger] seg_covers(a.segments@[s], vpn);
                        assert(seg_covers(a.segments@[s], vpn));
                    }
                    if exists|s: int| 0 <= s < kk as int + 1
                        && #[trigger] seg_covers(a.segments@[s], vpn) {
                        let s = choose|s: int| 0 <= s < kk as int + 1
                            && #[trigger] seg_covers(a.segments@[s], vpn);
                        assert(s != kk as int);
                        assert(mid.is_mapped(vpn));
                    }
                }
            }
            assert forall|s: int, vpn: int|
                0 <= s < kk as int + 1 && #[trigger] seg_covers(a.segments@[s], vpn)
                implies space.is_mapped(vpn)
                    && space.perm_at(vpn)
                        == ((a.segments@[s].port << 1) | crate::addrspace::PERM_U)
                    && space.page_at(vpn).data@ == crate::addrspace::zero_page_bytes() by {
                if s == kk as int {
                    assert(space.is_mapped(vpn));
                } else {
                    assert(mid.is_mapped(vpn));
                    assert(!seg_covers(a.segments@[kk as int], vpn));
                    assert(space.is_mapped(vpn));
                    assert(space.perm_at(vpn) == mid.perm_at(vpn));
                    assert(space.page_at(vpn).data@ == mid.page_at(vpn).data@);
                }
            }
            assert forall|s: int, x: int|
                0 <= s < kk as int + 1
                    && a.segments@[s].start <= x < a.segments@[s].start + a.segments@[s].len
                implies #[trigger] space.flag_ok(
                    x, ((a.segments@[s].port << 1) | crate::addrspace::PERM_U)) by {
                if s == kk as int {
                    assert(space.flag_ok(x, ((seg.port << 1) | crate::addrspace::PERM_U)));
                } else {
                    let fl = ((a.segments@[s].port << 1) | crate::addrspace::PERM_U) as usize;
                    assert(mid.flag_ok(x, fl));
                    let vpn = x / PAGE_SIZE as int;
                    assert(mid.is_mapped(vpn));
                    crate::addrspace::lemma_addr_page_in_range(
                        a.segments@[s].start as int, a.segments@[s].len as int, x);
                    assert(seg_covers(a.segments@[s], vpn));
                    assert(!seg_covers(a.segments@[kk as int], vpn));
                    assert(space.is_mapped(vpn));
                    assert(space.perm_at(vpn) == mid.perm_at(vpn));
                }
            }
        }
        kk = kk + 1;
    }
    proof {
        assert(a.segments@.take(kk as int) =~= a.segments@);
    }
    space
}

/// When no task appears or disappears and no family link moves, every
/// task keeps its well-formed links: statuses, contexts and accounting may
/// change freely.
pub proof fn lemma_wf_links_preserved(pre: Kernel, post: Kernel)
    requires
        pre.wf(),
        post.nt() == pre.nt(),
        forall|i: int| pre.live(i) <==> #[trigger] post.live(i),
        forall|i: int| pre.live(i) ==> (#[trigger] post.task(i)).pid == pre.task(i).pid
            && post.task(i).children@ == pre.task(i).children@
            && post.task(i).parent == pre.task(i).parent
            && post.tcb_local_wf(post.task(i))
            && (post.task(i).task_status is Zombie ==> pre.task(i).task_status is Zombie),
    ensures
        forall|i: int| post.live(i) ==> #[trigger] post.task_wf(i),
{
    assert forall|i: int| post.live(i) implies #[trigger] post.task_wf(i) by {
        assert(pre.live(i));
        assert(pre.task_wf(i));
        let t = post.task(i);
        assert forall|jj: int| 0 <= jj < t.children@.len()
            implies post.live(#[trigger] t.children@[jj] as int)
                && post.task(t.children@[jj] as int).parent == Some(i as usize) by {
            let c = t.children@[jj] as int;
            assert(pre.live(c));
            assert(pre.task(c).parent == Some(i as usize));
        }
        if t.parent is Some {
            let p = t.parent.unwrap() as int;
            assert(pre.live(p));
            assert(post.task(p).children@ == pre.task(p).children@);
        }
        if t.task_status is Zombie {
            assert(pre.task(i).task_status is Zombie);
            assert(pre.task(i).children@.len() == 0);
        }
    }
}

/// Replacing one live task with a task of the same pid, status and family
/// links, itself locally well formed, preserves kernel well-formedness,
/// provided the file tables only grew and stayed in bounds.
pub proof fn lemma_wf_replace_task(pre: Kernel, post: Kernel, i: int)
    requires
        pre.wf(),
        pre.live(i),
        post.tasks@ == pre.tasks@.update(i, Some(post.task(i))),
        post.current == pre.current,
        post.ready_queue@ == pre.ready_queue@,
        post.apps@ == pre.apps@,
        post.open_files@.len() >= pre.open_files@.len(),
        forall|o: int| 0 <= o < post.open_files@.len()
            ==> (#[trigger] post.open_files@[o]).inode < post.inodes@.len(),
        forall|d: int| 0 <= d < post.dir@.len()
            ==> (#[trigger] post.dir@[d]).inode < post.inodes@.len(),
        post.task(i).pid == pre.task(i).pid,
        post.task(i).task_status == pre.task(i).task_status,
        post.task(i).children@ == pre.task(i).children@,
        post.task(i).parent == pre.task(i).parent,
        post.tcb_local_wf(post.task(i)),
    ensures
        post.wf(),
{
    assert(post.nt() == pre.nt());
    assert forall|j: int| post.live(j) implies #[trigger] post.task_wf(j) by {
        assert(pre.live(j));
        assert(pre.task_wf(j));
        if j != i {
            assert(post.task(j) == pre.task(j));
        }
        let t = post.task(j);
        assert forall|f: int| 0 <= f < t.fd_table@.len() && t.fd_table@[f] is Some
            implies (#[trigger] t.fd_table@[f]).unwrap() < post.open_files@.len() by {
            if j != i {
                assert(t.fd_table@[f].unwrap() < pre.open_files@.len());
            }
        }
        assert(post.tcb_local_wf(t));
        assert forall|jj: int| 0 <= jj < t.children@.len()
            implies post.live(#[trigger] t.children@[jj] as int)
                && post.task(t.children@[jj] as int).parent == Some(j as usize) by {
            let c = t.children@[jj] as int;
            assert(pre.live(c));
            assert(pre.task(c).parent == Some(j as usize));
            if c != i {
                assert(post.task(c) == pre.task(c));
            }
        }
        if t.parent is Some {
            let p = t.parent.unwrap() as int;
            assert(pre.live(p));
            if p != i {
                assert(post.task(p) == pre.task(p));
            }
        }
    }
    assert forall|q: int| 0 <= q < post.ready_queue@.len()
        implies post.live(#[trigger] post.ready_queue@[q] as int)
            && post.task(post.ready_queue@[q] as int).task_status is Ready by {
        let p = post.ready_queue@[q] as int;
        assert(pre.live(p));
        if p != i {
            assert(post.task(p) == pre.task(p));
        }
    }
    if post.current is Some {
        let c = post.current.unwrap() as int;
        if c != i {
            assert(post.task(c) == pre.task(c));
        }
    }
    assert forall|j: int| post.live(j) && (#[trigger] post.task(j)).task_status is Running
        implies post.current == Some(j as usize) by {
        if j != i {
            assert(post.task(j) == pre.task(j));
        }
        assert(pre.task(j).task_status is Running);
    }
}

} // verus!
