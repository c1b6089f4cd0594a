use kernel_core::addrspace::{AddrSpace, PERM_R, PERM_U, PERM_W};
use kernel_core::config::PAGE_SIZE;
use kernel_core::kernel::{AppImage, AppSegment, Kernel};
use kernel_core::syscall::{
    sys_close, sys_exec, sys_exit, sys_fork, sys_fstat, sys_get_time, sys_getpid, sys_linkat,
    sys_mmap, sys_munmap, sys_open, sys_read, sys_sbrk, sys_set_priority, sys_spawn, sys_trace,
    sys_unlinkat, sys_waitpid, sys_write, sys_yield, syscall, tick, TimeVal, SYSCALL_TRACE,
};
use kernel_core::task::{TaskContext, TaskControlBlock, TaskInformation, TaskStatus, TrapContext};

fn boot_kernel() -> Kernel {
    let root = TaskControlBlock {
        pid: 0,
        task_status: TaskStatus::Running,
        task_cx: TaskContext::zero_init(),
        trap_cx: TrapContext::app_init(0, 0),
        addr_space: AddrSpace::new(),
        fd_table: Vec::new(),
        parent: None,
        children: Vec::new(),
        exit_code: 0,
        priority: 16,
        task_info: TaskInformation::new(),
        heap_bottom: 0x10000,
        program_brk: 0x10000,
    };
    Kernel {
        tasks: vec![Some(root)],
        current: Some(0),
        ready_queue: Vec::new(),
        open_files: Vec::new(),
        inodes: Vec::new(),
        dir: Vec::new(),
        apps: Vec::new(),
        clock_us: 0,
    }
}

const BASE: usize = 0x100000;

fn write_user_byte(k: &mut Kernel, addr: usize, b: u8) {
    assert_eq!(sys_trace(k, 1, addr, b as usize), 0);
}

fn read_user_byte(k: &mut Kernel, addr: usize) -> u8 {
    let r = sys_trace(k, 0, addr, 0);
    assert!(r >= 0);
    r as u8
}

fn write_user_str(k: &mut Kernel, addr: usize, s: &str) {
    let mut a = addr;
    for b in s.bytes() {
        write_user_byte(k, a, b);
        a += 1;
    }
    write_user_byte(k, a, 0);
}

#[test]
fn mmap_validation_and_flags() {
    let mut k = boot_kernel();
    // misaligned start
    assert_eq!(sys_mmap(&mut k, BASE + 1, 100, 3), -1);
    // empty permission bits
    assert_eq!(sys_mmap(&mut k, BASE, 100, 0), -1);
    // stray permission bits
    assert_eq!(sys_mmap(&mut k, BASE, 100, 8), -1);
    // a valid read-write mapping of two pages
    assert_eq!(sys_mmap(&mut k, BASE, 2 * PAGE_SIZE, 3), 0);
    let space = &k.tasks[0].as_ref().unwrap().addr_space;
    assert!(space.addr_flag(BASE, PERM_R | PERM_W | PERM_U));
    assert!(space.addr_flag(BASE + 2 * PAGE_SIZE - 1, PERM_R | PERM_W | PERM_U));
    assert!(!space.addr_flag(BASE + 2 * PAGE_SIZE, PERM_R));
    // overlap with the existing mapping fails and changes nothing
    assert_eq!(sys_mmap(&mut k, BASE + PAGE_SIZE, PAGE_SIZE, 1), -1);
    let space = &k.tasks[0].as_ref().unwrap().addr_space;
    assert!(space.addr_flag(BASE + PAGE_SIZE, PERM_R | PERM_W | PERM_U));
}

#[test]
fn munmap_partial_range_fails_whole() {
    let mut k = boot_kernel();
    assert_eq!(sys_mmap(&mut k, BASE, PAGE_SIZE, 3), 0);
    // [BASE, BASE + 2 pages) is only partially mapped: nothing is unmapped
    assert_eq!(sys_munmap(&mut k, BASE, 2 * PAGE_SIZE), -1);
    let space = &k.tasks[0].as_ref().unwrap().addr_space;
    assert!(space.addr_flag(BASE, PERM_R | PERM_U));
    // the exact range unmaps, and the flags are gone afterwards
    assert_eq!(sys_munmap(&mut k, BASE, PAGE_SIZE), 0);
    let space = &k.tasks[0].as_ref().unwrap().addr_space;
    assert!(!space.addr_flag(BASE, PERM_R));
    assert!(!space.addr_flag(BASE + PAGE_SIZE - 1, PERM_U));
}

#[test]
fn translated_buffer_reassembles_across_pages() {
    let mut k = boot_kernel();
    assert_eq!(sys_mmap(&mut k, BASE, 2 * PAGE_SIZE, 3), 0);
    // bytes straddling the page boundary
    let start = BASE + PAGE_SIZE - 3;
    let payload = [10u8, 20, 30, 40, 50, 60];
    for (i, b) in payload.iter().enumerate() {
        write_user_byte(&mut k, start + i, *b);
    }
    let space = &k.tasks[0].as_ref().unwrap().addr_space;
    let bufs = space.translated_byte_buffer(start, payload.len()).unwrap();
    assert_eq!(bufs.len(), 2);
    assert_eq!(bufs[0].len(), 3);
    assert_eq!(bufs[1].len(), 3);
    let mut joined: Vec<u8> = Vec::new();
    for b in &bufs {
        joined.extend_from_slice(b);
    }
    assert_eq!(joined, payload.to_vec());
    // an unmapped range yields nothing
    assert!(space.translated_byte_buffer(BASE + 2 * PAGE_SIZE - 1, 2).is_none());
}

#[test]
fn fork_exit_wait_returns_pid_and_code() {
    let mut k = boot_kernel();
    assert_eq!(sys_mmap(&mut k, BASE, PAGE_SIZE, 3), 0);
    let child = sys_fork(&mut k);
    assert_eq!(child, 1);
    // nothing to reap yet: the child is ready, so wait says still running
    assert_eq!(sys_waitpid(&mut k, -1, BASE), -2);
    // let the child run, and have it exit with code 7
    assert_eq!(sys_yield(&mut k), 0);
    assert_eq!(k.current, Some(1));
    sys_exit(&mut k, 7);
    assert_eq!(k.current, Some(0));
    // a zombie child with an unwritable exit-code pointer is a distinct
    // fault, not "no matching child"
    assert_eq!(sys_waitpid(&mut k, -1, BASE + 4 * PAGE_SIZE), -3);
    // the parent reaps the child's pid and exact exit code
    let reaped = sys_waitpid(&mut k, -1, BASE);
    assert_eq!(reaped, child);
    assert_eq!(read_user_byte(&mut k, BASE), 7);
    assert!(k.tasks[1].is_none());
    // a second wait has no matching child at all
    assert_eq!(sys_waitpid(&mut k, -1, BASE), -1);
}

#[test]
fn wait_for_specific_pid() {
    let mut k = boot_kernel();
    assert_eq!(sys_mmap(&mut k, BASE, PAGE_SIZE, 3), 0);
    assert_eq!(sys_fork(&mut k), 1);
    // no child with pid 5 exists at all
    assert_eq!(sys_waitpid(&mut k, 5, BASE), -1);
    // the child with pid 1 exists but still runs
    assert_eq!(sys_waitpid(&mut k, 1, BASE), -2);
}

#[test]
fn set_priority_bounds() {
    let mut k = boot_kernel();
    assert_eq!(sys_set_priority(&mut k, 1), -1);
    assert_eq!(sys_set_priority(&mut k, 0), -1);
    assert_eq!(sys_set_priority(&mut k, 2), 2);
    assert_eq!(k.tasks[0].as_ref().unwrap().priority, 2);
    assert_eq!(sys_set_priority(&mut k, 100), 100);
    assert_eq!(k.tasks[0].as_ref().unwrap().priority, 100);
}

#[test]
fn trace_counts_itself_and_increases() {
    let mut k = boot_kernel();
    let r1 = syscall(&mut k, SYSCALL_TRACE, 2, SYSCALL_TRACE, 0);
    let r2 = syscall(&mut k, SYSCALL_TRACE, 2, SYSCALL_TRACE, 0);
    assert_eq!(r1, 1);
    assert_eq!(r2, 2);
    assert!(r1 < r2);
    // out-of-range ids are rejected
    assert_eq!(syscall(&mut k, 500, 0, 0, 0), -1);
    assert_eq!(sys_trace(&mut k, 2, 500, 0), -1);
    assert_eq!(sys_trace(&mut k, 3, 0, 0), -1);
}

#[test]
fn get_time_is_monotone() {
    let mut k = boot_kernel();
    assert_eq!(sys_mmap(&mut k, BASE, PAGE_SIZE, 3), 0);
    k.clock_us = 2_500_000;
    assert_eq!(sys_get_time(&mut k, BASE, 0), 0);
    let mut first = [0u8; 16];
    for (i, b) in first.iter_mut().enumerate() {
        *b = read_user_byte(&mut k, BASE + i);
    }
    let sec1 = u64::from_le_bytes(first[0..8].try_into().unwrap());
    let usec1 = u64::from_le_bytes(first[8..16].try_into().unwrap());
    assert_eq!((sec1, usec1), (2, 500_000));
    tick(&mut k, 1_700_000);
    assert_eq!(sys_get_time(&mut k, BASE, 0), 0);
    let mut second = [0u8; 16];
    for (i, b) in second.iter_mut().enumerate() {
        *b = read_user_byte(&mut k, BASE + i);
    }
    let sec2 = u64::from_le_bytes(second[0..8].try_into().unwrap());
    let usec2 = u64::from_le_bytes(second[8..16].try_into().unwrap());
    assert_eq!((sec2, usec2), (4, 200_000));
    assert!((sec1, usec1) <= (sec2, usec2));
    // an unmapped pointer is rejected
    assert_eq!(sys_get_time(&mut k, BASE + PAGE_SIZE, 0), -1);
    let tv = TimeVal::from_us(4_200_000);
    assert_eq!(tv.sec, 4);
    assert_eq!(tv.usec, 200_000);
}

#[test]
fn open_write_read_close_round_trip() {
    let mut k = boot_kernel();
    assert_eq!(sys_mmap(&mut k, BASE, PAGE_SIZE, 3), 0);
    write_user_str(&mut k, BASE, "log");
    // not found without the create flag
    assert_eq!(sys_open(&mut k, BASE, 2), -1);
    // a flag value outside the conventional set is rejected
    assert_eq!(sys_open(&mut k, BASE, 4), -1);
    // create, write five bytes
    let fd = sys_open(&mut k, BASE, 512 | 2);
    assert_eq!(fd, 0);
    let data_at = BASE + 64;
    for (i, b) in b"hello".iter().enumerate() {
        write_user_byte(&mut k, data_at + i, *b);
    }
    assert_eq!(sys_write(&mut k, fd as usize, data_at, 5), 5);
    assert_eq!(k.inodes[0], b"hello".to_vec());
    // a second descriptor reads the same file from the start
    let fd2 = sys_open(&mut k, BASE, 0);
    assert_eq!(fd2, 1);
    let read_at = BASE + 128;
    assert_eq!(sys_read(&mut k, fd2 as usize, read_at, 16), 5);
    let mut got = Vec::new();
    for i in 0..5 {
        got.push(read_user_byte(&mut k, read_at + i));
    }
    assert_eq!(got, b"hello".to_vec());
    // the cursor advanced: end of file now
    assert_eq!(sys_read(&mut k, fd2 as usize, read_at, 16), 0);
    // writing through the read-only descriptor fails
    assert_eq!(sys_write(&mut k, fd2 as usize, data_at, 5), -1);
    // an unreadable source buffer is a distinct memory fault
    assert_eq!(sys_write(&mut k, fd as usize, BASE + 8 * PAGE_SIZE, 5), -2);
    // an unwritable destination buffer likewise (fresh cursor, so bytes
    // are actually owed)
    let fd_r = sys_open(&mut k, BASE, 0);
    assert_eq!(sys_read(&mut k, fd_r as usize, BASE + 8 * PAGE_SIZE, 5), -2);
    assert_eq!(sys_close(&mut k, fd_r as usize), 0);
    assert_eq!(sys_close(&mut k, fd as usize), 0);
    assert_eq!(sys_close(&mut k, fd as usize), -1);
    assert_eq!(sys_close(&mut k, 99), -1);
    // the freed slot is reused on the next open
    let fd3 = sys_open(&mut k, BASE, 0);
    assert_eq!(fd3, 0);
}

#[test]
fn link_unlink_and_fstat() {
    let mut k = boot_kernel();
    assert_eq!(sys_mmap(&mut k, BASE, PAGE_SIZE, 3), 0);
    write_user_str(&mut k, BASE, "a");
    write_user_str(&mut k, BASE + 16, "b");
    let fd = sys_open(&mut k, BASE, 512);
    assert_eq!(fd, 0);
    // link a second name, stat reports two links
    assert_eq!(sys_linkat(&mut k, BASE, BASE + 16), 0);
    assert_eq!(sys_linkat(&mut k, BASE, BASE + 16), -1);
    let st_at = BASE + 256;
    assert_eq!(sys_fstat(&mut k, fd as usize, st_at), 0);
    let mut stat = [0u8; 80];
    for (i, b) in stat.iter_mut().enumerate() {
        *b = read_user_byte(&mut k, st_at + i);
    }
    let ino = u64::from_le_bytes(stat[8..16].try_into().unwrap());
    let mode = u32::from_le_bytes(stat[16..20].try_into().unwrap());
    let nlink = u32::from_le_bytes(stat[20..24].try_into().unwrap());
    assert_eq!(ino, 0);
    assert_eq!(mode, 32768);
    assert_eq!(nlink, 2);
    // unlink one name: one link left; unlinking a missing name fails
    assert_eq!(sys_unlinkat(&mut k, BASE + 16), 0);
    assert_eq!(sys_unlinkat(&mut k, BASE + 16), -1);
    assert_eq!(sys_fstat(&mut k, fd as usize, st_at), 0);
    let mut b0 = read_user_byte(&mut k, st_at + 20);
    assert_eq!(b0, 1);
    b0 = read_user_byte(&mut k, st_at + 16);
    assert_eq!(b0, 0);
    assert_eq!(sys_fstat(&mut k, 7, st_at), -1);
}

#[test]
fn sbrk_moves_the_break() {
    let mut k = boot_kernel();
    assert_eq!(sys_sbrk(&mut k, 0), 0x10000);
    assert_eq!(sys_sbrk(&mut k, 4096), 0x10000);
    assert_eq!(k.tasks[0].as_ref().unwrap().program_brk, 0x11000);
    assert_eq!(sys_sbrk(&mut k, -4096), 0x11000);
    assert_eq!(k.tasks[0].as_ref().unwrap().program_brk, 0x10000);
    // shrinking below the heap bottom is impossible
    assert_eq!(sys_sbrk(&mut k, -1), -1);
    // growing past the heap budget is impossible
    assert_eq!(sys_sbrk(&mut k, 0x20001), -1);
}

#[test]
fn exec_and_spawn_load_images() {
    let mut k = boot_kernel();
    k.apps.push(AppImage {
        name: b"init".to_vec(),
        entry: 0x400000,
        user_sp: 0x500000,
        segments: vec![AppSegment { start: 0x400000, len: 2 * PAGE_SIZE, port: 5 }],
    });
    assert_eq!(sys_mmap(&mut k, BASE, PAGE_SIZE, 3), 0);
    write_user_str(&mut k, BASE, "init");
    write_user_str(&mut k, BASE + 16, "ghost");
    // spawn a child running the image
    let child = sys_spawn(&mut k, BASE);
    assert_eq!(child, 1);
    assert_eq!(sys_spawn(&mut k, BASE + 16), -1);
    {
        let ch = k.tasks[1].as_ref().unwrap();
        assert_eq!(ch.parent, Some(0));
        assert_eq!(ch.trap_cx.sepc, 0x400000);
        assert!(ch.addr_space.addr_flag(0x400000, PERM_R | PERM_U));
        assert!(!ch.addr_space.addr_flag(BASE, PERM_R));
    }
    // exec replaces the caller's image in place; its pid is unchanged
    assert_eq!(sys_exec(&mut k, BASE + 16), -1);
    assert_eq!(sys_exec(&mut k, BASE), 0);
    assert_eq!(sys_getpid(&k), 0);
    let me = k.tasks[0].as_ref().unwrap();
    assert_eq!(me.trap_cx.sepc, 0x400000);
    assert_eq!(me.trap_cx.x[2], 0x500000);
    // the old mapping at BASE is gone with the old address space
    assert!(!me.addr_space.addr_flag(BASE, PERM_R));
}

#[test]
fn yield_round_robin_order() {
    let mut k = boot_kernel();
    assert_eq!(sys_fork(&mut k), 1);
    assert_eq!(sys_fork(&mut k), 2);
    assert_eq!(k.ready_queue, vec![1, 2]);
    assert_eq!(sys_yield(&mut k), 0);
    assert_eq!(k.current, Some(1));
    assert_eq!(k.ready_queue, vec![2, 0]);
    assert_eq!(sys_yield(&mut k), 0);
    assert_eq!(k.current, Some(2));
    assert_eq!(k.ready_queue, vec![0, 1]);
}

#[test]
fn exit_reparents_children_to_root() {
    let mut k = boot_kernel();
    assert_eq!(sys_fork(&mut k), 1);
    assert_eq!(sys_yield(&mut k), 0);
    assert_eq!(k.current, Some(1));
    // the child gets a grandchild, then exits: the orphan goes to pid 0
    assert_eq!(sys_fork(&mut k), 2);
    sys_exit(&mut k, 3);
    let root = k.tasks[0].as_ref().unwrap();
    assert!(root.children.contains(&1));
    assert!(root.children.contains(&2));
    assert_eq!(k.tasks[2].as_ref().unwrap().parent, Some(0));
    assert_eq!(k.tasks[1].as_ref().unwrap().task_status, TaskStatus::Zombie);
    assert_eq!(k.tasks[1].as_ref().unwrap().exit_code, 3);
}

#[test]
fn trace_reads_and_writes_memory() {
    let mut k = boot_kernel();
    assert_eq!(sys_mmap(&mut k, BASE, PAGE_SIZE, 3), 0);
    assert_eq!(sys_trace(&mut k, 1, BASE + 5, 0x1234ab), 0);
    assert_eq!(sys_trace(&mut k, 0, BASE + 5, 0), 0xab);
    // unmapped addresses are rejected for both requests
    assert_eq!(sys_trace(&mut k, 0, BASE + PAGE_SIZE, 0), -1);
    assert_eq!(sys_trace(&mut k, 1, BASE + PAGE_SIZE, 0), -1);
}

#[test]
fn task_context_and_information() {
    let cx = TaskContext::zero_init();
    assert_eq!(cx.ra, 0);
    assert_eq!(cx.sp, 0);
    assert_eq!(cx.s, vec![0; 12]);
    let cx = TaskContext::goto_restore(0x9000);
    assert_eq!(cx.sp, 0x9000);
    assert_ne!(cx.ra, 0);
    let mut info = TaskInformation::new();
    assert_eq!(info.task_syscall_count.len(), 500);
    // time attribution: 30 units of user time, then 12 of kernel time
    info.timer(0, 30);
    assert_eq!(info.task_time, vec![30, 0]);
    assert_eq!(info.task_time_flag[0], 30);
    info.timer(1, 42);
    assert_eq!(info.task_time, vec![30, 12]);
    assert_eq!(info.task_time_flag[0], 42);
    // an out-of-range bucket only refreshes the timestamp
    info.timer(2, 50);
    assert_eq!(info.task_time, vec![30, 12]);
    assert_eq!(info.task_time_flag[0], 50);
}
