use rcore_os::syscall::fs::{sys_close, sys_open, sys_write};
use rcore_os::loader::elf_valid;
use rcore_os::syscall::process::{
    path_loadable_check,
    sys_exec, sys_exit, sys_fork, sys_get_time, sys_getpid, sys_set_priority, sys_spawn,
    sys_waitpid, sys_yield, TimeVal,
};
use rcore_os::task::{
    current_trap_cx, run_first_task, suspend_current_and_run_next, syscall_count_get,
    syscall_count_inc, TaskManager, TaskStatus,
};

/// An ELF64 image with entry point `entry` and the loadable segments
/// `(flags, vaddr, file bytes, memory size)`.
fn elf(entry: u64, segs: &[(u32, u64, Vec<u8>, u64)]) -> Vec<u8> {
    let mut img = vec![0u8; 64 + 56 * segs.len()];
    img[0..4].copy_from_slice(&[0x7f, b'E', b'L', b'F']);
    img[24..32].copy_from_slice(&entry.to_le_bytes());
    img[32..40].copy_from_slice(&64u64.to_le_bytes());
    img[56..58].copy_from_slice(&(segs.len() as u16).to_le_bytes());
    for (i, (flags, vaddr, bytes, memsz)) in segs.iter().enumerate() {
        let off = img.len() as u64;
        let b = 64 + 56 * i;
        img[b..b + 4].copy_from_slice(&1u32.to_le_bytes());
        img[b + 4..b + 8].copy_from_slice(&flags.to_le_bytes());
        img[b + 8..b + 16].copy_from_slice(&off.to_le_bytes());
        img[b + 16..b + 24].copy_from_slice(&vaddr.to_le_bytes());
        img[b + 32..b + 40].copy_from_slice(&(bytes.len() as u64).to_le_bytes());
        img[b + 40..b + 48].copy_from_slice(&memsz.to_le_bytes());
        img.extend_from_slice(bytes);
    }
    img
}

fn boot() -> TaskManager {
    let apps = vec![elf(0x1000, &[]), elf(0x2000, &[])];
    let mut k = TaskManager::new(&apps);
    run_first_task(&mut k);
    k
}

fn put_str(k: &mut TaskManager, ptr: usize, s: &str) {
    let mut v: Vec<u8> = s.as_bytes().to_vec();
    v.push(0);
    k.write_user_buf(ptr, &v);
}

fn status(k: &TaskManager, pid: usize) -> TaskStatus {
    k.tasks[pid].as_ref().unwrap().status
}

#[test]
fn boot_loads_one_task_per_program() {
    let k = boot();
    assert_eq!(k.tasks.len(), 2);
    assert_eq!(k.current, 0);
    assert_eq!(status(&k, 0), TaskStatus::Running);
    assert_eq!(status(&k, 1), TaskStatus::Ready);
    assert_eq!(k.tasks[1].as_ref().unwrap().image, elf(0x2000, &[]));
    assert_eq!(k.tasks[1].as_ref().unwrap().trap_cx.sepc, 0x2000);
    assert_eq!(k.tasks[1].as_ref().unwrap().trap_cx.sp, 0x3000);
    assert_eq!(k.tasks[0].as_ref().unwrap().fd_table, vec![Some(0), Some(1), Some(1)]);
    assert_eq!(sys_getpid(&k), 0);
}

#[test]
fn yield_runs_the_next_ready_task_round_robin() {
    let mut k = boot();
    assert_eq!(sys_yield(&mut k), 0);
    assert_eq!(k.current, 1);
    assert_eq!(status(&k, 0), TaskStatus::Ready);
    assert_eq!(status(&k, 1), TaskStatus::Running);
    assert_eq!(sys_yield(&mut k), 0);
    assert_eq!(k.current, 0);
}

#[test]
fn yield_alone_keeps_running() {
    let apps = vec![elf(0x1000, &[])];
    let mut k = TaskManager::new(&apps);
    run_first_task(&mut k);
    suspend_current_and_run_next(&mut k);
    assert_eq!(k.current, 0);
    assert_eq!(status(&k, 0), TaskStatus::Running);
}

#[test]
fn find_next_task_skips_tasks_that_are_not_ready() {
    let apps = vec![elf(0x1000, &[]), elf(0x2000, &[]), elf(0x3000, &[])];
    let mut k = TaskManager::new(&apps);
    run_first_task(&mut k);
    assert_eq!(k.find_next_task(), Some(1));
    k.tasks[1].as_mut().unwrap().status = TaskStatus::Zombie;
    assert_eq!(k.find_next_task(), Some(2));
}

#[test]
fn fork_copies_the_parent() {
    let mut k = boot();
    assert_eq!(k.write_to_va(0x1800, 42), 0);
    let child = sys_fork(&mut k);
    assert_eq!(child, 2);
    let c = k.tasks[2].as_ref().unwrap();
    assert_eq!(c.parent, Some(0));
    assert_eq!(c.status, TaskStatus::Ready);
    assert_eq!(c.trap_cx.a0, 0);
    assert_eq!(c.prio, 32);
    assert_eq!(c.memory_set.areas.len(), k.tasks[0].as_ref().unwrap().memory_set.areas.len());
    assert_eq!(k.tasks[0].as_ref().unwrap().children, vec![2usize]);
    assert_eq!(k.current, 0);
    // the child's memory holds the parent's bytes
    k.current = 2;
    assert_eq!(k.read_from_va(0x1800), 42);
}

#[test]
fn waitpid_without_children_fails() {
    let mut k = boot();
    assert_eq!(sys_waitpid(&mut k, -1, 0x1000), -1);
    assert_eq!(sys_waitpid(&mut k, 5, 0x1000), -1);
}

#[test]
fn waitpid_on_a_running_child_says_not_yet() {
    let mut k = boot();
    let child = sys_fork(&mut k);
    assert_eq!(sys_waitpid(&mut k, child as isize, 0x1000), -2);
    assert_eq!(sys_waitpid(&mut k, -1, 0x1000), -2);
    assert_eq!(sys_waitpid(&mut k, 7, 0x1000), -1);
}

#[test]
fn exit_then_wait_gives_pid_and_exit_code() {
    let mut k = boot();
    let child = sys_fork(&mut k) as usize;
    // run round robin until the child runs
    sys_yield(&mut k);
    sys_yield(&mut k);
    assert_eq!(k.current, child);
    sys_exit(&mut k, -7);
    assert_eq!(k.current, 0);
    assert_eq!(status(&k, child), TaskStatus::Zombie);
    assert_eq!(k.tasks[child].as_ref().unwrap().exit_code, -7);
    assert_eq!(k.tasks[child].as_ref().unwrap().memory_set.areas.len(), 0);
    assert_eq!(sys_waitpid(&mut k, -1, 0x1100), child as isize);
    assert!(k.tasks[child].is_none());
    assert_eq!(k.tasks[0].as_ref().unwrap().children.len(), 0);
    let code = k.read_user_buf(0x1100, 4);
    assert_eq!(code, (-7i32).to_le_bytes().to_vec());
    // a reaped child is waited for no more
    assert_eq!(sys_waitpid(&mut k, child as isize, 0x1200), -1);
    assert_eq!(k.read_user_buf(0x1200, 4), vec![0u8; 4]);
    // the pid is given out again
    assert_eq!(sys_fork(&mut k), child as isize);
}

#[test]
fn exit_gives_children_to_the_initial_process() {
    let mut k = boot();
    sys_yield(&mut k);
    assert_eq!(k.current, 1);
    let grandchild = sys_fork(&mut k) as usize;
    assert_eq!(k.tasks[grandchild].as_ref().unwrap().parent, Some(1));
    sys_exit(&mut k, 3);
    assert_eq!(k.tasks[grandchild].as_ref().unwrap().parent, Some(0));
    assert_eq!(k.tasks[0].as_ref().unwrap().children, vec![grandchild]);
    assert_eq!(k.tasks[1].as_ref().unwrap().children.len(), 0);
    assert_eq!(k.current, grandchild);
}

#[test]
fn exec_runs_a_file_and_resets_the_task() {
    let mut k = boot();
    put_str(&mut k, 0x1000, "prog");
    let fd = sys_open(&mut k, 0x1000, 512 | 1);
    assert_eq!(fd, 3);
    let img = elf(0x4000, &[]);
    k.write_user_buf(0x1100, &img);
    assert_eq!(sys_write(&mut k, fd as usize, 0x1100, img.len()), img.len() as isize);
    assert_eq!(sys_close(&mut k, fd as usize), 0);
    assert_eq!(k.change_current_program_brk(0x1000), Some(0x3000));
    assert_eq!(sys_exec(&mut k, 0x1000), 0);
    let t = k.tasks[0].as_ref().unwrap();
    assert_eq!(t.image, img);
    assert_eq!(t.program_brk, 0x3000);
    assert_eq!(t.trap_cx.sp, 0x3000);
    assert_eq!(t.trap_cx.sepc, 0x4000);
    assert_eq!(t.memory_set.areas.len(), 4);
}

#[test]
fn exec_loads_the_segments_of_the_image() {
    let mut k = boot();
    put_str(&mut k, 0x1000, "seg");
    let fd = sys_open(&mut k, 0x1000, 512 | 1);
    // code at 0x10000 (read + execute), data at 0x12000 (read + write) with
    // a zero-filled tail
    let img = elf(
        0x10004,
        &[(5, 0x10000, vec![1u8, 2, 3, 4, 5, 6, 7, 8], 0x1800), (6, 0x12000, vec![9u8, 10], 0x10)],
    );
    k.write_user_buf(0x1100, &img);
    assert_eq!(sys_write(&mut k, fd as usize, 0x1100, img.len()), img.len() as isize);
    assert_eq!(sys_exec(&mut k, 0x1000), 0);
    let t = k.tasks[0].as_ref().unwrap();
    assert_eq!(t.trap_cx.sepc, 0x10004);
    // guard page 0x13000, stack 0x14000 .. 0x16000, heap from 0x16000
    assert_eq!(t.trap_cx.sp, 0x16000);
    assert_eq!(t.program_brk, 0x16000);
    assert_eq!(t.heap_bottom, 0x16000);
    assert_eq!(t.memory_set.areas.len(), 6);
    assert_eq!(k.read_from_va(0x10000), 1);
    assert_eq!(k.read_from_va(0x10007), 8);
    assert_eq!(k.read_from_va(0x10008), 0);
    assert_eq!(k.read_from_va(0x11fff), 0);
    assert_eq!(k.read_from_va(0x12001), 10);
    assert_eq!(k.read_from_va(0x13000), -1);
    assert_eq!(k.read_from_va(0x14000), 0);
    // code is not writable, data is
    assert_eq!(k.write_to_va(0x10000, 7), -1);
    assert_eq!(k.write_to_va(0x12000, 7), 0);
    assert_eq!(k.read_from_va(0x12000), 7);
}

#[test]
fn images_that_cannot_be_loaded_are_recognised() {
    assert!(elf_valid(&elf(0, &[])));
    assert!(!elf_valid(&vec![1u8, 2, 3]));
    let mut bad = elf(0, &[]);
    bad[1] = b'X';
    assert!(!elf_valid(&bad));
    // segments out of order
    assert!(!elf_valid(&elf(0, &[(4, 0x20000, vec![], 0x10), (4, 0x10000, vec![], 0x10)])));
    // more file bytes than memory
    assert!(!elf_valid(&elf(0, &[(4, 0x10000, vec![1u8, 2], 1)])));
    let mut k = boot();
    put_str(&mut k, 0x1000, "text");
    let fd = sys_open(&mut k, 0x1000, 512 | 1);
    k.write_user_buf(0x1100, &vec![1u8, 2, 3]);
    sys_write(&mut k, fd as usize, 0x1100, 3);
    assert!(!path_loadable_check(&k, 0x1000));
    put_str(&mut k, 0x1000, "none");
    assert!(path_loadable_check(&k, 0x1000));
}

#[test]
fn exec_of_a_missing_file_fails() {
    let mut k = boot();
    put_str(&mut k, 0x1000, "nothing");
    assert_eq!(sys_exec(&mut k, 0x1000), -1);
    assert_eq!(k.tasks[0].as_ref().unwrap().image, elf(0x1000, &[]));
}

#[test]
fn spawn_starts_a_child_running_the_file() {
    let mut k = boot();
    k.tasks[0].as_mut().unwrap().trap_cx.a0 = 99;
    put_str(&mut k, 0x1000, "app");
    let fd = sys_open(&mut k, 0x1000, 512 | 2);
    let img = elf(0x5000, &[]);
    k.write_user_buf(0x1100, &img);
    assert_eq!(sys_write(&mut k, fd as usize, 0x1100, img.len()), img.len() as isize);
    let pid = sys_spawn(&mut k, 0x1000);
    assert_eq!(pid, 2);
    let c = k.tasks[2].as_ref().unwrap();
    assert_eq!(c.image, img);
    assert_eq!(c.trap_cx.sepc, 0x5000);
    assert_eq!(c.trap_cx.a0, 0);
    assert_eq!(c.parent, Some(0));
    assert_eq!(c.status, TaskStatus::Ready);
    assert_eq!(c.prio, 32);
    assert_eq!(c.fd_table, vec![Some(0), Some(1), Some(1)]);
    // the caller's own registers are left alone
    assert_eq!(current_trap_cx(&k).a0, 99);
    assert_eq!(k.tasks[0].as_ref().unwrap().children, vec![2usize]);
}

#[test]
fn spawn_of_a_missing_file_fails() {
    let mut k = boot();
    put_str(&mut k, 0x1000, "missing");
    assert_eq!(sys_spawn(&mut k, 0x1000), -1);
    assert_eq!(k.tasks.len(), 2);
}

#[test]
fn set_priority_accepts_two_or_more() {
    let mut k = boot();
    assert_eq!(sys_set_priority(&mut k, 1), -1);
    assert_eq!(sys_set_priority(&mut k, -5), -1);
    assert_eq!(k.tasks[0].as_ref().unwrap().prio, 16);
    assert_eq!(sys_set_priority(&mut k, 2), 2);
    assert_eq!(sys_set_priority(&mut k, 100), 100);
    assert_eq!(k.tasks[0].as_ref().unwrap().prio, 100);
}

#[test]
fn get_time_stores_seconds_and_microseconds() {
    let mut k = boot();
    assert_eq!(sys_get_time(&mut k, 3_250_000, 0x1200), 0);
    let bytes = k.read_user_buf(0x1200, 16);
    let tv = TimeVal {
        sec: u64::from_le_bytes(bytes[0..8].try_into().unwrap()) as usize,
        usec: u64::from_le_bytes(bytes[8..16].try_into().unwrap()) as usize,
    };
    assert_eq!(tv, TimeVal { sec: 3, usec: 250_000 });
}

#[test]
fn syscall_counts_are_per_task() {
    let mut k = boot();
    assert_eq!(syscall_count_get(&k, 64), 0);
    syscall_count_inc(&mut k, 64);
    syscall_count_inc(&mut k, 64);
    assert_eq!(syscall_count_get(&k, 64), 2);
    assert_eq!(k.get_syscall_count(63), 0);
    sys_yield(&mut k);
    assert_eq!(syscall_count_get(&k, 64), 0);
}

#[test]
fn marking_the_current_task_changes_only_its_status() {
    let mut k = boot();
    sys_yield(&mut k);
    assert_eq!(k.current, 1);
    k.mark_current_exited();
    assert_eq!(status(&k, 1), TaskStatus::Zombie);
    assert_eq!(status(&k, 0), TaskStatus::Ready);
    assert_eq!(k.current, 1);
    k.run_next_task();
    assert_eq!(k.current, 0);
    assert_eq!(status(&k, 0), TaskStatus::Running);
    k.mark_current_suspended();
    assert_eq!(status(&k, 0), TaskStatus::Ready);
}

#[test]
fn syscall_counts_cover_the_counted_numbers() {
    let mut k = boot();
    syscall_count_inc(&mut k, 410);
    assert_eq!(syscall_count_get(&k, 410), 1);
    assert_eq!(k.tasks[0].as_ref().unwrap().syscall_count.len(), 411);
    assert_eq!(k.tasks[1].as_ref().unwrap().syscall_count[410], 0);
}
