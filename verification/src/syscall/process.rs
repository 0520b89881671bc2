//! Process system calls.
use vstd::prelude::*;

use crate::config::{INITPROC_PID, PAGE_SIZE};
use crate::fs::lookup;
use crate::mm::{floor_vpn, le_bytes, push_le, va_mask};
use crate::task::{
    KernelModel, TaskManager, TaskModel, TaskStatus, TrapContext, cur, kernel_wf, live, task_of,
    with_cur, with_cur_areas, with_task, yielded,
};
use crate::task::memory::{
    brk_moved, brk_moves, brk_ok, cstr_ok, map_insert_ok, mapped_result, pages_free_from,
    pages_mapped_from, remove_result, user_buf_ok, user_cstr, user_written,
};
use crate::loader::elf_ok;
use crate::task::process::{exec_task, exited, forked, other_ready, pid_alloc, reaped, spawned};

verus! {

/// A time: seconds and microseconds.
#[derive(Clone, Copy, Debug, PartialEq, Eq, Structural)]
pub struct TimeVal {
    pub sec: usize,
    pub usec: usize,
}

/// Ends the current task with `exit_code`; the next ready task runs. The
/// initial process does not exit this way (its exit shuts the machine
/// down), and when no other task is ready the machine has finished.
pub fn sys_exit(k: &mut TaskManager, exit_code: i32)
    requires
        kernel_wf(old(k)@),
        old(k)@.current != INITPROC_PID,
        other_ready(old(k)@),
    ensures
        kernel_wf(final(k)@),
        final(k)@ == exited(old(k)@, exit_code),
{
    k.exit_current_and_run_next(exit_code);
}

/// Gives up the processor: the next ready task (maybe the same) runs; 0.
pub fn sys_yield(k: &mut TaskManager) -> (r: isize)
    requires
        kernel_wf(old(k)@),
    ensures
        r == 0,
        kernel_wf(final(k)@),
        final(k)@ == yielded(old(k)@),
{
    crate::task::suspend_current_and_run_next(k);
    0
}

/// The pid of the current task.
pub fn sys_getpid(k: &TaskManager) -> (r: isize)
    requires
        kernel_wf(k@),
    ensures
        r == k@.current as isize,
{
    k.current as isize
}

/// The state after `fork`: the child's `a0` is 0, so that `fork` returns 0 in it.
pub open spec fn fork_state(k: KernelModel) -> KernelModel {
    let p = pid_alloc(k).0 as int;
    let f = forked(k);
    with_task(
        f,
        p,
        TaskModel { trap_cx: TrapContext { a0: 0, ..task_of(f.tasks, p).trap_cx }, ..task_of(f.tasks, p) },
    )
}

/// Whether `fork` can run: the task table has room, and the child's
/// priority, twice the parent's, fits.
pub open spec fn fork_ok(k: KernelModel) -> bool {
    &&& k.tasks.len() + 1 < usize::MAX
    &&& isize::MIN <= cur(k).prio * 2 <= isize::MAX
}

/// Makes a child that is a copy of the current task; gives the child's pid.
pub fn sys_fork(k: &mut TaskManager) -> (r: isize)
    requires
        kernel_wf(old(k)@),
        fork_ok(old(k)@),
    ensures
        kernel_wf(final(k)@),
        r == pid_alloc(old(k)@).0 as isize,
        final(k)@ == fork_state(old(k)@),
{
    let ghost old_k = k@;
    let new_pid = k.fork();
    proof {
        crate::task::process::lemma_pid_alloc(old_k);
        assert(live(k@.tasks, new_pid as int));
    }
    k.set_trap_a0(new_pid, 0);
    new_pid as isize
}

/// Whether the file named by the string at `path`, if there is one, is an
/// ELF image that can be loaded (loading any other file fails).
pub open spec fn path_loadable(k: KernelModel, path: usize) -> bool {
    match lookup(k.fs, user_cstr(cur(k).areas, path as int)) {
        Some(ino) => elf_ok(k.fs.inodes[ino as int]),
        None => true,
    }
}

/// `path_loadable`: whether the file named by the string at `path`, if any,
/// can be loaded.
pub fn path_loadable_check(k: &TaskManager, path: usize) -> (b: bool)
    requires
        kernel_wf(k@),
        cstr_ok(cur(k@).areas, path as int),
    ensures
        b == path_loadable(k@, path),
{
    let name = k.read_user_cstr(path);
    match k.fs.find(&name) {
        Some(ino) => crate::loader::elf_valid(&k.fs.inodes[ino].data),
        None => true,
    }
}

/// What `exec(path)` does: when a file is named by the string at `path`,
/// the current task runs it as a freshly loaded program (0); -1 otherwise.
pub open spec fn sys_exec_effect(k: KernelModel, path: usize) -> (isize, KernelModel) {
    match lookup(k.fs, user_cstr(cur(k).areas, path as int)) {
        Some(ino) => (0isize, with_cur(k, exec_task(cur(k), k.fs.inodes[ino as int]))),
        None => (-1isize, k),
    }
}

/// Replaces the current task's program by the file named by the string at
/// user address `path`; 0, or -1 when there is no such file.
pub fn sys_exec(k: &mut TaskManager, path: usize) -> (r: isize)
    requires
        kernel_wf(old(k)@),
        cstr_ok(cur(old(k)@).areas, path as int),
        path_loadable(old(k)@, path),
    ensures
        kernel_wf(final(k)@),
        (r, final(k)@) == sys_exec_effect(old(k)@, path),
{
    let name = k.read_user_cstr(path);
    match k.fs.find(&name) {
        Some(ino) => {
            let all_data = crate::mm::copy_bytes(&k.fs.inodes[ino].data);
            k.exec(&all_data);
            0
        },
        None => -1,
    }
}

/// Whether a child pid `c` answers a wait for `pid` (-1 waits for any child).
pub open spec fn wait_match(pid: isize, c: usize) -> bool {
    pid == -1 || pid as usize == c
}

/// Whether the current task has a child that a wait for `pid` concerns.
pub open spec fn has_waited_child(k: KernelModel, pid: isize) -> bool {
    exists|i: int| 0 <= i < cur(k).children.len() && wait_match(pid, #[trigger] cur(k).children[i])
}

/// Position, at or after `i` among the current task's children, of the
/// first exited child that a wait for `pid` concerns.
pub open spec fn zombie_child_from(k: KernelModel, pid: isize, i: int) -> Option<int>
    decreases cur(k).children.len() - i,
{
    if i < 0 || i >= cur(k).children.len() {
        None
    } else if wait_match(pid, cur(k).children[i]) && task_of(k.tasks, cur(k).children[i] as int).status
        == TaskStatus::Zombie {
        Some(i)
    } else {
        zombie_child_from(k, pid, i + 1)
    }
}

/// Bytes of an `i32` in user memory.
pub open spec fn i32_bytes(x: i32) -> Seq<u8> {
    le_bytes(x as u32 as nat, 4)
}

/// Whether `waitpid(pid, exit_code_ptr)` can run: when it reaps a child,
/// the exit-code slot is an aligned word of mapped user memory.
pub open spec fn sys_waitpid_ok(k: KernelModel, pid: isize, exit_code_ptr: usize) -> bool {
    has_waited_child(k, pid) && zombie_child_from(k, pid, 0) is Some ==> {
        &&& exit_code_ptr % 4 == 0
        &&& user_buf_ok(cur(k).areas, exit_code_ptr as int, 4)
    }
}

/// What `waitpid(pid, exit_code_ptr)` does: -1 when the current task has no
/// child that the wait concerns; -2 when none of those has exited yet;
/// otherwise the first exited one is reaped, its exit code stored at
/// `exit_code_ptr`, and its pid given.
pub open spec fn sys_waitpid_effect(k: KernelModel, pid: isize, exit_code_ptr: usize) -> (isize, KernelModel) {
    if !has_waited_child(k, pid) {
        (-1isize, k)
    } else {
        match zombie_child_from(k, pid, 0) {
            Some(i) => {
                let c = cur(k).children[i];
                let k1 = reaped(k, i);
                (
                    c as isize,
                    with_cur_areas(
                        k1,
                        user_written(
                            cur(k1).areas,
                            exit_code_ptr as int,
                            i32_bytes(task_of(k.tasks, c as int).exit_code),
                        ),
                    ),
                )
            },
            None => (-2isize, k),
        }
    }
}

pub proof fn lemma_zombie_child_from(k: KernelModel, pid: isize, i: int)
    requires
        0 <= i <= cur(k).children.len(),
    ensures
        zombie_child_from(k, pid, i) matches Some(j) ==> i <= j < cur(k).children.len() && wait_match(
            pid,
            cur(k).children[j],
        ) && task_of(k.tasks, cur(k).children[j] as int).status == TaskStatus::Zombie,
    decreases cur(k).children.len() - i,
{
    if i < cur(k).children.len() {
        lemma_zombie_child_from(k, pid, i + 1);
    }
}

/// Waits for a child: reaps an exited child that `pid` names (any child for
/// -1), storing its exit code at user address `exit_code_ptr` and giving
/// its pid; -1 when there is no such child, -2 when none has exited yet.
pub fn sys_waitpid(k: &mut TaskManager, pid: isize, exit_code_ptr: usize) -> (r: isize)
    requires
        kernel_wf(old(k)@),
        sys_waitpid_ok(old(k)@, pid, exit_code_ptr),
    ensures
        kernel_wf(final(k)@),
        (r, final(k)@) == sys_waitpid_effect(old(k)@, pid, exit_code_ptr),
{
    let ghost old_k = k@;
    let n = k.current_task().children.len();
    let mut found_any = false;
    let mut i: usize = 0;
    while i < n
        invariant
            i <= n,
            n == cur(old_k).children.len(),
            k@ == old_k,
            old_k == old(k)@,
            kernel_wf(old_k),
            found_any == exists|j: int| 0 <= j < i && wait_match(pid, #[trigger] cur(old_k).children[j]),
        decreases n - i,
    {
        let c = k.current_task().children[i];
        if pid == -1 || pid as usize == c {
            found_any = true;
        }
        i = i + 1;
    }
    if !found_any {
        return -1;
    }
    let mut idx: usize = 0;
    while idx < n
        invariant
            idx <= n,
            n == cur(old_k).children.len(),
            k@ == old_k,
            old_k == old(k)@,
            kernel_wf(old_k),
            sys_waitpid_ok(old_k, pid, exit_code_ptr),
            has_waited_child(old_k, pid),
            zombie_child_from(old_k, pid, idx as int) == zombie_child_from(old_k, pid, 0),
        decreases n - idx,
    {
        let c = k.current_task().children[idx];
        proof {
            assert(crate::task::task_of(old_k.tasks, old_k.current as int).children.contains(c));
            assert(live(old_k.tasks, c as int));
        }
        let zombie = match &k.tasks[c] {
            Some(t) => t.status == TaskStatus::Zombie,
            None => false,
        };
        if (pid == -1 || pid as usize == c) && zombie {
            proof {
                lemma_zombie_child_from(old_k, pid, 0);
                assert(wait_match(pid, c));
                assert(task_of(old_k.tasks, cur(old_k).children[idx as int] as int).status == TaskStatus::Zombie);
                assert(zombie_child_from(old_k, pid, idx as int) == Some(idx as int));
                assert(has_waited_child(old_k, pid));
                assert(user_buf_ok(cur(old_k).areas, exit_code_ptr as int, 4));
            }
            let (found_pid, exit_code) = k.reap_child(idx);
            let mut bytes: Vec<u8> = Vec::new();
            push_le(&mut bytes, exit_code as u32 as u64, 4);
            proof {
                let k1 = reaped(old_k, idx as int);
                assert(cur(k1).areas == cur(old_k).areas);
            }
            k.write_user_buf(exit_code_ptr, &bytes);
            return found_pid as isize;
        }
        idx = idx + 1;
    }
    -2
}

/// The bytes of a `TimeVal` in user memory.
pub open spec fn timeval_bytes(tv: TimeVal) -> Seq<u8> {
    le_bytes(tv.sec as nat, 8) + le_bytes(tv.usec as nat, 8)
}

/// Size of a `TimeVal` in user memory.
pub const TIMEVAL_SIZE: usize = 16;

/// The time `us` microseconds after boot.
pub open spec fn timeval_of(us: usize) -> TimeVal {
    TimeVal { sec: us / 1_000_000, usec: us % 1_000_000 }
}

/// Stores the time `us` microseconds after boot at user address `ts`; 0.
pub fn sys_get_time(k: &mut TaskManager, us: usize, ts: usize) -> (r: isize)
    requires
        kernel_wf(old(k)@),
        user_buf_ok(cur(old(k)@).areas, ts as int, TIMEVAL_SIZE as int),
    ensures
        r == 0,
        kernel_wf(final(k)@),
        final(k)@ == with_cur_areas(
            old(k)@,
            user_written(cur(old(k)@).areas, ts as int, timeval_bytes(timeval_of(us))),
        ),
{
    let time_val = TimeVal { sec: us / 1_000_000, usec: us % 1_000_000 };
    let mut bytes: Vec<u8> = Vec::new();
    push_le(&mut bytes, time_val.sec as u64, 8);
    push_le(&mut bytes, time_val.usec as u64, 8);
    assert(bytes@ =~= timeval_bytes(timeval_of(us)));
    k.write_user_buf(ts, &bytes);
    0
}

/// Whether `mmap(start, len, port)` is refused outright: `start` is not
/// page aligned, or `port` asks for no right or for unknown ones.
pub open spec fn mmap_rejects(start: usize, port: usize) -> bool {
    start % (PAGE_SIZE as usize) != 0 || port >= 8 || port == 0
}

pub proof fn lemma_mmap_checks(start: usize, port: usize)
    ensures
        (start & 4095 != 0 || port & !7usize != 0 || port & 7 == 0) == mmap_rejects(start, port),
{
    assert(start & 4095 == start % 4096) by (bit_vector);
    assert((port & !7usize == 0) == (port < 8)) by (bit_vector);
    assert(port < 8 ==> (port & 7 == port)) by (bit_vector);
}

/// Whether `mmap(start, len, port)` can run: the end address and the check
/// loop do not overflow, and when every page it looks at is free the new
/// area can be added.
pub open spec fn sys_mmap_ok(k: KernelModel, start: usize, len: usize, port: usize) -> bool {
    !mmap_rejects(start, port) ==> {
        &&& start + len + PAGE_SIZE <= usize::MAX
        &&& pages_free_from(cur(k).areas, start as int, len as int) ==> map_insert_ok(
            cur(k).areas,
            start as int,
            len as int,
        )
    }
}

/// What `mmap(start, len, port)` does: -1 when refused outright or when a
/// page in the range is mapped; otherwise the range gets fresh
/// zero-filled pages with the rights of `port` (0).
pub open spec fn sys_mmap_effect(k: KernelModel, start: usize, len: usize, port: usize) -> (isize, KernelModel) {
    if mmap_rejects(start, port) || !pages_free_from(cur(k).areas, start as int, len as int) {
        (-1isize, k)
    } else {
        (0isize, with_cur_areas(k, mapped_result(cur(k).areas, start as int, len as int, port)))
    }
}

/// Maps `start .. start + len` of the current task to fresh memory with the
/// rights of `port` (bit 0 read, bit 1 write, bit 2 execute); 0, or -1.
pub fn sys_mmap(k: &mut TaskManager, start: usize, len: usize, port: usize) -> (r: isize)
    requires
        kernel_wf(old(k)@),
        sys_mmap_ok(old(k)@, start, len, port),
    ensures
        kernel_wf(final(k)@),
        (r, final(k)@) == sys_mmap_effect(old(k)@, start, len, port),
{
    proof {
        lemma_mmap_checks(start, port);
    }
    if start & (4096 - 1) != 0 || port & !0x7 != 0 || port & 0x7 == 0 {
        return -1;
    }
    k.map_len_to_start(start, len, port)
}

/// Whether `munmap(start, len)` can run: the end address and the check
/// loop do not overflow.
pub open spec fn sys_munmap_ok(start: usize, len: usize) -> bool {
    start % (PAGE_SIZE as usize) == 0 ==> start + len + PAGE_SIZE <= usize::MAX
}

/// What `munmap(start, len)` does: -1 when `start` is not page aligned or a
/// page in the range is not mapped; otherwise the area that starts at
/// `start` is dropped (0).
pub open spec fn sys_munmap_effect(k: KernelModel, start: usize, len: usize) -> (isize, KernelModel) {
    if start % (PAGE_SIZE as usize) != 0 || !pages_mapped_from(cur(k).areas, start as int, len as int) {
        (-1isize, k)
    } else {
        (0isize, with_cur_areas(k, remove_result(cur(k).areas, floor_vpn(va_mask(start as int)))))
    }
}

/// Unmaps the area of the current task that starts at `start`, after
/// checking that `start .. start + len` is mapped; 0, or -1.
pub fn sys_munmap(k: &mut TaskManager, start: usize, len: usize) -> (r: isize)
    requires
        kernel_wf(old(k)@),
        sys_munmap_ok(start, len),
    ensures
        kernel_wf(final(k)@),
        (r, final(k)@) == sys_munmap_effect(old(k)@, start, len),
{
    assert(start & 4095 == start % 4096) by (bit_vector);
    if start & (4096 - 1) != 0 {
        return -1;
    }
    k.unmap_area(start, len)
}

/// What `sbrk(size)` does: moves the program break by `size` and gives the
/// old break, or -1 when it cannot move.
pub open spec fn sys_sbrk_effect(k: KernelModel, size: i32) -> (isize, KernelModel) {
    if brk_moves(cur(k), size) {
        (cur(k).program_brk as usize as isize, with_cur(k, brk_moved(cur(k), size)))
    } else {
        (-1isize, k)
    }
}

/// Moves the current task's program break by `size` bytes; gives the old
/// break, or -1.
pub fn sys_sbrk(k: &mut TaskManager, size: i32) -> (r: isize)
    requires
        kernel_wf(old(k)@),
        brk_ok(cur(old(k)@), size),
    ensures
        kernel_wf(final(k)@),
        (r, final(k)@) == sys_sbrk_effect(old(k)@, size),
{
    match k.change_current_program_brk(size) {
        Some(old_brk) => old_brk as isize,
        None => -1,
    }
}

/// What `spawn(path)` does: when a file is named by the string at `path`, a
/// new child runs it as a freshly loaded program and its pid is given; -1
/// otherwise.
pub open spec fn sys_spawn_effect(k: KernelModel, path: usize) -> (isize, KernelModel) {
    match lookup(k.fs, user_cstr(cur(k).areas, path as int)) {
        Some(ino) => (pid_alloc(k).0 as isize, spawned(k, k.fs.inodes[ino as int])),
        None => (-1isize, k),
    }
}

/// Starts the file named by the string at user address `path` as a new
/// child; gives its pid, or -1 when there is no such file.
pub fn sys_spawn(k: &mut TaskManager, path: usize) -> (r: isize)
    requires
        kernel_wf(old(k)@),
        cstr_ok(cur(old(k)@).areas, path as int),
        path_loadable(old(k)@, path),
        fork_ok(old(k)@),
    ensures
        kernel_wf(final(k)@),
        (r, final(k)@) == sys_spawn_effect(old(k)@, path),
{
    let name = k.read_user_cstr(path);
    match k.fs.find(&name) {
        Some(ino) => {
            let all_data = crate::mm::copy_bytes(&k.fs.inodes[ino].data);
            let new_pid = k.spawn(&all_data);
            new_pid as isize
        },
        None => -1,
    }
}

/// What `set_priority(prio)` does: a priority of at least 2 becomes the
/// current task's and is given back; a smaller one is refused (-1).
pub open spec fn sys_set_priority_effect(k: KernelModel, prio: isize) -> (isize, KernelModel) {
    if prio >= 2 {
        (prio, with_cur(k, TaskModel { prio, ..cur(k) }))
    } else {
        (-1isize, k)
    }
}

/// Sets the current task's priority; gives it back, or -1 when it is below 2.
pub fn sys_set_priority(k: &mut TaskManager, prio: isize) -> (r: isize)
    requires
        kernel_wf(old(k)@),
    ensures
        kernel_wf(final(k)@),
        (r, final(k)@) == sys_set_priority_effect(old(k)@, prio),
{
    if prio >= 2 {
        k.set_current_prio(prio);
        prio
    } else {
        -1
    }
}

} // verus!
