//! Properties of the kernel that span several operations.
use vstd::prelude::*;

use crate::config::{INITPROC_PID, MAX_SYSCALL_NUM, PAGE_SIZE, VA_RANGE};
use crate::fs::{link_count, lookup, read_bytes, written, EntryModel, FsModel};
use crate::mm::{
    areas_wf, bytes_at, ceil_vpn, first_starting_at, floor_vpn, is_mapped, lemma_with_bytes, perm_at,
    range_free,
    va_mask, with_byte, with_bytes, AreaModel,
};
use crate::syscall::fs::{
    sys_close_effect, sys_linkat_effect, sys_open_effect, sys_open_ok, sys_unlinkat_effect, two_names_ok,
};
use crate::syscall::process::{
    fork_ok, fork_state, has_waited_child, i32_bytes, mmap_rejects, sys_mmap_effect, sys_mmap_ok,
    sys_exec_effect, sys_munmap_effect, sys_sbrk_effect, sys_spawn_effect, sys_waitpid_effect,
    sys_waitpid_ok, timeval_of, wait_match, zombie_child_from,
};
use crate::loader::{elf_entry, elf_space, elf_stack_top};
use crate::task::TrapContext;
use crate::task::{
    KernelModel, TaskModel, TaskStatus, cur, kernel_wf, lemma_cur_local, lemma_next_ready_from,
    lemma_wf_switch, live, next_ready, next_ready_from, ready_at, set_status, slot_after, task_of,
    with_cur, yielded,
};
use crate::task::files::{free_fd, free_fd_from, lemma_free_fd_from};
use crate::task::memory::{
    brk_moved, brk_moves, brk_ok, map_hi, map_lo, mapped_result, new_brk, pages_free_from,
    pages_mapped_from, read_va_result, user_buf_ok, user_bytes, user_cstr, user_writable, user_written,
};
use crate::task::process::{
    exit_state, exited, lemma_pid_alloc, lemma_wf_exit, other_ready, pid_alloc, reaped,
};

verus! {

/// Bytes copied into user memory are the bytes read back from there.
pub proof fn law_user_memory_read_after_write(s: Seq<AreaModel>, ptr: usize, data: Seq<u8>)
    requires
        areas_wf(s),
        user_buf_ok(s, ptr as int, data.len() as int),
    ensures
        user_bytes(user_written(s, ptr as int, data), ptr as int, data.len()) == data,
{
    let base = va_mask(ptr as int);
    lemma_with_bytes(s, base, data);
    let t = with_bytes(s, base, data);
    assert forall|i: int| 0 <= i < data.len() implies #[trigger] bytes_at(t, base, data.len())[i] == data[i] by {
        assert(is_mapped(s, floor_vpn(base + i)));
    }
    assert(bytes_at(t, base, data.len()) =~= data);
}

/// Bytes written to a file at some offset are what a read at that offset
/// gives back.
pub proof fn law_file_read_after_write(data: Seq<u8>, offset: nat, buf: Seq<u8>)
    ensures
        read_bytes(written(data, offset as int, buf), offset as int, buf.len() as int) == buf,
{
    let w = written(data, offset as int, buf);
    if buf.len() > 0 {
        assert(read_bytes(w, offset as int, buf.len() as int) =~= buf);
    } else {
        assert(read_bytes(w, offset as int, 0) =~= buf);
    }
}

/// A write leaves the bytes of a file outside the written range as they were.
pub proof fn law_file_write_keeps_rest(data: Seq<u8>, offset: nat, buf: Seq<u8>, k: int)
    requires
        0 <= k < data.len(),
        k < offset || k >= offset + buf.len(),
    ensures
        written(data, offset as int, buf)[k] == data[k],
{
}

/// A new name for an inode counts as one more link to it, and the new name
/// finds it when no earlier entry has that name.
pub proof fn law_link_adds_a_name(f: FsModel, name: Seq<u8>, ino: usize)
    requires
        lookup(f, name) is None,
    ensures
        link_count(f.entries.push(EntryModel { name, inode: ino }), ino) == link_count(f.entries, ino)
            + 1,
        lookup(FsModel { entries: f.entries.push(EntryModel { name, inode: ino }), ..f }, name) == Some(
            ino,
        ),
{
    let es = f.entries;
    let es2 = es.push(EntryModel { name, inode: ino });
    assert(es2.drop_last() =~= es);
    let i = es.len() as int;
    assert forall|j: int| 0 <= j < i implies es2[j].name != name by {
        if es2[j].name == name {
            assert(es[j].name == name);
            crate::fs::lemma_first_entry_exists(es, name, j);
        }
    }
    crate::fs::lemma_first_entry(es2, name, i);
}

/// The time of day made of a microsecond count splits it into whole seconds
/// and the microseconds left over.
pub proof fn law_timeval_splits(us: usize)
    ensures
        timeval_of(us).sec * 1_000_000 + timeval_of(us).usec == us,
        timeval_of(us).usec < 1_000_000,
{
}


/// Removing a name of an inode counts as one link less to it.
pub proof fn law_unlink_drops_a_name(es: Seq<EntryModel>, i: int)
    requires
        0 <= i < es.len(),
    ensures
        link_count(es.remove(i), es[i].inode) + 1 == link_count(es, es[i].inode),
    decreases es.len(),
{
    let ino = es[i].inode;
    if i == es.len() - 1 {
        assert(es.remove(i) =~= es.drop_last());
    } else {
        let r = es.remove(i);
        assert(r.drop_last() =~= es.drop_last().remove(i));
        assert(r.last() == es.last());
        assert(es.drop_last()[i] == es[i]);
        law_unlink_drops_a_name(es.drop_last(), i);
    }
}

/// A closed descriptor is the one the next open takes, when every lower
/// one is in use.
pub proof fn law_closed_fd_is_reused(fds: Seq<Option<usize>>, fd: int)
    requires
        0 <= fd < fds.len(),
        forall|i: int| 0 <= i < fd ==> #[trigger] fds[i] is Some,
    ensures
        free_fd(fds.update(fd, None)) == fd,
{
    let f2 = fds.update(fd, None);
    assert forall|j: int| 0 <= j <= fd implies free_fd_from(f2, j) == fd by {
        lemma_free_fd_down(f2, fd, j);
    }
}

proof fn lemma_free_fd_down(f: Seq<Option<usize>>, fd: int, j: int)
    requires
        0 <= j <= fd < f.len(),
        f[fd] is None,
        forall|i: int| 0 <= i < fd ==> #[trigger] f[i] is Some,
    ensures
        free_fd_from(f, j) == fd,
    decreases fd - j,
{
    if j < fd {
        lemma_free_fd_down(f, fd, j + 1);
    }
}

/// The pid of a reaped child is the pid that the next new task gets.
pub proof fn law_reaped_pid_is_reused(k: KernelModel, idx: int)
    requires
        kernel_wf(k),
        0 <= idx < cur(k).children.len(),
    ensures
        pid_alloc(reaped(k, idx)).0 == cur(k).children[idx],
{
}

/// A forked child is a copy of its parent's address space, heap, files and
/// image; it returns 0 from `fork`, is the parent's newest child, and the
/// parent keeps running with its memory untouched.
pub proof fn law_fork_copies_parent(k: KernelModel)
    requires
        kernel_wf(k),
        fork_ok(k),
    ensures
        ({
            let p = pid_alloc(k).0 as int;
            let k1 = fork_state(k);
            let child = task_of(k1.tasks, p);
            &&& p != k.current
            &&& live(k1.tasks, p)
            &&& child.areas == cur(k).areas
            &&& child.heap_bottom == cur(k).heap_bottom
            &&& child.program_brk == cur(k).program_brk
            &&& child.fd_table == cur(k).fd_table
            &&& child.image == cur(k).image
            &&& child.trap_cx.a0 == 0
            &&& child.trap_cx == (TrapContext { a0: 0, ..cur(k).trap_cx })
            &&& child.parent == Some(k.current)
            &&& child.status == TaskStatus::Ready
            &&& k1.current == k.current
            &&& cur(k1).children == cur(k).children.push(p as usize)
            &&& cur(k1).areas == cur(k).areas
        }),
{
    lemma_pid_alloc(k);
    lemma_cur_local(k);
}

/// An exiting task stays in the table as a zombie child of its parent,
/// holding its exit code, until its parent reaps it; its children now
/// belong to the initial process; another task runs.
pub proof fn law_exit_leaves_zombie_for_parent(k: KernelModel, code: i32)
    requires
        kernel_wf(k),
        k.current != INITPROC_PID,
        other_ready(k),
    ensures
        ({
            let c = k.current as int;
            let k2 = exited(k, code);
            &&& live(k2.tasks, c)
            &&& task_of(k2.tasks, c).status == TaskStatus::Zombie
            &&& task_of(k2.tasks, c).exit_code == code
            &&& task_of(k2.tasks, c).parent == cur(k).parent
            &&& (cur(k).parent matches Some(q) ==> task_of(k2.tasks, q as int).children.contains(
                c as usize,
            ))
            &&& forall|x: usize|
                #[trigger] cur(k).children.contains(x) ==> task_of(k2.tasks, x as int).parent == Some(
                    INITPROC_PID,
                )
            &&& k2.current != k.current
            &&& kernel_wf(k2)
        }),
{
    let c = k.current as int;
    let k1 = exit_state(k, code);
    lemma_wf_exit(k, code);
    lemma_cur_local(k);
    let q0 = choose|q: int| q != k.current && #[trigger] ready_at(k, q);
    assert(ready_at(k1, q0));
    let n = k1.tasks.len() as int;
    let j = if q0 > c { q0 - c } else { q0 + n - c };
    assert(slot_after(k1, j) == q0);
    lemma_next_ready_from(k1, 1);
    let nx = next_ready(k1)->0;
    assert(ready_at(k1, nx as int));
    assert(nx as int != c);
    lemma_wf_switch(k1);
    let k2 = exited(k, code);
    assert(task_of(k.tasks, c).pid == c);
    if cur(k).parent is Some {
        let q = cur(k).parent->0;
        assert(live(k.tasks, q as int));
        assert(task_of(k.tasks, q as int).children.contains(c as usize));
        if q == INITPROC_PID {
            let init = task_of(k.tasks, INITPROC_PID as int);
            let i = choose|i: int| 0 <= i < init.children.len() && init.children[i] == c as usize;
            assert((init.children + cur(k).children)[i] == c as usize);
        }
    }
    assert forall|x: usize| #[trigger] cur(k).children.contains(x) implies task_of(k2.tasks, x as int).parent
        == Some(INITPROC_PID) by {
        assert(task_of(k.tasks, c).children.contains(x));
        assert(live(k.tasks, x as int));
        assert(task_of(k.tasks, x as int).parent == Some(c as usize));
        assert(x as int != c) by {
            assert(task_of(k.tasks, c).parent != Some(c as usize));
        }
        assert(x != INITPROC_PID);
    }
}

/// When no other task is ready, a task that yields keeps running.
pub proof fn law_yield_alone_keeps_running(k: KernelModel)
    requires
        kernel_wf(k),
        !other_ready(k),
    ensures
        yielded(k).current == k.current,
        yielded(k).tasks == set_status(k, k.current as int, TaskStatus::Running).tasks,
{
    let c = k.current as int;
    let k1 = set_status(k, c, TaskStatus::Ready);
    let n = k1.tasks.len() as int;
    assert forall|j: int| 1 <= j < n implies !ready_at(k1, #[trigger] slot_after(k1, j)) by {
        let q = slot_after(k1, j);
        assert(q != c);
        if ready_at(k1, q) {
            assert(ready_at(k, q));
        }
    }
    lemma_next_ready_alone(k1, 1);
    assert(next_ready(k1) == Some(c as usize));
    assert(yielded(k).tasks =~= set_status(k, c, TaskStatus::Running).tasks);
}

proof fn lemma_next_ready_alone(k: KernelModel, j: int)
    requires
        1 <= j <= k.tasks.len(),
        k.current < k.tasks.len() <= usize::MAX,
        forall|i: int| 1 <= i < k.tasks.len() ==> !ready_at(k, #[trigger] slot_after(k, i)),
        ready_at(k, k.current as int),
    ensures
        next_ready_from(k, j) == Some(k.current),
    decreases k.tasks.len() - j,
{
    if j < k.tasks.len() {
        assert(!ready_at(k, slot_after(k, j)));
        lemma_next_ready_alone(k, j + 1);
    } else {
        assert(slot_after(k, j) == k.current);
    }
}


proof fn lemma_ceil_bounds(y: int)
    requires
        y >= 0,
    ensures
        ceil_vpn(y) * PAGE_SIZE >= y,
        ceil_vpn(y) >= 0,
        y > 0 ==> (ceil_vpn(y) - 1) * PAGE_SIZE < y,
{
    if y > 0 {
        vstd::arithmetic::div_mod::lemma_fundamental_div_mod(y - 1 + PAGE_SIZE, PAGE_SIZE as int);
        vstd::arithmetic::div_mod::lemma_mod_bound(y - 1 + PAGE_SIZE, PAGE_SIZE as int);
    }
}

/// Unmapping the range that was just mapped gives back the address space
/// as it was, when no area already started at the range's first page.
pub proof fn law_munmap_undoes_mmap(k: KernelModel, start: usize, len: usize, port: usize)
    requires
        kernel_wf(k),
        sys_mmap_ok(k, start, len, port),
        !mmap_rejects(start, port),
        start + len < VA_RANGE,
        pages_free_from(cur(k).areas, start as int, len as int),
        forall|i: int|
            0 <= i < cur(k).areas.len() ==> #[trigger] cur(k).areas[i].start_vpn != floor_vpn(start as int),
    ensures
        sys_mmap_effect(k, start, len, port).0 == 0,
        sys_munmap_effect(sys_mmap_effect(k, start, len, port).1, start, len) == (0isize, k),
{
    let c = k.current as int;
    let s0 = cur(k).areas;
    let k1 = sys_mmap_effect(k, start, len, port).1;
    let s1 = mapped_result(s0, start as int, len as int, port);
    let lo = map_lo(start as int);
    let hi = map_hi(start as int, len as int);
    lemma_cur_local(k);
    vstd::arithmetic::div_mod::lemma_small_mod(start as nat, VA_RANGE as nat);
    vstd::arithmetic::div_mod::lemma_small_mod((start + len) as nat, VA_RANGE as nat);
    assert(va_mask(start as int) == start);
    assert(va_mask(start + len) == start + len);
    lemma_ceil_bounds(start + len);
    vstd::arithmetic::div_mod::lemma_fundamental_div_mod(start as int, PAGE_SIZE as int);
    assert(lo * PAGE_SIZE == start);
    assert(cur(k1).areas == s1);
    assert forall|i: int| 0 <= i && i * PAGE_SIZE < len implies #[trigger] is_mapped(
        s1,
        floor_vpn(va_mask(start + i * PAGE_SIZE)),
    ) by {
        let a = start + i * PAGE_SIZE;
        assert(va_mask(a) == a);
        assert(floor_vpn(a) == lo + i) by {
            vstd::arithmetic::div_mod::lemma_fundamental_div_mod(a, PAGE_SIZE as int);
            vstd::arithmetic::div_mod::lemma_mod_bound(a, PAGE_SIZE as int);
            assert(a == (lo + i) * PAGE_SIZE);
            vstd::arithmetic::div_mod::lemma_div_multiples_vanish(lo + i, PAGE_SIZE as int);
        }
        assert(lo + i < hi);
        assert(crate::mm::area_contains(s1[s0.len() as int], lo + i));
    }
    assert(pages_mapped_from(s1, start as int, len as int));
    crate::mm::lemma_first_starting_at(s1, lo, s0.len() as int);
    assert(s1.remove(s0.len() as int) =~= s0);
    let k2 = sys_munmap_effect(k1, start, len).1;
    assert(k2.tasks =~= k.tasks) by {
        assert(k.tasks[c] == Some(cur(k)));
        assert(cur(k1) == crate::task::TaskModel { areas: s1, ..cur(k) });
    }
    assert(k2 =~= k);
}

/// Once a range is mapped, asking to map it again is refused, whatever
/// rights are asked for, whenever the mapped range (taken, as addresses
/// are, modulo the 39-bit address space) holds a page.
pub proof fn law_mmap_twice_fails(k: KernelModel, start: usize, len: usize, port: usize, port2: usize)
    requires
        kernel_wf(k),
        sys_mmap_ok(k, start, len, port),
        sys_mmap_effect(k, start, len, port).0 == 0,
        len > 0,
        map_lo(start as int) < map_hi(start as int, len as int),
    ensures
        sys_mmap_effect(sys_mmap_effect(k, start, len, port).1, start, len, port2).0 == -1,
        sys_mmap_effect(sys_mmap_effect(k, start, len, port).1, start, len, port2).1 == sys_mmap_effect(
            k,
            start,
            len,
            port,
        ).1,
{
    let s0 = cur(k).areas;
    let k1 = sys_mmap_effect(k, start, len, port).1;
    let s1 = mapped_result(s0, start as int, len as int, port);
    let lo = map_lo(start as int);
    lemma_cur_local(k);
    assert(cur(k1).areas == s1);
    assert(crate::mm::area_contains(s1[s0.len() as int], lo));
    assert(start + 0 * PAGE_SIZE == start);
    assert(is_mapped(s1, floor_vpn(va_mask(start + 0 * PAGE_SIZE))));
}

/// A byte stored at an address of a page mapped readable and writable for
/// the user is what a read of that address gives.
pub proof fn law_va_read_after_write(s: Seq<AreaModel>, va: usize, b: u8)
    requires
        areas_wf(s),
        user_writable(s, va as int),
        perm_at(s, floor_vpn(va as int)).r,
    ensures
        read_va_result(with_byte(s, va as int, b), va as int) == b as isize,
{
    crate::mm::lemma_with_byte(s, va as int, b);
    let t = with_byte(s, va as int, b);
    crate::mm::lemma_same_layout(s, t);
    assert(is_mapped(t, floor_vpn(va as int)));
    assert(crate::mm::area_index(t, floor_vpn(va as int)) == crate::mm::area_index(s, floor_vpn(va as int)));
}


/// Moving the program break up and then down by the same amount gives back
/// the break and the address space, when the heap area ended at the
/// break's page boundary.
pub proof fn law_sbrk_undone(k: KernelModel, size: i32)
    requires
        kernel_wf(k),
        0 <= size,
        brk_ok(cur(k), size),
        brk_moves(cur(k), size),
        cur(k).program_brk >= cur(k).heap_bottom,
        cur(k).areas[first_starting_at(cur(k).areas, floor_vpn(cur(k).heap_bottom as int))->0].end_vpn
            == ceil_vpn(cur(k).program_brk as int),
    ensures
        sys_sbrk_effect(k, size).0 == cur(k).program_brk as usize as isize,
        brk_ok(cur(sys_sbrk_effect(k, size).1), (0 - size) as i32),
        sys_sbrk_effect(sys_sbrk_effect(k, size).1, (0 - size) as i32) == (
            (cur(k).program_brk + size) as u64 as usize as isize,
            k,
        ),
{
    let t0 = cur(k);
    let s0 = t0.areas;
    let hb = t0.heap_bottom as int;
    let i = first_starting_at(s0, floor_vpn(hb))->0;
    let neg = (0 - size) as i32;
    lemma_cur_local(k);
    assert(0 <= i < s0.len() && s0[i].start_vpn == floor_vpn(hb) && forall|j: int|
        0 <= j < i ==> s0[j].start_vpn != floor_vpn(hb));
    assert(crate::mm::area_wf(s0[i]));
    let b0 = t0.program_brk as int;
    let b1 = b0 + size;
    let e0 = ceil_vpn(b0);
    let e1 = ceil_vpn(b1);
    assert(e0 <= e1) by {
        if b0 > 0 {
            vstd::arithmetic::div_mod::lemma_div_is_ordered(b0 - 1 + PAGE_SIZE, b1 - 1 + PAGE_SIZE, PAGE_SIZE as int);
        }
    }
    let k1 = sys_sbrk_effect(k, size).1;
    let t1 = brk_moved(t0, size);
    assert(cur(k1) == t1);
    let s1 = t1.areas;
    assert(s1[i] == crate::mm::grown_area(s0[i], e1));
    crate::mm::lemma_first_starting_at(s1, floor_vpn(hb), i);
    assert(new_brk(t1, neg) == b0);
    assert(brk_moves(t1, neg));
    if size > 0 {
        assert(crate::mm::shrunk_area(s1[i], e0) =~= s0[i]);
    } else {
        assert(crate::mm::grown_area(s1[i], e0) =~= s0[i]);
    }
    let t2 = brk_moved(t1, neg);
    assert(t2.areas =~= s0);
    assert(t2 =~= t0);
    let k2 = sys_sbrk_effect(k1, neg).1;
    assert(k2.tasks =~= k.tasks) by {
        assert(k.tasks[k.current as int] == Some(t0));
    }
    assert(k2 =~= k);
}

/// Counting a use of a system call makes its count read one more; the
/// current task's other counts and every other task stay as they were
/// (the counts are per task).
pub proof fn law_syscall_count_inc(k: KernelModel, id: usize)
    requires
        kernel_wf(k),
        id < MAX_SYSCALL_NUM,
        cur(k).syscall_count[id as int] < usize::MAX,
    ensures
        ({
            let k1 = with_cur(
                k,
                TaskModel {
                    syscall_count: cur(k).syscall_count.update(
                        id as int,
                        (cur(k).syscall_count[id as int] + 1) as usize,
                    ),
                    ..cur(k)
                },
            );
            &&& cur(k1).syscall_count[id as int] == cur(k).syscall_count[id as int] + 1
            &&& forall|j: int| 0 <= j < MAX_SYSCALL_NUM && j != id ==> #[trigger] cur(k1).syscall_count[j]
                == cur(k).syscall_count[j]
            &&& k1.current == k.current
            &&& k1.tasks.len() == k.tasks.len()
            &&& forall|p: int| 0 <= p < k.tasks.len() && p != k.current ==> #[trigger] k1.tasks[p] == k.tasks[p]
        }),
{
    lemma_cur_local(k);
}

/// The first exited child that a wait for child `c` finds, from position
/// `i` on, is `c` at its own position `idx`.
proof fn lemma_wait_finds(k: KernelModel, c: usize, idx: int, i: int)
    requires
        0 <= i <= idx < cur(k).children.len(),
        cur(k).children[idx] == c,
        cur(k).children.no_duplicates(),
        c <= isize::MAX,
        task_of(k.tasks, c as int).status == TaskStatus::Zombie,
    ensures
        zombie_child_from(k, c as isize, i) == Some(idx),
    decreases idx - i,
{
    if i < idx {
        assert(cur(k).children[i] != c);
        assert(!wait_match(c as isize, cur(k).children[i]));
        lemma_wait_finds(k, c, idx, i + 1);
    }
}

/// Waiting for an exited child that has not been reaped gives its pid and
/// stores its exit code at the given address; the child leaves the task
/// table, and waiting for it again gives -1.
pub proof fn law_waitpid_reaps_exited_child(k: KernelModel, c: usize, ptr: usize)
    requires
        kernel_wf(k),
        cur(k).children.contains(c),
        task_of(k.tasks, c as int).status == TaskStatus::Zombie,
        c <= isize::MAX,
        sys_waitpid_ok(k, c as isize, ptr),
    ensures
        ({
            let (r, k2) = sys_waitpid_effect(k, c as isize, ptr);
            &&& r == c as isize
            &&& user_bytes(cur(k2).areas, ptr as int, 4) == i32_bytes(task_of(k.tasks, c as int).exit_code)
            &&& !live(k2.tasks, c as int)
            &&& sys_waitpid_effect(k2, c as isize, ptr) == (-1isize, k2)
        }),
{
    let ch = cur(k).children;
    let idx = choose|j: int| 0 <= j < ch.len() && ch[j] == c;
    let cp = k.current as int;
    lemma_cur_local(k);
    assert(live(k.tasks, cp));
    assert(crate::task::tree_wf(k.tasks));
    assert(task_of(k.tasks, cp).children.contains(c));
    assert(task_of(k.tasks, cp).children.no_duplicates());
    assert(ch.no_duplicates());
    assert(task_of(k.tasks, c as int).parent == Some(k.current));
    assert(c != k.current);
    assert(wait_match(c as isize, ch[idx]));
    assert(has_waited_child(k, c as isize));
    lemma_wait_finds(k, c, idx, 0);
    let k1 = reaped(k, idx);
    let data = i32_bytes(task_of(k.tasks, c as int).exit_code);
    assert(cur(k1).areas == cur(k).areas);
    assert(cur(k1).children == ch.remove(idx));
    assert(data.len() == 4) by {
        reveal_with_fuel(crate::mm::le_bytes, 5);
    }
    law_user_memory_read_after_write(cur(k1).areas, ptr, data);
    let k2 = sys_waitpid_effect(k, c as isize, ptr).1;
    assert(cur(k2).children == ch.remove(idx));
    assert(!live(k2.tasks, c as int));
    assert forall|j: int| 0 <= j < cur(k2).children.len() implies !wait_match(
        c as isize,
        #[trigger] cur(k2).children[j],
    ) by {
        if j < idx {
            assert(cur(k2).children[j] == ch[j]);
        } else {
            assert(cur(k2).children[j] == ch[j + 1]);
        }
    }
    assert(!has_waited_child(k2, c as isize));
}

/// Closing the descriptor that an open gave frees it (0): every slot of
/// the current task's descriptor table is then empty or as it was before
/// the open, and closing it again gives -1.
pub proof fn law_close_undoes_open(k: KernelModel, path: usize, flags: u32)
    requires
        kernel_wf(k),
        sys_open_ok(k, path, flags),
        sys_open_effect(k, path, flags).0 >= 0,
        cur(k).fd_table.len() < isize::MAX,
    ensures
        ({
            let (fd, k1) = sys_open_effect(k, path, flags);
            let (r, k2) = sys_close_effect(k1, fd as usize);
            &&& r == 0
            &&& cur(k2).fd_table.len() >= cur(k).fd_table.len()
            &&& forall|i: int|
                0 <= i < cur(k2).fd_table.len() ==> #[trigger] cur(k2).fd_table[i] is None || (i
                    < cur(k).fd_table.len() && cur(k2).fd_table[i] == cur(k).fd_table[i])
            &&& sys_close_effect(k2, fd as usize).0 == -1
        }),
{
    let fds = cur(k).fd_table;
    let fd = free_fd(fds);
    lemma_free_fd_from(fds, 0);
    let (r1, k1) = sys_open_effect(k, path, flags);
    assert(r1 as usize == fd);
    assert(cur(k1).fd_table == crate::task::files::fds_with(fds, k.files.len() as usize));
    assert(cur(k1).fd_table[fd] is Some);
    let k2 = sys_close_effect(k1, fd as usize).1;
    assert(cur(k2).fd_table == cur(k1).fd_table.update(fd, None));
}

/// Giving a file a new name and then removing that name gives back the
/// kernel state as it was: the directory, and with it every link count.
pub proof fn law_unlink_undoes_link(k: KernelModel, old_name: usize, new_name: usize)
    requires
        kernel_wf(k),
        two_names_ok(k, old_name, new_name),
        lookup(k.fs, user_cstr(cur(k).areas, new_name as int)) is None,
        sys_linkat_effect(k, old_name, new_name).0 == 0,
    ensures
        sys_unlinkat_effect(sys_linkat_effect(k, old_name, new_name).1, new_name) == (0isize, k),
{
    let n = user_cstr(cur(k).areas, new_name as int);
    let o = user_cstr(cur(k).areas, old_name as int);
    let ino = lookup(k.fs, o)->0;
    let es = k.fs.entries;
    let es2 = es.push(EntryModel { name: n, inode: ino });
    let i = es.len() as int;
    assert forall|j: int| 0 <= j < i implies es2[j].name != n by {
        if es2[j].name == n {
            assert(es[j].name == n);
            crate::fs::lemma_first_entry_exists(es, n, j);
        }
    }
    crate::fs::lemma_first_entry(es2, n, i);
    let k1 = sys_linkat_effect(k, old_name, new_name).1;
    assert(k1.fs.entries == es2);
    assert(cur(k1) == cur(k));
    assert(es2.remove(i) =~= es);
    let k2 = sys_unlinkat_effect(k1, new_name).1;
    assert(k2.fs =~= k.fs);
    assert(k2 =~= k);
}

/// Some exited child that a wait concerns is found from position `i0`
/// on when one sits at position `i` at or after it.
proof fn lemma_zombie_found(k: KernelModel, pid: isize, i0: int, i: int)
    requires
        0 <= i0 <= i < cur(k).children.len(),
        wait_match(pid, cur(k).children[i]),
        task_of(k.tasks, cur(k).children[i] as int).status == TaskStatus::Zombie,
    ensures
        zombie_child_from(k, pid, i0) is Some,
    decreases i - i0,
{
    if i0 < i {
        lemma_zombie_found(k, pid, i0 + 1, i);
    }
}

/// When the current task has an exited child that a wait for `pid`
/// concerns, the wait reaps one such exited child, whichever place it
/// has among the children: it gives that child's pid, stores its exit
/// code, and the child leaves the children and the task table.
pub proof fn law_waitpid_reaps_some_exited_child(k: KernelModel, pid: isize, ptr: usize, i: int)
    requires
        kernel_wf(k),
        k.tasks.len() <= isize::MAX,
        0 <= i < cur(k).children.len(),
        wait_match(pid, cur(k).children[i]),
        task_of(k.tasks, cur(k).children[i] as int).status == TaskStatus::Zombie,
        sys_waitpid_ok(k, pid, ptr),
    ensures
        ({
            let ch = cur(k).children;
            let (r, k2) = sys_waitpid_effect(k, pid, ptr);
            &&& r >= 0
            &&& exists|j: int|
                0 <= j < ch.len() && #[trigger] ch[j] as isize == r && wait_match(pid, ch[j])
                    && task_of(k.tasks, ch[j] as int).status == TaskStatus::Zombie
                    && cur(k2).children == ch.remove(j)
                    && user_bytes(cur(k2).areas, ptr as int, 4) == i32_bytes(task_of(k.tasks, ch[j] as int).exit_code)
            &&& !live(k2.tasks, r as int)
        }),
{
    let ch = cur(k).children;
    let cp = k.current as int;
    lemma_cur_local(k);
    assert(has_waited_child(k, pid));
    lemma_zombie_found(k, pid, 0, i);
    crate::syscall::process::lemma_zombie_child_from(k, pid, 0);
    let j = zombie_child_from(k, pid, 0)->0;
    let c = ch[j];
    assert(crate::task::tree_wf(k.tasks));
    assert(task_of(k.tasks, cp).children.contains(c));
    assert(live(k.tasks, c as int));
    assert(task_of(k.tasks, c as int).parent == Some(k.current));
    assert(c != k.current);
    let k1 = reaped(k, j);
    let data = i32_bytes(task_of(k.tasks, c as int).exit_code);
    assert(cur(k1).areas == cur(k).areas);
    assert(data.len() == 4) by {
        reveal_with_fuel(crate::mm::le_bytes, 5);
    }
    law_user_memory_read_after_write(cur(k1).areas, ptr, data);
    let (r, k2) = sys_waitpid_effect(k, pid, ptr);
    assert(r == c as isize);
    assert(cur(k2).children == ch.remove(j));
    assert(!live(k2.tasks, c as int));
}

/// A spawned child runs the named file as a freshly loaded program: its
/// address space, stack, break and entry point are those the loader builds
/// from the file's bytes, the same that an `exec` of that file gives, and
/// none of the caller's memory; the caller's memory stays as it was.
pub proof fn law_spawn_loads_the_file(k: KernelModel, path: usize)
    requires
        kernel_wf(k),
        fork_ok(k),
        lookup(k.fs, user_cstr(cur(k).areas, path as int)) is Some,
    ensures
        ({
            let img = k.fs.inodes[lookup(k.fs, user_cstr(cur(k).areas, path as int))->0 as int];
            let (r, k1) = sys_spawn_effect(k, path);
            let p = pid_alloc(k).0;
            let child = task_of(k1.tasks, p as int);
            let e = cur(sys_exec_effect(k, path).1);
            &&& r == p as isize
            &&& live(k1.tasks, p as int)
            &&& child.areas == elf_space(img)
            &&& child.heap_bottom == elf_stack_top(img) as u64
            &&& child.program_brk == elf_stack_top(img) as u64
            &&& child.trap_cx == (TrapContext {
                a0: 0,
                sp: elf_stack_top(img) as usize,
                sepc: elf_entry(img) as usize,
            })
            &&& child.image == img
            &&& child.areas == e.areas && child.trap_cx == e.trap_cx && child.program_brk == e.program_brk
            &&& child.parent == Some(k.current)
            &&& cur(k1).areas == cur(k).areas
            &&& cur(k1).trap_cx == cur(k).trap_cx
        }),
{
    lemma_pid_alloc(k);
    lemma_cur_local(k);
    let (p, k0) = pid_alloc(k);
    assert(cur(k0) == cur(k));
    let ino = lookup(k.fs, user_cstr(cur(k).areas, path as int))->0;
    let img = k.fs.inodes[ino as int];
    let k1 = sys_spawn_effect(k, path).1;
    assert(k1 == crate::task::process::spawned(k, img));
    assert(task_of(k1.tasks, p as int) == crate::task::fresh_task(
        p,
        img,
        Some(k.current),
        (cur(k).prio * 2) as isize,
    ));
    assert(cur(k1).areas == cur(k).areas);
}

/// A link count counts exactly the names of that inode: none in an empty
/// directory, one more for a new entry naming the inode, and no change for
/// an entry naming another inode.
pub proof fn law_link_count_counts_names(es: Seq<EntryModel>, name: Seq<u8>, ino: usize, j: usize)
    ensures
        link_count(Seq::<EntryModel>::empty(), ino) == 0,
        link_count(es.push(EntryModel { name, inode: j }), ino) == link_count(es, ino) + if j == ino {
            1nat
        } else {
            0nat
        },
{
    assert(es.push(EntryModel { name, inode: j }).drop_last() =~= es);
}

/// `mmap` looks only at the pages of the range it is asked to map: with an
/// aligned start, known rights and a range inside the address space, it
/// maps the range (0) exactly when every page of it is free, and refuses
/// (-1) when one of them is mapped.
pub proof fn law_mmap_checks_only_its_range(k: KernelModel, start: usize, len: usize, port: usize)
    requires
        kernel_wf(k),
        !mmap_rejects(start, port),
        start + len < VA_RANGE,
    ensures
        (sys_mmap_effect(k, start, len, port).0 == 0) == range_free(
            cur(k).areas,
            floor_vpn(start as int),
            ceil_vpn(start + len),
        ),
        sys_mmap_effect(k, start, len, port).0 == 0 || sys_mmap_effect(k, start, len, port).0 == -1,
{
    let s = cur(k).areas;
    let lo = floor_vpn(start as int);
    let hi = ceil_vpn(start + len);
    vstd::arithmetic::div_mod::lemma_fundamental_div_mod(start as int, PAGE_SIZE as int);
    assert(start == lo * PAGE_SIZE);
    lemma_ceil_bounds(start + len);
    assert forall|i: int| 0 <= i && i * PAGE_SIZE < len implies #[trigger] floor_vpn(
        va_mask(start + i * PAGE_SIZE),
    ) == lo + i by {
        vstd::arithmetic::div_mod::lemma_small_mod((start + i * PAGE_SIZE) as nat, VA_RANGE as nat);
        assert(start + i * PAGE_SIZE == (lo + i) * PAGE_SIZE) by (nonlinear_arith)
            requires
                start == lo * PAGE_SIZE,
        ;
        vstd::arithmetic::div_mod::lemma_div_multiples_vanish(lo + i, PAGE_SIZE as int);
    }
    if range_free(s, lo, hi) {
        assert forall|i: int| 0 <= i && i * PAGE_SIZE < len implies !#[trigger] is_mapped(
            s,
            floor_vpn(va_mask(start + i * PAGE_SIZE)),
        ) by {
            assert(floor_vpn(va_mask(start + i * PAGE_SIZE)) == lo + i);
            assert((lo + i) * PAGE_SIZE < start + len) by (nonlinear_arith)
                requires
                    start == lo * PAGE_SIZE,
                    i * PAGE_SIZE < len,
            ;
            if lo + i >= hi {
                assert((lo + i) * PAGE_SIZE >= hi * PAGE_SIZE) by (nonlinear_arith)
                    requires
                        lo + i >= hi,
                ;
            }
        }
        assert(pages_free_from(s, start as int, len as int));
    } else {
        let v = choose|v: int| lo <= v < hi && #[trigger] is_mapped(s, v);
        let i = v - lo;
        assert(i * PAGE_SIZE < len) by (nonlinear_arith)
            requires
                i == v - lo,
                v < hi,
                start == lo * PAGE_SIZE,
                (hi - 1) * PAGE_SIZE < start + len,
                hi > 0,
        ;
        assert(floor_vpn(va_mask(start + i * PAGE_SIZE)) == lo + i);
        assert(is_mapped(s, floor_vpn(va_mask(start + i * PAGE_SIZE))));
        assert(!pages_free_from(s, start as int, len as int));
    }
}

} // verus!
