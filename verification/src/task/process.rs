//! Processes: pids, `fork`, `spawn` and `exec`, exiting (with the children
//! handed to the initial process) and reaping an exited child.

use vstd::prelude::*;

use crate::config::INITPROC_PID;
use crate::loader::{elf_entry, elf_ok, elf_space, elf_stack_top};
use crate::mm::MemorySet;
use super::{
    KernelModel, TaskControlBlock, TaskManager, TaskModel, TaskStatus, TrapContext, cur, fresh_task,
    kernel_wf, lemma_cur_local, lemma_next_ready_from, lemma_wf_update_local, live, new_counts,
    ready_at, sched_wf, slot_after, switch_to_next, task_local_wf, task_of, with_cur, with_task,
    zero_counts,
};

verus! {

/// The pid the next new task gets (the most recently freed one, else a new
/// slot at the end of the table) and the state after taking it.
pub open spec fn pid_alloc(k: KernelModel) -> (usize, KernelModel) {
    if k.recycled.len() > 0 {
        (k.recycled.last(), KernelModel { recycled: k.recycled.drop_last(), ..k })
    } else {
        (k.tasks.len() as usize, KernelModel { tasks: k.tasks.push(None), ..k })
    }
}

/// The child that `fork` makes of `t`, with pid `pid`: a ready copy of its
/// address space, heap, descriptors, registers and image, with no children
/// and fresh counts, and twice its priority.
pub open spec fn fork_child(t: TaskModel, pid: usize) -> TaskModel {
    TaskModel {
        pid,
        status: TaskStatus::Ready,
        parent: Some(t.pid),
        children: Seq::empty(),
        exit_code: 0,
        prio: (t.prio * 2) as isize,
        syscall_count: zero_counts(),
        ..t
    }
}

/// `k` with task `child` put into the free slot `p` as the newest child of
/// the current task.
pub open spec fn with_new_child(k: KernelModel, p: usize, child: TaskModel) -> KernelModel {
    KernelModel {
        tasks: k.tasks.update(
            k.current as int,
            Some(TaskModel { children: cur(k).children.push(p), ..cur(k) }),
        ).update(p as int, Some(child)),
        ..k
    }
}

/// The state after the current task forked.
pub open spec fn forked(k: KernelModel) -> KernelModel {
    let (p, k1) = pid_alloc(k);
    with_new_child(k1, p, fork_child(cur(k1), p))
}

/// The state after the current task spawned a new program running `image`.
pub open spec fn spawned(k: KernelModel, image: Seq<u8>) -> KernelModel {
    let (p, k1) = pid_alloc(k);
    with_new_child(k1, p, fresh_task(p, image, Some(k.current), (cur(k).prio * 2) as isize))
}

/// Task `t` after it replaced its program by `image`: the address space,
/// heap, stack and entry point its ELF image gives.
pub open spec fn exec_task(t: TaskModel, image: Seq<u8>) -> TaskModel {
    TaskModel {
        areas: elf_space(image),
        heap_bottom: elf_stack_top(image) as u64,
        program_brk: elf_stack_top(image) as u64,
        trap_cx: TrapContext {
            a0: 0,
            sp: elf_stack_top(image) as usize,
            sepc: elf_entry(image) as usize,
        },
        image,
        ..t
    }
}

pub proof fn lemma_pid_alloc(k: KernelModel)
    requires
        kernel_wf(k),
        k.tasks.len() + 1 < usize::MAX,
    ensures
        kernel_wf(pid_alloc(k).1),
        pid_alloc(k).0 < pid_alloc(k).1.tasks.len(),
        pid_alloc(k).1.tasks[pid_alloc(k).0 as int] is None,
        !pid_alloc(k).1.recycled.contains(pid_alloc(k).0),
        pid_alloc(k).1.current == k.current,
        pid_alloc(k).1.files == k.files,
        pid_alloc(k).1.fs == k.fs,
        pid_alloc(k).0 != k.current,
        pid_alloc(k).0 != INITPROC_PID,
        forall|q: int| 0 <= q < k.tasks.len() ==> #[trigger] pid_alloc(k).1.tasks[q] == k.tasks[q],
{
    let (p, k1) = pid_alloc(k);
    if k.recycled.len() > 0 {
        let r = k.recycled;
        assert(r[r.len() - 1] < k.tasks.len() && k.tasks[r[r.len() - 1] as int] is None);
        assert forall|i: int| 0 <= i < k1.recycled.len() implies #[trigger] k1.recycled[i] < k1.tasks.len()
            && k1.tasks[k1.recycled[i] as int] is None by {
            assert(k1.recycled[i] == r[i]);
            assert(r[i] < k.tasks.len() && k.tasks[r[i] as int] is None);
        }
        assert(k1.recycled.no_duplicates()) by {
            assert forall|i: int, j: int| 0 <= i < j < k1.recycled.len() implies k1.recycled[i] != k1.recycled[j] by {
                assert(r[i] != r[j]);
            }
        }
        if k1.recycled.contains(p) {
            let i = choose|i: int| 0 <= i < k1.recycled.len() && k1.recycled[i] == p;
            assert(r[i] == r[r.len() - 1]);
        }
    } else {
        assert forall|q: int| live(k1.tasks, q) implies #[trigger] task_of(k1.tasks, q).pid == q && task_local_wf(
            task_of(k1.tasks, q),
            k1.files.len() as int,
        ) by {
            assert(live(k.tasks, q));
            assert(task_of(k.tasks, q).pid == q);
        }
        assert forall|q: int, c: usize|
            live(k1.tasks, q) && #[trigger] task_of(k1.tasks, q).children.contains(c) implies live(k1.tasks, c as int)
                && task_of(k1.tasks, c as int).parent == Some(q as usize) by {
            assert(live(k.tasks, q));
            assert(task_of(k.tasks, q).children.contains(c));
        }
        assert forall|c: int| live(k1.tasks, c) && #[trigger] task_of(k1.tasks, c).parent is Some implies live(
            k1.tasks,
            task_of(k1.tasks, c).parent->0 as int,
        ) && task_of(k1.tasks, task_of(k1.tasks, c).parent->0 as int).children.contains(c as usize) by {
            assert(live(k.tasks, c));
            assert(task_of(k.tasks, c).parent is Some);
        }
        assert forall|q: int| live(k1.tasks, q) implies #[trigger] task_of(k1.tasks, q).children.no_duplicates() by {
            assert(live(k.tasks, q));
            assert(task_of(k.tasks, q).children.no_duplicates());
        }
        assert forall|q: int| live(k1.tasks, q) implies #[trigger] task_of(k1.tasks, q).parent != Some(q as usize) by {
            assert(live(k.tasks, q));
            assert(task_of(k.tasks, q).parent != Some(q as usize));
        }
        assert forall|q: int|
            live(k1.tasks, q) && #[trigger] task_of(k1.tasks, q).status == TaskStatus::Zombie implies task_of(
                k1.tasks,
                q,
            ).children.len() == 0 by {
            assert(live(k.tasks, q));
            assert(task_of(k.tasks, q).status == TaskStatus::Zombie);
        }
    }
    assert(live(k.tasks, INITPROC_PID as int));
}

pub proof fn lemma_wf_new_child(k: KernelModel, p: usize, child: TaskModel)
    requires
        kernel_wf(k),
        p < k.tasks.len(),
        k.tasks[p as int] is None,
        !k.recycled.contains(p),
        child.pid == p,
        child.parent == Some(k.current),
        child.children.len() == 0,
        child.status != TaskStatus::Zombie,
        task_local_wf(child, k.files.len() as int),
    ensures
        kernel_wf(with_new_child(k, p, child)),
{
    let c = k.current as int;
    let k2 = with_new_child(k, p, child);
    let ts = k.tasks;
    let ts2 = k2.tasks;
    assert(p as int != c);
    assert(task_of(ts, c).pid == c);
    assert(task_of(ts, INITPROC_PID as int).pid == INITPROC_PID);
    assert forall|q: int| live(ts2, q) && q != p && q != c implies #[trigger] ts2[q] == ts[q] by {}
    assert(!task_of(ts, c).children.contains(p)) by {
        if task_of(ts, c).children.contains(p) {
            assert(live(ts, p as int));
        }
    }
    assert forall|q: int| live(ts2, q) implies #[trigger] task_of(ts2, q).pid == q && task_local_wf(
        task_of(ts2, q),
        k2.files.len() as int,
    ) by {
        if q != p {
            assert(live(ts, q));
            assert(task_of(ts, q).pid == q);
        }
    }
    assert forall|q: int, x: usize|
        live(ts2, q) && #[trigger] task_of(ts2, q).children.contains(x) implies live(ts2, x as int)
            && task_of(ts2, x as int).parent == Some(q as usize) by {
        if q == c {
            if x != p {
                assert(task_of(ts, c).children.contains(x)) by {
                    let i = choose|i: int| 0 <= i < task_of(ts2, q).children.len() && task_of(ts2, q).children[i] == x;
                    assert(task_of(ts, c).children[i] == x);
                }
                assert(live(ts, x as int));
            }
        } else if q != p {
            assert(live(ts, q));
            assert(task_of(ts, q).children.contains(x));
            assert(live(ts, x as int));
            assert(x != p);
        }
    }
    assert forall|x: int| live(ts2, x) && #[trigger] task_of(ts2, x).parent is Some implies live(
        ts2,
        task_of(ts2, x).parent->0 as int,
    ) && task_of(ts2, task_of(ts2, x).parent->0 as int).children.contains(x as usize) by {
        if x == p {
            assert(task_of(ts2, c).children[task_of(ts, c).children.len() as int] == p);
        } else {
            assert(live(ts, x));
            assert(task_of(ts, x).parent is Some);
            let y = task_of(ts, x).parent->0;
            assert(live(ts, y as int));
            assert(task_of(ts, y as int).children.contains(x as usize));
            if y as int == c {
                let i = choose|i: int| 0 <= i < task_of(ts, c).children.len() && task_of(ts, c).children[i] == x as usize;
                assert(task_of(ts2, c).children[i] == x as usize);
            }
        }
    }
    assert forall|q: int| live(ts2, q) implies #[trigger] task_of(ts2, q).children.no_duplicates() by {
        if q == c {
            assert(task_of(ts, c).children.no_duplicates());
            let s2 = task_of(ts2, c).children;
            assert forall|i: int, j: int| 0 <= i < j < s2.len() implies s2[i] != s2[j] by {
                if j == s2.len() - 1 {
                    assert(task_of(ts, c).children[i] == s2[i]);
                }
            }
        } else if q != p {
            assert(live(ts, q));
            assert(task_of(ts, q).children.no_duplicates());
        }
    }
    assert forall|q: int| live(ts2, q) implies #[trigger] task_of(ts2, q).parent != Some(q as usize) by {
        if q != p {
            assert(live(ts, q));
            assert(task_of(ts, q).parent != Some(q as usize));
        }
    }
    assert forall|q: int|
        live(ts2, q) && #[trigger] task_of(ts2, q).status == TaskStatus::Zombie implies task_of(
            ts2,
            q,
        ).children.len() == 0 by {
        if q != p && q != c {
            assert(live(ts, q));
            assert(task_of(ts, q).status == TaskStatus::Zombie);
        }
    }
    assert forall|i: int| 0 <= i < k2.recycled.len() implies #[trigger] k2.recycled[i] < ts2.len()
        && ts2[k2.recycled[i] as int] is None by {
        assert(k.recycled[i] < ts.len() && ts[k.recycled[i] as int] is None);
        assert(k.recycled[i] != p);
    }
    assert(task_local_wf(task_of(ts, c), k.files.len() as int));
}

/// The task table after the current task exited with `code`: it becomes a
/// zombie with that exit code and no memory, and its children become
/// children of the initial process (appended to its children, in order).
pub open spec fn exit_tasks(k: KernelModel, code: i32) -> Seq<Option<TaskModel>> {
    let c = k.current as int;
    let kids = cur(k).children;
    let init = task_of(k.tasks, INITPROC_PID as int);
    Seq::new(
        k.tasks.len(),
        |q: int|
            if q == c {
                Some(
                    TaskModel {
                        status: TaskStatus::Zombie,
                        exit_code: code,
                        children: Seq::empty(),
                        areas: Seq::empty(),
                        ..cur(k)
                    },
                )
            } else if q == INITPROC_PID {
                Some(TaskModel { children: init.children + kids, ..init })
            } else if kids.contains(q as usize) {
                Some(TaskModel { parent: Some(INITPROC_PID), ..task_of(k.tasks, q) })
            } else {
                k.tasks[q]
            },
    )
}

/// The state right after the current task exited with `code`, before
/// another task is chosen.
pub open spec fn exit_state(k: KernelModel, code: i32) -> KernelModel {
    KernelModel { tasks: exit_tasks(k, code), ..k }
}

/// The state after the current task exited with `code` and the next ready
/// task took over.
pub open spec fn exited(k: KernelModel, code: i32) -> KernelModel {
    switch_to_next(exit_state(k, code))
}

/// Whether some task other than the current one is ready to run.
pub open spec fn other_ready(k: KernelModel) -> bool {
    exists|q: int| q != k.current && #[trigger] ready_at(k, q)
}

/// The state after the current task reaped its child at position `idx` of
/// its children: the child leaves that list and the table, and its pid is
/// free again.
pub open spec fn reaped(k: KernelModel, idx: int) -> KernelModel {
    let c = k.current as int;
    let x = cur(k).children[idx];
    KernelModel {
        tasks: k.tasks.update(c, Some(TaskModel { children: cur(k).children.remove(idx), ..cur(k) })).update(
            x as int,
            None,
        ),
        recycled: k.recycled.push(x),
        ..k
    }
}

pub proof fn lemma_wf_exit(k: KernelModel, code: i32)
    requires
        kernel_wf(k),
        k.current != INITPROC_PID,
    ensures
        sched_wf(exit_state(k, code)),
        forall|q: int| q != k.current ==> (#[trigger] ready_at(exit_state(k, code), q) == ready_at(k, q)),
{
    let c = k.current as int;
    let ts = k.tasks;
    let k2 = exit_state(k, code);
    let ts2 = k2.tasks;
    let kids = cur(k).children;
    let z = INITPROC_PID as int;
    let init = task_of(ts, z);
    assert(task_of(ts, c).pid == c);
    assert(task_of(ts, z).pid == z);
    assert(kids.no_duplicates());
    assert(init.children.no_duplicates());
    assert forall|x: usize| kids.contains(x) implies live(ts, x as int) && task_of(ts, x as int).parent == Some(
        c as usize,
    ) && x as int != c && x as int != z by {
        assert(task_of(ts, c).children.contains(x));
        assert(task_of(ts, c).parent != Some(c as usize));
    }
    assert forall|x: usize| init.children.contains(x) implies live(ts, x as int) && task_of(ts, x as int).parent
        == Some(z as usize) && !kids.contains(x) by {
        assert(task_of(ts, z).children.contains(x));
    }
    assert forall|q: int| live(ts2, q) implies #[trigger] task_of(ts2, q).pid == q && task_local_wf(
        task_of(ts2, q),
        k2.files.len() as int,
    ) by {
        assert(live(ts, q));
        assert(task_of(ts, q).pid == q);
        assert(task_local_wf(task_of(ts, q), k.files.len() as int));
    }
    assert forall|q: int, x: usize|
        live(ts2, q) && #[trigger] task_of(ts2, q).children.contains(x) implies live(ts2, x as int)
            && task_of(ts2, x as int).parent == Some(q as usize) by {
        if q == c {
        } else if q == z {
            let s2 = init.children + kids;
            let i = choose|i: int| 0 <= i < s2.len() && s2[i] == x;
            if i < init.children.len() {
                assert(init.children[i] == x);
                assert(init.children.contains(x));
            } else {
                assert(kids[i - init.children.len()] == x);
                assert(kids.contains(x));
            }
        } else {
            assert(live(ts, q));
            if kids.contains(q as usize) {
                assert(task_of(ts2, q).children == task_of(ts, q).children);
            }
            assert(task_of(ts, q).children.contains(x));
            assert(task_of(ts, x as int).parent == Some(q as usize));
            assert(!kids.contains(x));
        }
    }
    assert forall|x: int| live(ts2, x) && #[trigger] task_of(ts2, x).parent is Some implies live(
        ts2,
        task_of(ts2, x).parent->0 as int,
    ) && task_of(ts2, task_of(ts2, x).parent->0 as int).children.contains(x as usize) by {
        assert(live(ts, x));
        if kids.contains(x as usize) {
            let i = choose|i: int| 0 <= i < kids.len() && kids[i] == x as usize;
            assert((init.children + kids)[init.children.len() + i] == x as usize);
        } else {
            assert(task_of(ts, x).parent is Some);
            let y = task_of(ts, x).parent->0;
            assert(live(ts, y as int));
            assert(task_of(ts, y as int).children.contains(x as usize));
            if y as int == c {
                assert(kids.contains(x as usize));
            }
            if y as int == z {
                let i = choose|i: int| 0 <= i < init.children.len() && init.children[i] == x as usize;
                assert((init.children + kids)[i] == x as usize);
            }
        }
    }
    assert forall|q: int| live(ts2, q) implies #[trigger] task_of(ts2, q).children.no_duplicates() by {
        assert(live(ts, q));
        assert(task_of(ts, q).children.no_duplicates());
        if q == z {
            let s2 = init.children + kids;
            assert forall|i: int, j: int| 0 <= i < j < s2.len() implies s2[i] != s2[j] by {
                let n = init.children.len() as int;
                if j < n {
                } else if i >= n {
                    assert(kids[i - n] != kids[j - n]);
                } else {
                    assert(init.children.contains(s2[i]));
                    assert(kids.contains(s2[j]));
                }
            }
        }
    }
    assert forall|q: int| live(ts2, q) implies #[trigger] task_of(ts2, q).parent != Some(q as usize) by {
        assert(live(ts, q));
        assert(task_of(ts, q).parent != Some(q as usize));
    }
    assert forall|q: int|
        live(ts2, q) && #[trigger] task_of(ts2, q).status == TaskStatus::Zombie implies task_of(
            ts2,
            q,
        ).children.len() == 0 by {
        assert(live(ts, q));
        if q != c {
            assert(task_of(ts, q).status == TaskStatus::Zombie);
        }
    }
    assert forall|i: int| 0 <= i < k2.recycled.len() implies #[trigger] k2.recycled[i] < ts2.len()
        && ts2[k2.recycled[i] as int] is None by {
        assert(k.recycled[i] < ts.len() && ts[k.recycled[i] as int] is None);
    }
    assert forall|q: int| q != k.current implies (#[trigger] ready_at(k2, q) == ready_at(k, q)) by {}
    crate::mm::lemma_areas_wf_empty();
}

pub proof fn lemma_wf_reap(k: KernelModel, idx: int)
    requires
        kernel_wf(k),
        0 <= idx < cur(k).children.len(),
        task_of(k.tasks, cur(k).children[idx] as int).status == TaskStatus::Zombie,
    ensures
        kernel_wf(reaped(k, idx)),
        cur(k).children[idx] != k.current,
        live(k.tasks, cur(k).children[idx] as int),
{
    let c = k.current as int;
    let ts = k.tasks;
    let k2 = reaped(k, idx);
    let ts2 = k2.tasks;
    let kids = cur(k).children;
    let x = kids[idx];
    assert(task_of(ts, c).pid == c);
    assert(task_of(ts, c).children.contains(x));
    assert(live(ts, x as int));
    assert(x as int != c);
    assert(x != INITPROC_PID) by {
        assert(task_of(ts, x as int).parent == Some(c as usize));
    }
    assert(kids.no_duplicates());
    assert(task_of(ts, x as int).children.len() == 0);
    assert forall|q: int| live(ts2, q) implies #[trigger] task_of(ts2, q).pid == q && task_local_wf(
        task_of(ts2, q),
        k2.files.len() as int,
    ) by {
        assert(live(ts, q));
        assert(task_of(ts, q).pid == q);
    }
    assert forall|q: int, y: usize|
        live(ts2, q) && #[trigger] task_of(ts2, q).children.contains(y) implies live(ts2, y as int)
            && task_of(ts2, y as int).parent == Some(q as usize) by {
        assert(live(ts, q));
        if q == c {
            let r = kids.remove(idx);
            let i = choose|i: int| 0 <= i < r.len() && r[i] == y;
            let j = if i < idx { i } else { i + 1 };
            assert(kids[j] == y);
            assert(j != idx);
            assert(kids.contains(y));
        } else {
            assert(task_of(ts, q).children.contains(y));
            assert(y != x) by {
                if y == x {
                    assert(task_of(ts, x as int).parent == Some(q as usize));
                }
            }
        }
    }
    assert forall|y: int| live(ts2, y) && #[trigger] task_of(ts2, y).parent is Some implies live(
        ts2,
        task_of(ts2, y).parent->0 as int,
    ) && task_of(ts2, task_of(ts2, y).parent->0 as int).children.contains(y as usize) by {
        assert(live(ts, y));
        assert(task_of(ts, y).parent is Some);
        let p = task_of(ts, y).parent->0;
        assert(task_of(ts, p as int).children.contains(y as usize));
        if p == x {
            assert(task_of(ts, x as int).children.len() == 0);
        }
        if p as int == c {
            let i = choose|i: int| 0 <= i < kids.len() && kids[i] == y as usize;
            assert(i != idx);
            let r = kids.remove(idx);
            if i < idx {
                assert(r[i] == y as usize);
            } else {
                assert(r[i - 1] == y as usize);
            }
        }
    }
    assert forall|q: int| live(ts2, q) implies #[trigger] task_of(ts2, q).children.no_duplicates() by {
        assert(live(ts, q));
        assert(task_of(ts, q).children.no_duplicates());
        if q == c {
            let r = kids.remove(idx);
            assert forall|i: int, j: int| 0 <= i < j < r.len() implies r[i] != r[j] by {
                let i2 = if i < idx { i } else { i + 1 };
                let j2 = if j < idx { j } else { j + 1 };
                assert(kids[i2] != kids[j2]);
            }
        }
    }
    assert forall|q: int| live(ts2, q) implies #[trigger] task_of(ts2, q).parent != Some(q as usize) by {
        assert(live(ts, q));
        assert(task_of(ts, q).parent != Some(q as usize));
    }
    assert forall|q: int|
        live(ts2, q) && #[trigger] task_of(ts2, q).status == TaskStatus::Zombie implies task_of(
            ts2,
            q,
        ).children.len() == 0 by {
        assert(live(ts, q));
        assert(task_of(ts, q).status == TaskStatus::Zombie);
    }
    assert forall|i: int| 0 <= i < k2.recycled.len() implies #[trigger] k2.recycled[i] < ts2.len()
        && ts2[k2.recycled[i] as int] is None by {
        if i < k.recycled.len() {
            assert(k.recycled[i] < ts.len() && ts[k.recycled[i] as int] is None);
        }
    }
    assert(k2.recycled.no_duplicates()) by {
        assert forall|i: int, j: int| 0 <= i < j < k2.recycled.len() implies k2.recycled[i] != k2.recycled[j] by {
            if j == k.recycled.len() {
                assert(ts[k.recycled[i] as int] is None);
            } else {
                assert(k.recycled.no_duplicates());
            }
        }
    }
    assert(task_local_wf(task_of(ts, c), k.files.len() as int));
}

/// A copy of a descriptor table.
pub fn copy_fds(fds: &Vec<Option<usize>>) -> (v: Vec<Option<usize>>)
    ensures
        v@ == fds@,
{
    let mut v: Vec<Option<usize>> = Vec::new();
    let mut i: usize = 0;
    while i < fds.len()
        invariant
            i <= fds.len(),
            v@ == fds@.subrange(0, i as int),
        decreases fds.len() - i,
    {
        let e = match fds[i] {
            Some(f) => Some(f),
            None => None,
        };
        v.push(e);
        i = i + 1;
        assert(v@ =~= fds@.subrange(0, i as int));
    }
    assert(v@ =~= fds@);
    v
}

/// A copy of a list of pids.
pub fn copy_pids(xs: &Vec<usize>) -> (v: Vec<usize>)
    ensures
        v@ == xs@,
{
    let mut v: Vec<usize> = Vec::new();
    let mut i: usize = 0;
    while i < xs.len()
        invariant
            i <= xs.len(),
            v@ == xs@.subrange(0, i as int),
        decreases xs.len() - i,
    {
        v.push(xs[i]);
        i = i + 1;
        assert(v@ =~= xs@.subrange(0, i as int));
    }
    assert(v@ =~= xs@);
    v
}

impl TaskManager {
    /// Gives out a pid: the most recently freed one, else a new slot at the
    /// end of the table.
    pub fn alloc_pid(&mut self) -> (p: usize)
        requires
            old(self)@.tasks.len() + 1 < usize::MAX,
        ensures
            (p, final(self)@) == pid_alloc(old(self)@),
    {
        let ghost old_k = self@;
        match self.recycled.pop() {
            Some(p) => {
                assert(self@ =~= pid_alloc(old_k).1);
                p
            },
            None => {
                self.tasks.push(None);
                assert(self@.tasks =~= old_k.tasks.push(None));
                assert(self@ =~= pid_alloc(old_k).1);
                self.tasks.len() - 1
            },
        }
    }

    /// `fork`: a new ready child of the current task, a copy of it; gives
    /// the child's pid.
    pub fn fork(&mut self) -> (pid: usize)
        requires
            kernel_wf(old(self)@),
            old(self)@.tasks.len() + 1 < usize::MAX,
            isize::MIN <= cur(old(self)@).prio * 2 <= isize::MAX,
        ensures
            pid == pid_alloc(old(self)@).0,
            final(self)@ == forked(old(self)@),
            kernel_wf(final(self)@),
    {
        let ghost old_k = self@;
        proof {
            lemma_pid_alloc(old_k);
            lemma_cur_local(old_k);
        }
        let pid = self.alloc_pid();
        let ghost k1 = self@;
        assert(cur(k1) == cur(old_k));
        let c = self.current;
        let mut parent = self.take_task(c);
        let child = TaskControlBlock {
            pid,
            status: TaskStatus::Ready,
            parent: Some(c),
            children: Vec::new(),
            exit_code: 0,
            memory_set: parent.memory_set.from_existed_user(),
            heap_bottom: parent.heap_bottom,
            program_brk: parent.program_brk,
            fd_table: copy_fds(&parent.fd_table),
            prio: parent.prio * 2,
            trap_cx: parent.trap_cx,
            syscall_count: new_counts(),
            image: crate::mm::copy_bytes(&parent.image),
        };
        parent.children.push(pid);
        self.put_task(c, parent);
        self.put_task(pid, child);
        proof {
            let cm = fork_child(cur(k1), pid);
            assert(child@ =~= cm);
            assert(self@.tasks =~= with_new_child(k1, pid, cm).tasks);
            assert(self@ =~= forked(old_k));
            lemma_wf_new_child(k1, pid, cm);
        }
        pid
    }

    /// `spawn`: a new ready child of the current task running `image`;
    /// gives the child's pid.
    pub fn spawn(&mut self, image: &Vec<u8>) -> (pid: usize)
        requires
            kernel_wf(old(self)@),
            elf_ok(image@),
            old(self)@.tasks.len() + 1 < usize::MAX,
            isize::MIN <= cur(old(self)@).prio * 2 <= isize::MAX,
        ensures
            pid == pid_alloc(old(self)@).0,
            final(self)@ == spawned(old(self)@, image@),
            kernel_wf(final(self)@),
    {
        let ghost old_k = self@;
        proof {
            lemma_pid_alloc(old_k);
            lemma_cur_local(old_k);
        }
        let pid = self.alloc_pid();
        let ghost k1 = self@;
        assert(cur(k1) == cur(old_k));
        let c = self.current;
        let mut parent = self.take_task(c);
        let child = TaskControlBlock::new(image, pid, Some(c), parent.prio * 2);
        parent.children.push(pid);
        self.put_task(c, parent);
        self.put_task(pid, child);
        proof {
            let cm = fresh_task(pid, image@, Some(c), (cur(old_k).prio * 2) as isize);
            assert(self@.tasks =~= with_new_child(k1, pid, cm).tasks);
            assert(self@ =~= spawned(old_k, image@));
            assert(task_local_wf(cm, 2));
            assert forall|i: int| 0 <= i < cm.fd_table.len() && #[trigger] cm.fd_table[i] is Some implies cm.fd_table[i]->0
                < k1.files.len() by {
                assert(cm.fd_table[i]->0 < 2);
            }
            lemma_wf_new_child(k1, pid, cm);
        }
        pid
    }

    /// `exec`: the current task now runs `image`, in a fresh address space.
    pub fn exec(&mut self, image: &Vec<u8>)
        requires
            kernel_wf(old(self)@),
            elf_ok(image@),
        ensures
            final(self)@ == with_cur(old(self)@, exec_task(cur(old(self)@), image@)),
            kernel_wf(final(self)@),
    {
        let ghost old_k = self@;
        proof {
            lemma_cur_local(old_k);
        }
        let c = self.current;
        let mut t = self.take_task(c);
        let (memory_set, user_sp, entry) = MemorySet::from_elf(image);
        t.memory_set = memory_set;
        t.heap_bottom = user_sp;
        t.program_brk = user_sp;
        t.trap_cx = TrapContext { a0: 0, sp: user_sp as usize, sepc: entry as usize };
        t.image = crate::mm::copy_bytes(image);
        self.put_task(c, t);
        proof {
            let tm = exec_task(cur(old_k), image@);
            assert(t@ =~= tm);
            lemma_wf_update_local(old_k, c as int, tm);
            assert(self@ =~= with_task(old_k, c as int, tm));
        }
    }
}


impl TaskManager {
    /// `exit_current_and_run_next`: the current task exits with
    /// `exit_code` (it becomes a zombie, its memory is freed and its
    /// children go to the initial process) and the next ready task runs.
    pub fn exit_current_and_run_next(&mut self, exit_code: i32)
        requires
            kernel_wf(old(self)@),
            old(self)@.current != INITPROC_PID,
            other_ready(old(self)@),
        ensures
            final(self)@ == exited(old(self)@, exit_code),
            kernel_wf(final(self)@),
    {
        let ghost old_k = self@;
        let ghost ts = old_k.tasks;
        let ghost init0 = task_of(ts, INITPROC_PID as int);
        proof {
            lemma_wf_exit(old_k, exit_code);
            lemma_cur_local(old_k);
            assert(task_of(ts, INITPROC_PID as int).pid == INITPROC_PID);
            assert(task_of(ts, old_k.current as int).children.no_duplicates());
        }
        let c = self.current;
        let mut t = self.take_task(c);
        let mut kids: Vec<usize> = Vec::new();
        std::mem::swap(&mut kids, &mut t.children);
        let ghost kv = kids@;
        proof {
            assert forall|x: usize| kv.contains(x) implies live(ts, x as int) && x as int != c as int && x != INITPROC_PID by {
                assert(task_of(ts, c as int).children.contains(x));
                assert(task_of(ts, x as int).parent == Some(c));
                assert(task_of(ts, c as int).parent != Some(c));
            }
        }
        t.status = TaskStatus::Zombie;
        t.exit_code = exit_code;
        t.memory_set.recycle_data_pages();
        self.put_task(c, t);
        let mut init = self.take_task(INITPROC_PID);
        let mut i: usize = 0;
        while i < kids.len()
            invariant
                i <= kids.len(),
                kids@ == kv,
                kv == cur(old_k).children,
                kv.no_duplicates(),
                c == old_k.current,
                c != INITPROC_PID,
                ts == old_k.tasks,
                ts.len() < usize::MAX,
                init0 == task_of(ts, INITPROC_PID as int),
                forall|x: usize| kv.contains(x) ==> live(ts, x as int) && x as int != c as int && x != INITPROC_PID,
                init@ == (TaskModel { children: init0.children + kv.subrange(0, i as int), ..init0 }),
                self@ == (KernelModel {
                    tasks: Seq::new(
                        ts.len(),
                        |q: int|
                            if q == c {
                                exit_tasks(old_k, exit_code)[q]
                            } else if q == INITPROC_PID {
                                None
                            } else if kv.subrange(0, i as int).contains(q as usize) {
                                exit_tasks(old_k, exit_code)[q]
                            } else {
                                ts[q]
                            },
                    ),
                    ..old_k
                }),
            decreases kids.len() - i,
        {
            let q = kids[i];
            proof {
                assert(kv.contains(q));
                assert(!kv.subrange(0, i as int).contains(q)) by {
                    if kv.subrange(0, i as int).contains(q) {
                        let j = choose|j: int| 0 <= j < i && #[trigger] kv.subrange(0, i as int)[j] == q;
                        assert(kv[j] == kv[i as int]);
                    }
                }
                assert(live(self@.tasks, q as int));
            }
            let mut ch = self.take_task(q);
            ch.parent = Some(INITPROC_PID);
            self.put_task(q, ch);
            init.children.push(q);
            i = i + 1;
            proof {
                assert(kv.subrange(0, i as int) =~= kv.subrange(0, i - 1).push(q));
                assert(init@.children =~= init0.children + kv.subrange(0, i as int));
                assert(self@.tasks =~= Seq::new(
                    ts.len(),
                    |x: int|
                        if x == c {
                            exit_tasks(old_k, exit_code)[x]
                        } else if x == INITPROC_PID {
                            None
                        } else if kv.subrange(0, i as int).contains(x as usize) {
                            exit_tasks(old_k, exit_code)[x]
                        } else {
                            ts[x]
                        },
                )) by {
                    assert forall|x: int| 0 <= x < ts.len() implies #[trigger] self@.tasks[x] == (if x == c {
                        exit_tasks(old_k, exit_code)[x]
                    } else if x == INITPROC_PID {
                        None
                    } else if kv.subrange(0, i as int).contains(x as usize) {
                        exit_tasks(old_k, exit_code)[x]
                    } else {
                        ts[x]
                    }) by {
                        if x == q as int {
                            assert(kv.subrange(0, i as int)[i - 1] == q);
                            assert(kv.contains(q));
                        } else if x != c && x != INITPROC_PID {
                            if kv.subrange(0, i as int).contains(x as usize) {
                                let j = choose|j: int| 0 <= j < i && #[trigger] kv.subrange(0, i as int)[j] == x as usize;
                                assert(j != i - 1);
                                assert(kv.subrange(0, i - 1)[j] == x as usize);
                            } else {
                                if kv.subrange(0, i - 1).contains(x as usize) {
                                    let j = choose|j: int| 0 <= j < i - 1 && #[trigger] kv.subrange(0, i - 1)[j] == x as usize;
                                    assert(kv.subrange(0, i as int)[j] == x as usize);
                                }
                            }
                        }
                    }
                }
            }
        }
        self.put_task(INITPROC_PID, init);
        proof {
            assert(kv.subrange(0, i as int) =~= kv);
            assert(self@.tasks =~= exit_tasks(old_k, exit_code)) by {
                assert forall|x: int| 0 <= x < ts.len() implies #[trigger] self@.tasks[x] == exit_tasks(
                    old_k,
                    exit_code,
                )[x] by {
                    if x != c && x != INITPROC_PID && !kv.contains(x as usize) {
                    }
                }
            }
            assert(self@ =~= exit_state(old_k, exit_code));
            let q = choose|q: int| q != old_k.current && #[trigger] ready_at(old_k, q);
            assert(ready_at(self@, q));
            let n = self@.tasks.len() as int;
            let j = if q > c { q - c } else { q + n - c };
            assert(slot_after(self@, j) == q);
            lemma_next_ready_from(self@, 1);
        }
        self.run_next_task();
    }

    /// Reaps the current task's child at position `idx` of its children,
    /// which has exited: gives its pid and exit code, drops it from the list
    /// and the table, and frees its pid.
    pub fn reap_child(&mut self, idx: usize) -> (r: (usize, i32))
        requires
            kernel_wf(old(self)@),
            idx < cur(old(self)@).children.len(),
            task_of(old(self)@.tasks, cur(old(self)@).children[idx as int] as int).status == TaskStatus::Zombie,
        ensures
            r.0 == cur(old(self)@).children[idx as int],
            r.1 == task_of(old(self)@.tasks, r.0 as int).exit_code,
            final(self)@ == reaped(old(self)@, idx as int),
            kernel_wf(final(self)@),
    {
        let ghost old_k = self@;
        proof {
            lemma_wf_reap(old_k, idx as int);
        }
        let c = self.current;
        let mut t = self.take_task(c);
        let x = t.children.remove(idx);
        self.put_task(c, t);
        let child = self.take_task(x);
        self.recycled.push(x);
        proof {
            assert(self@.recycled =~= old_k.recycled.push(x));
            assert(self@.tasks =~= reaped(old_k, idx as int).tasks);
            assert(self@ =~= reaped(old_k, idx as int));
        }
        (x, child.exit_code)
    }

    /// `set_priority` on the current task.
    pub fn set_current_prio(&mut self, prio: isize)
        requires
            kernel_wf(old(self)@),
        ensures
            final(self)@ == with_cur(old(self)@, TaskModel { prio, ..cur(old(self)@) }),
            kernel_wf(final(self)@),
    {
        let ghost old_k = self@;
        proof {
            lemma_cur_local(old_k);
        }
        let c = self.current;
        let mut t = self.take_task(c);
        t.prio = prio;
        self.put_task(c, t);
        proof {
            let tm = TaskModel { prio, ..cur(old_k) };
            assert(t@ =~= tm);
            lemma_wf_update_local(old_k, c as int, tm);
            assert(self@ =~= with_task(old_k, c as int, tm));
        }
    }

    /// Sets register `a0` of task `pid`.
    pub fn set_trap_a0(&mut self, pid: usize, v: usize)
        requires
            kernel_wf(old(self)@),
            live(old(self)@.tasks, pid as int),
        ensures
            final(self)@ == with_task(
                old(self)@,
                pid as int,
                TaskModel {
                    trap_cx: TrapContext { a0: v, ..task_of(old(self)@.tasks, pid as int).trap_cx },
                    ..task_of(old(self)@.tasks, pid as int)
                },
            ),
            kernel_wf(final(self)@),
    {
        let ghost old_k = self@;
        proof {
            assert(task_of(old_k.tasks, pid as int).pid == pid);
            assert(task_of(old_k.tasks, INITPROC_PID as int).pid == INITPROC_PID);
        }
        let mut t = self.take_task(pid);
        t.trap_cx.a0 = v;
        self.put_task(pid, t);
        proof {
            let tm = TaskModel {
                trap_cx: TrapContext { a0: v, ..task_of(old_k.tasks, pid as int).trap_cx },
                ..task_of(old_k.tasks, pid as int)
            };
            assert(t@ =~= tm);
            lemma_wf_update_local(old_k, pid as int, tm);
            assert(self@ =~= with_task(old_k, pid as int, tm));
        }
    }
}

} // verus!
