//! Tasks and the task manager: the table of processes (slot = pid), the
//! current task and round-robin scheduling, with the consistency of the
//! whole kernel state. The services the system calls use are in the
//! submodules: user memory and the program break (`memory`), creating,
//! exiting and reaping processes (`process`), and descriptors (`files`).

use vstd::prelude::*;

use crate::config::{
    DEFAULT_PRIO, INITPROC_PID, MAX_SYSCALL_NUM, PAGE_SIZE, VA_RANGE,
};
use crate::fs::{File, FileSystem, FsModel, fs_wf};
use crate::loader::{elf_entry, elf_ok, elf_space, elf_stack_top};
use crate::mm::{AreaModel, MemorySet, areas_wf, shrink_ok, with_byte};
use self::memory::{
    brk_moved, brk_moves, brk_ok, map_insert_ok, mapped_result, pages_free_from, pages_mapped_from,
    read_va_result, shrink_result, timeval_write, timeval_write_ok, unmap_va, user_writable,
};
use self::process::{exited, other_ready};

pub mod files;
pub mod memory;
pub mod process;

verus! {

/// Scheduling state of a task.
#[derive(Clone, Copy, Debug, PartialEq, Eq, Structural)]
pub enum TaskStatus {
    Ready,
    Running,
    Zombie,
}

/// The registers of a task that the kernel looks at: `a0` (`x10`, where a
/// system call's result goes), the user stack pointer and the user pc.
#[derive(Clone, Copy, Debug, PartialEq, Eq, Structural)]
pub struct TrapContext {
    pub a0: usize,
    pub sp: usize,
    pub sepc: usize,
}

/// A task (process) control block.
pub struct TaskControlBlock {
    pub pid: usize,
    pub status: TaskStatus,
    pub parent: Option<usize>,
    pub children: Vec<usize>,
    pub exit_code: i32,
    pub memory_set: MemorySet,
    pub heap_bottom: u64,
    pub program_brk: u64,
    /// Each descriptor refers to an entry of the task manager's open-file table.
    pub fd_table: Vec<Option<usize>>,
    pub prio: isize,
    pub trap_cx: TrapContext,
    pub syscall_count: Vec<usize>,
    /// The program image the task runs.
    pub image: Vec<u8>,
}

/// What a task is.
#[verifier::ext_equal]
pub struct TaskModel {
    pub pid: usize,
    pub status: TaskStatus,
    pub parent: Option<usize>,
    pub children: Seq<usize>,
    pub exit_code: i32,
    pub areas: Seq<AreaModel>,
    pub heap_bottom: u64,
    pub program_brk: u64,
    pub fd_table: Seq<Option<usize>>,
    pub prio: isize,
    pub trap_cx: TrapContext,
    pub syscall_count: Seq<usize>,
    pub image: Seq<u8>,
}

impl View for TaskControlBlock {
    type V = TaskModel;

    open spec fn view(&self) -> TaskModel {
        TaskModel {
            pid: self.pid,
            status: self.status,
            parent: self.parent,
            children: self.children@,
            exit_code: self.exit_code,
            areas: self.memory_set@,
            heap_bottom: self.heap_bottom,
            program_brk: self.program_brk,
            fd_table: self.fd_table@,
            prio: self.prio,
            trap_cx: self.trap_cx,
            syscall_count: self.syscall_count@,
            image: self.image@,
        }
    }
}

/// The task manager: the whole kernel state.
pub struct TaskManager {
    /// Slot `p` holds the task with pid `p`, or nothing once it was reaped.
    pub tasks: Vec<Option<TaskControlBlock>>,
    /// Pid of the task that runs.
    pub current: usize,
    /// Pids of reaped tasks, free to be given out again (last in, first out).
    pub recycled: Vec<usize>,
    /// The open-file table that descriptors refer to.
    pub files: Vec<File>,
    pub fs: FileSystem,
    /// Console input not read yet.
    pub console_in: Vec<u8>,
    /// Console output written so far.
    pub console_out: Vec<u8>,
}

/// What the kernel state is.
#[verifier::ext_equal]
pub struct KernelModel {
    pub tasks: Seq<Option<TaskModel>>,
    pub current: usize,
    pub recycled: Seq<usize>,
    pub files: Seq<File>,
    pub fs: FsModel,
    pub console_in: Seq<u8>,
    pub console_out: Seq<u8>,
}

/// The view of an optional task.
pub open spec fn opt_view(t: Option<TaskControlBlock>) -> Option<TaskModel> {
    match t {
        Some(t) => Some(t@),
        None => None,
    }
}

impl View for TaskManager {
    type V = KernelModel;

    open spec fn view(&self) -> KernelModel {
        KernelModel {
            tasks: self.tasks@.map_values(|t: Option<TaskControlBlock>| opt_view(t)),
            current: self.current,
            recycled: self.recycled@,
            files: self.files@,
            fs: self.fs@,
            console_in: self.console_in@,
            console_out: self.console_out@,
        }
    }
}

/// Whether pid `p` names a task of `k`.
pub open spec fn live(ts: Seq<Option<TaskModel>>, p: int) -> bool {
    0 <= p < ts.len() && ts[p] is Some
}

/// The task with pid `p`.
pub open spec fn task_of(ts: Seq<Option<TaskModel>>, p: int) -> TaskModel {
    ts[p]->0
}

/// The task that runs.
pub open spec fn cur(k: KernelModel) -> TaskModel {
    k.tasks[k.current as int]->0
}

/// What must hold of each task by itself.
pub open spec fn task_local_wf(t: TaskModel, nfiles: int) -> bool {
    &&& areas_wf(t.areas)
    &&& t.heap_bottom <= VA_RANGE
    &&& t.program_brk <= VA_RANGE
    &&& t.syscall_count.len() == MAX_SYSCALL_NUM
    &&& forall|i: int|
        0 <= i < t.fd_table.len() && #[trigger] t.fd_table[i] is Some ==> t.fd_table[i]->0 < nfiles
}

/// The process tree: children and parents refer to each other, a child is
/// listed once, and a zombie has no children.
pub open spec fn tree_wf(ts: Seq<Option<TaskModel>>) -> bool {
    &&& forall|p: int, c: usize|
        live(ts, p) && #[trigger] task_of(ts, p).children.contains(c) ==> live(ts, c as int)
            && task_of(ts, c as int).parent == Some(p as usize)
    &&& forall|c: int|
        live(ts, c) && #[trigger] task_of(ts, c).parent is Some ==> live(ts, task_of(ts, c).parent->0 as int)
            && task_of(ts, task_of(ts, c).parent->0 as int).children.contains(c as usize)
    &&& forall|p: int| live(ts, p) ==> #[trigger] task_of(ts, p).children.no_duplicates()
    &&& forall|p: int| live(ts, p) ==> #[trigger] task_of(ts, p).parent != Some(p as usize)
    &&& forall|p: int|
        live(ts, p) && #[trigger] task_of(ts, p).status == TaskStatus::Zombie ==> task_of(ts, p).children.len()
            == 0
}

/// The task table, the free pids and the open files are consistent.
pub open spec fn state_wf(
    ts: Seq<Option<TaskModel>>,
    recycled: Seq<usize>,
    files: Seq<File>,
    fs: FsModel,
) -> bool {
    &&& live(ts, INITPROC_PID as int)
    &&& task_of(ts, INITPROC_PID as int).parent is None
    &&& task_of(ts, INITPROC_PID as int).status != TaskStatus::Zombie
    &&& ts.len() < usize::MAX
    &&& forall|p: int|
        live(ts, p) ==> #[trigger] task_of(ts, p).pid == p && task_local_wf(
            task_of(ts, p),
            files.len() as int,
        )
    &&& tree_wf(ts)
    &&& forall|i: int|
        0 <= i < recycled.len() ==> #[trigger] recycled[i] < ts.len() && ts[recycled[i] as int] is None
    &&& recycled.no_duplicates()
    &&& files.len() >= 2
    &&& files[0] == File::Stdin
    &&& files[1] == File::Stdout
    &&& forall|f: int|
        0 <= f < files.len() ==> match #[trigger] files[f] {
            File::OSInode { inode, .. } => inode < fs.inodes.len(),
            _ => true,
        }
    &&& fs_wf(fs)
}

/// The task table is consistent and the current slot holds a task.
pub open spec fn sched_wf(k: KernelModel) -> bool {
    &&& live(k.tasks, k.current as int)
    &&& state_wf(k.tasks, k.recycled, k.files, k.fs)
}

/// The kernel state is consistent: the current task exists and has not
/// exited, and the rest is consistent.
pub open spec fn kernel_wf(k: KernelModel) -> bool {
    &&& sched_wf(k)
    &&& cur(k).status != TaskStatus::Zombie
}

/// `k` with the task at `p` replaced by `t`.
pub open spec fn with_task(k: KernelModel, p: int, t: TaskModel) -> KernelModel {
    KernelModel { tasks: k.tasks.update(p, Some(t)), ..k }
}

/// `t` and `u` agree on everything the process tree is made of.
pub open spec fn same_tree_fields(t: TaskModel, u: TaskModel) -> bool {
    &&& t.pid == u.pid
    &&& t.parent == u.parent
    &&& t.children == u.children
    &&& u.status == TaskStatus::Zombie ==> u.children.len() == 0
}

/// Replacing a task by one with the same place in the tree keeps the state
/// consistent, provided the new task is consistent by itself.
pub proof fn lemma_wf_update_local(k: KernelModel, p: int, t: TaskModel)
    requires
        sched_wf(k),
        live(k.tasks, p),
        same_tree_fields(task_of(k.tasks, p), t),
        task_local_wf(t, k.files.len() as int),
        p == INITPROC_PID ==> t.status != TaskStatus::Zombie,
    ensures
        sched_wf(with_task(k, p, t)),
        kernel_wf(k) && (p == k.current ==> t.status != TaskStatus::Zombie) ==> kernel_wf(
            with_task(k, p, t),
        ),
{
    let k2 = with_task(k, p, t);
    assert forall|q: int| live(k2.tasks, q) implies #[trigger] task_of(k2.tasks, q).parent != Some(
        q as usize,
    ) by {
        assert(live(k.tasks, q));
        assert(task_of(k.tasks, q).parent != Some(q as usize));
    }
    assert forall|q: int| live(k2.tasks, q) implies #[trigger] task_of(k2.tasks, q).pid == q && task_local_wf(
        task_of(k2.tasks, q),
        k2.files.len() as int,
    ) by {
        assert(live(k.tasks, q));
        assert(task_of(k.tasks, q).pid == q);
        if q != p {
            assert(task_of(k2.tasks, q) == task_of(k.tasks, q));
        }
    }
    assert forall|q: int, c: usize|
        live(k2.tasks, q) && #[trigger] task_of(k2.tasks, q).children.contains(c) implies live(k2.tasks, c as int)
            && task_of(k2.tasks, c as int).parent == Some(q as usize) by {
        assert(live(k.tasks, q));
        assert(task_of(k.tasks, q).children.contains(c));
    }
    assert forall|c: int| live(k2.tasks, c) && #[trigger] task_of(k2.tasks, c).parent is Some implies live(
        k2.tasks,
        task_of(k2.tasks, c).parent->0 as int,
    ) && task_of(k2.tasks, task_of(k2.tasks, c).parent->0 as int).children.contains(c as usize) by {
        assert(live(k.tasks, c));
        assert(task_of(k.tasks, c).parent is Some);
    }
    assert forall|q: int| live(k2.tasks, q) implies #[trigger] task_of(k2.tasks, q).children.no_duplicates() by {
        assert(live(k.tasks, q));
        assert(task_of(k.tasks, q).children.no_duplicates());
    }
    assert forall|q: int|
        live(k2.tasks, q) && #[trigger] task_of(k2.tasks, q).status == TaskStatus::Zombie implies task_of(
            k2.tasks,
            q,
        ).children.len() == 0 by {
        assert(live(k.tasks, q));
        if q != p {
            assert(task_of(k.tasks, q).status == TaskStatus::Zombie);
        }
    }
    assert forall|i: int| 0 <= i < k2.recycled.len() implies #[trigger] k2.recycled[i] < k2.tasks.len()
        && k2.tasks[k2.recycled[i] as int] is None by {
        assert(k.recycled[i] < k.tasks.len() && k.tasks[k.recycled[i] as int] is None);
    }
}

/// Descriptors of a freshly loaded program: standard input, standard output
/// and standard error (the console output too).
pub open spec fn std_fds() -> Seq<Option<usize>> {
    seq![Some(0usize), Some(1usize), Some(1usize)]
}

/// A freshly loaded program with pid `pid`, running `image`: its address
/// space, stack and entry point are those its ELF image gives.
pub open spec fn fresh_task(pid: usize, image: Seq<u8>, parent: Option<usize>, prio: isize) -> TaskModel {
    TaskModel {
        pid,
        status: TaskStatus::Ready,
        parent,
        children: Seq::empty(),
        exit_code: 0,
        areas: elf_space(image),
        heap_bottom: elf_stack_top(image) as u64,
        program_brk: elf_stack_top(image) as u64,
        fd_table: std_fds(),
        prio,
        trap_cx: TrapContext {
            a0: 0,
            sp: elf_stack_top(image) as usize,
            sepc: elf_entry(image) as usize,
        },
        syscall_count: Seq::new(MAX_SYSCALL_NUM as nat, |i: int| 0usize),
        image,
    }
}

/// The kernel state right after boot: one task per program, the first one
/// current (not started yet), the console files, an empty file system.
pub open spec fn boot_state(apps: Seq<Seq<u8>>) -> KernelModel {
    KernelModel {
        tasks: Seq::new(apps.len(), |i: int| Some(fresh_task(i as usize, apps[i], None, DEFAULT_PRIO))),
        current: 0,
        recycled: Seq::empty(),
        files: seq![File::Stdin, File::Stdout],
        fs: FsModel { inodes: Seq::empty(), entries: Seq::empty() },
        console_in: Seq::empty(),
        console_out: Seq::empty(),
    }
}

/// Whether the task with pid `p` is ready to run.
pub open spec fn ready_at(k: KernelModel, p: int) -> bool {
    live(k.tasks, p) && task_of(k.tasks, p).status == TaskStatus::Ready
}

/// The first ready task among the slots after the current one, going round
/// from the `j`-th one on (the current slot itself comes last).
pub open spec fn next_ready_from(k: KernelModel, j: int) -> Option<usize>
    decreases k.tasks.len() + 1 - j,
{
    if j < 1 || j > k.tasks.len() {
        None
    } else if ready_at(k, slot_after(k, j)) {
        Some(slot_after(k, j) as usize)
    } else {
        next_ready_from(k, j + 1)
    }
}

/// The slot `j` places after the current one, going round the table.
pub open spec fn slot_after(k: KernelModel, j: int) -> int {
    if k.current + j < k.tasks.len() {
        k.current + j
    } else {
        k.current + j - k.tasks.len()
    }
}

/// Switching to the next ready task keeps the state consistent.
pub proof fn lemma_wf_switch(k: KernelModel)
    requires
        sched_wf(k),
        next_ready(k) is Some,
    ensures
        kernel_wf(switch_to_next(k)),
        live(k.tasks, next_ready(k)->0 as int),
{
    lemma_next_ready_from(k, 1);
    let nx = next_ready(k)->0;
    let tm = TaskModel { status: TaskStatus::Running, ..task_of(k.tasks, nx as int) };
    assert(task_of(k.tasks, nx as int).pid == nx);
    lemma_wf_update_local(k, nx as int, tm);
    lemma_wf_set_current(with_task(k, nx as int, tm), nx);
    assert(switch_to_next(k) =~= KernelModel { current: nx, ..with_task(k, nx as int, tm) });
}

/// A consistent state stays consistent when another task becomes current.
pub proof fn lemma_wf_set_current(k: KernelModel, p: usize)
    requires
        sched_wf(k),
        live(k.tasks, p as int),
        task_of(k.tasks, p as int).status != TaskStatus::Zombie,
    ensures
        kernel_wf(KernelModel { current: p, ..k }),
{
    let k2 = KernelModel { current: p, ..k };
    assert(k2.tasks == k.tasks);
}

/// `find_next_task`: the first ready task after the current one, round robin.
pub open spec fn next_ready(k: KernelModel) -> Option<usize> {
    next_ready_from(k, 1)
}

/// `k` with the status of task `p` set to `st`.
pub open spec fn set_status(k: KernelModel, p: int, st: TaskStatus) -> KernelModel {
    with_task(k, p, TaskModel { status: st, ..task_of(k.tasks, p) })
}

/// `run_next_task`: the next ready task becomes current and runs.
pub open spec fn switch_to_next(k: KernelModel) -> KernelModel {
    let nx = next_ready(k)->0;
    KernelModel { current: nx, ..set_status(k, nx as int, TaskStatus::Running) }
}

/// The state after the current task yields: it becomes ready and the next
/// ready task runs.
pub open spec fn yielded(k: KernelModel) -> KernelModel {
    switch_to_next(set_status(k, k.current as int, TaskStatus::Ready))
}

pub proof fn lemma_next_ready_from(k: KernelModel, j: int)
    requires
        1 <= j <= k.tasks.len(),
        k.tasks.len() <= usize::MAX,
        k.current < k.tasks.len(),
    ensures
        next_ready_from(k, j) matches Some(q) ==> ready_at(k, q as int) && q < k.tasks.len(),
        (exists|i: int| j <= i <= k.tasks.len() && #[trigger] ready_at(k, slot_after(k, i)))
            ==> next_ready_from(k, j) is Some,
    decreases k.tasks.len() + 1 - j,
{
    let n = k.tasks.len() as int;
    if j < n {
        lemma_next_ready_from(k, j + 1);
    } else {
        assert(next_ready_from(k, j + 1) is None);
    }
    assert(0 <= slot_after(k, j) < n);
    if exists|i: int| j <= i <= n && #[trigger] ready_at(k, slot_after(k, i)) {
        let i = choose|i: int| j <= i <= n && #[trigger] ready_at(k, slot_after(k, i));
        if !ready_at(k, slot_after(k, j)) {
            assert(i != j);
            assert(j + 1 <= i);
        }
    }
}

/// The current task of a consistent state is consistent by itself.
pub proof fn lemma_cur_local(k: KernelModel)
    requires
        kernel_wf(k),
    ensures
        task_local_wf(cur(k), k.files.len() as int),
        cur(k).pid == k.current,
{
    assert(task_of(k.tasks, k.current as int).pid == k.current);
}

/// `k` with the current task replaced by `t`.
pub open spec fn with_cur(k: KernelModel, t: TaskModel) -> KernelModel {
    with_task(k, k.current as int, t)
}

/// `k` with the areas of the current task replaced by `s`.
pub open spec fn with_cur_areas(k: KernelModel, s: Seq<AreaModel>) -> KernelModel {
    with_cur(k, TaskModel { areas: s, ..cur(k) })
}

/// Per-task system-call counts of a new task.
pub open spec fn zero_counts() -> Seq<usize> {
    Seq::new(MAX_SYSCALL_NUM as nat, |i: int| 0usize)
}

impl TaskControlBlock {
    /// A freshly loaded program with pid `pid` running `image`.
    pub fn new(image: &Vec<u8>, pid: usize, parent: Option<usize>, prio: isize) -> (t: TaskControlBlock)
        requires
            elf_ok(image@),
        ensures
            t@ == fresh_task(pid, image@, parent, prio),
            task_local_wf(t@, 2),
    {
        let mut fd_table: Vec<Option<usize>> = Vec::new();
        fd_table.push(Some(0));
        fd_table.push(Some(1));
        fd_table.push(Some(1));
        let syscall_count = new_counts();
        let (memory_set, user_sp, entry) = MemorySet::from_elf(image);
        let t = TaskControlBlock {
            pid,
            status: TaskStatus::Ready,
            parent,
            children: Vec::new(),
            exit_code: 0,
            memory_set,
            heap_bottom: user_sp,
            program_brk: user_sp,
            fd_table,
            prio,
            trap_cx: TrapContext { a0: 0, sp: user_sp as usize, sepc: entry as usize },
            syscall_count,
            image: crate::mm::copy_bytes(image),
        };
        assert(t@.fd_table =~= std_fds());
        assert(t@.children =~= Seq::<usize>::empty());
        assert(t@ =~= fresh_task(pid, image@, parent, prio));
        t
    }
}

impl TaskManager {
    /// Boots the kernel with one task per program image; the first one is
    /// the initial process and the current task.
    pub fn new(apps: &Vec<Vec<u8>>) -> (k: TaskManager)
        requires
            1 <= apps.len() < usize::MAX,
            forall|i: int| 0 <= i < apps.len() ==> elf_ok(#[trigger] apps@[i]@),
        ensures
            k@ == boot_state(apps@.map_values(|a: Vec<u8>| a@)),
            kernel_wf(k@),
    {
        let ghost images = apps@.map_values(|a: Vec<u8>| a@);
        let mut tasks: Vec<Option<TaskControlBlock>> = Vec::new();
        let mut i: usize = 0;
        while i < apps.len()
            invariant
                i <= apps.len(),
                images == apps@.map_values(|a: Vec<u8>| a@),
                tasks@.len() == i,
                forall|j: int| 0 <= j < i ==> #[trigger] opt_view(tasks@[j]) == Some(
                    fresh_task(j as usize, images[j], None, DEFAULT_PRIO),
                ),
                forall|j: int|
                    0 <= j < i ==> task_local_wf(
                        #[trigger] fresh_task(j as usize, images[j], None, DEFAULT_PRIO),
                        2,
                    ),
                forall|j: int| 0 <= j < apps.len() ==> elf_ok(#[trigger] apps@[j]@),
            decreases apps.len() - i,
        {
            let t = TaskControlBlock::new(&apps[i], i, None, DEFAULT_PRIO);
            tasks.push(Some(t));
            i = i + 1;
        }
        let mut files: Vec<File> = Vec::new();
        files.push(File::Stdin);
        files.push(File::Stdout);
        let k = TaskManager {
            tasks,
            current: 0,
            recycled: Vec::new(),
            files,
            fs: FileSystem::new(),
            console_in: Vec::new(),
            console_out: Vec::new(),
        };
        proof {
            let b = boot_state(images);
            assert(k@.tasks =~= b.tasks);
            assert(k@.files =~= b.files);
            assert(k@ =~= b);
            let kk = k@;
            assert forall|p: int| live(kk.tasks, p) implies #[trigger] task_of(kk.tasks, p).pid == p && task_local_wf(
                task_of(kk.tasks, p),
                kk.files.len() as int,
            ) by {
                let t = task_of(kk.tasks, p);
                assert(t == fresh_task(p as usize, images[p], None, DEFAULT_PRIO));
                assert(task_local_wf(fresh_task(p as usize, images[p], None, DEFAULT_PRIO), 2));
                assert forall|f: int|
                    0 <= f < t.fd_table.len() && #[trigger] t.fd_table[f] is Some implies t.fd_table[f]->0
                        < kk.files.len() by {
                    assert(t.fd_table == std_fds());
                }
            }
        }
        k
    }
}

impl TaskManager {
    /// Takes the task with pid `p` out of its slot, leaving the slot empty.
    pub fn take_task(&mut self, p: usize) -> (t: TaskControlBlock)
        requires
            live(old(self)@.tasks, p as int),
        ensures
            t@ == task_of(old(self)@.tasks, p as int),
            final(self)@ == (KernelModel {
                tasks: old(self)@.tasks.update(p as int, None),
                ..old(self)@
            }),
    {
        let ghost old_k = self@;
        let t = self.tasks[p].take();
        assert(self@.tasks =~= old_k.tasks.update(p as int, None));
        t.unwrap()
    }

    /// Puts task `t` into slot `p`.
    pub fn put_task(&mut self, p: usize, t: TaskControlBlock)
        requires
            p < old(self)@.tasks.len(),
        ensures
            final(self)@ == (KernelModel {
                tasks: old(self)@.tasks.update(p as int, Some(t@)),
                ..old(self)@
            }),
    {
        let ghost old_k = self@;
        let ghost tv = t@;
        self.tasks.set(p, Some(t));
        assert(self@.tasks =~= old_k.tasks.update(p as int, Some(tv)));
    }
}

impl TaskManager {
    /// `find_next_task`: the first ready task after the current one, going
    /// round the task table.
    pub fn find_next_task(&self) -> (r: Option<usize>)
        requires
            sched_wf(self@),
        ensures
            r == next_ready(self@),
    {
        let n = self.tasks.len();
        let cur = self.current;
        let mut j: usize = 1;
        let mut idx: usize = if cur + 1 == n { 0 } else { cur + 1 };
        while j <= n
            invariant
                1 <= j <= n + 1,
                n == self.tasks.len(),
                n == self@.tasks.len(),
                cur == self.current,
                cur < n,
                n < usize::MAX,
                j <= n ==> idx == slot_after(self@, j as int),
                next_ready_from(self@, j as int) == next_ready(self@),
            decreases n + 1 - j,
        {
            let ready = match &self.tasks[idx] {
                Some(t) => t.status == TaskStatus::Ready,
                None => false,
            };
            assert(ready == ready_at(self@, idx as int));
            if ready {
                return Some(idx);
            }
            idx = if idx + 1 == n { 0 } else { idx + 1 };
            j = j + 1;
        }
        None
    }

    /// `run_next_task`: the next ready task becomes the running, current one.
    pub fn run_next_task(&mut self)
        requires
            sched_wf(old(self)@),
            next_ready(old(self)@) is Some,
        ensures
            final(self)@ == switch_to_next(old(self)@),
            kernel_wf(final(self)@),
    {
        let ghost old_k = self@;
        proof {
            lemma_next_ready_from(old_k, 1);
        }
        let next = self.find_next_task().unwrap();
        let mut t = self.take_task(next);
        t.status = TaskStatus::Running;
        self.put_task(next, t);
        self.current = next;
        proof {
            let tm = TaskModel { status: TaskStatus::Running, ..task_of(old_k.tasks, next as int) };
            lemma_wf_update_local(old_k, next as int, tm);
            lemma_wf_set_current(with_task(old_k, next as int, tm), next);
            assert(self@ =~= switch_to_next(old_k));
        }
    }

    /// `run_first_task`: the first task in the table runs.
    pub fn run_first_task(&mut self)
        requires
            kernel_wf(old(self)@),
        ensures
            final(self)@ == (KernelModel {
                current: 0,
                ..set_status(old(self)@, 0, TaskStatus::Running)
            }),
            kernel_wf(final(self)@),
    {
        let ghost old_k = self@;
        let mut t = self.take_task(0);
        t.status = TaskStatus::Running;
        self.put_task(0, t);
        self.current = 0;
        proof {
            let tm = TaskModel { status: TaskStatus::Running, ..task_of(old_k.tasks, 0) };
            lemma_wf_update_local(old_k, 0, tm);
            lemma_wf_set_current(with_task(old_k, 0, tm), 0);
            assert(self@ =~= (KernelModel { current: 0, ..set_status(old_k, 0, TaskStatus::Running) }));
        }
    }

    /// `mark_current_exited`: the current task becomes a zombie; some other
    /// task has to be made current next. The table stays consistent when the
    /// task is not the initial one and has no children left.
    pub fn mark_current_exited(&mut self)
        requires
            kernel_wf(old(self)@),
        ensures
            final(self)@ == set_status(old(self)@, old(self)@.current as int, TaskStatus::Zombie),
            old(self)@.current != INITPROC_PID && cur(old(self)@).children.len() == 0 ==> sched_wf(
                final(self)@,
            ),
    {
        let ghost old_k = self@;
        let cur_pid = self.current;
        let mut t = self.take_task(cur_pid);
        t.status = TaskStatus::Zombie;
        self.put_task(cur_pid, t);
        proof {
            let tm = TaskModel { status: TaskStatus::Zombie, ..task_of(old_k.tasks, cur_pid as int) };
            assert(self@ =~= set_status(old_k, cur_pid as int, TaskStatus::Zombie));
            if cur_pid != INITPROC_PID && cur(old_k).children.len() == 0 {
                lemma_cur_local(old_k);
                lemma_wf_update_local(old_k, cur_pid as int, tm);
            }
        }
    }

    /// `mark_current_suspended`: the current task becomes ready.
    pub fn mark_current_suspended(&mut self)
        requires
            kernel_wf(old(self)@),
        ensures
            final(self)@ == set_status(old(self)@, old(self)@.current as int, TaskStatus::Ready),
            kernel_wf(final(self)@),
    {
        let ghost old_k = self@;
        let cur = self.current;
        let mut t = self.take_task(cur);
        t.status = TaskStatus::Ready;
        self.put_task(cur, t);
        proof {
            let tm = TaskModel { status: TaskStatus::Ready, ..task_of(old_k.tasks, cur as int) };
            lemma_wf_update_local(old_k, cur as int, tm);
            assert(self@ =~= set_status(old_k, cur as int, TaskStatus::Ready));
        }
    }
}

/// Runs the first task in the task table.
pub fn run_first_task(k: &mut TaskManager)
    requires
        kernel_wf(old(k)@),
    ensures
        final(k)@ == (KernelModel { current: 0, ..set_status(old(k)@, 0, TaskStatus::Running) }),
        kernel_wf(final(k)@),
{
    k.run_first_task();
}

/// Suspends the current task and runs the next ready one (which may be the
/// same task again, when no other is ready).
pub fn suspend_current_and_run_next(k: &mut TaskManager)
    requires
        kernel_wf(old(k)@),
    ensures
        final(k)@ == yielded(old(k)@),
        kernel_wf(final(k)@),
{
    let ghost old_k = k@;
    k.mark_current_suspended();
    proof {
        let k1 = k@;
        let n = k1.tasks.len() as int;
        assert(slot_after(k1, n) == k1.current);
        assert(ready_at(k1, slot_after(k1, n)));
        lemma_next_ready_from(k1, 1);
    }
    k.run_next_task();
}



impl TaskManager {
    /// The task that runs.
    pub fn current_task(&self) -> (t: &TaskControlBlock)
        requires
            kernel_wf(self@),
        ensures
            t@ == cur(self@),
    {
        match &self.tasks[self.current] {
            Some(t) => t,
            None => vstd::pervasive::unreached(),
        }
    }

    /// `get_syscall_count`: how often the current task made system call `syscall_id`.
    pub fn get_syscall_count(&self, syscall_id: usize) -> (n: usize)
        requires
            kernel_wf(self@),
            syscall_id < MAX_SYSCALL_NUM,
        ensures
            n == cur(self@).syscall_count[syscall_id as int],
    {
        let t = self.current_task();
        proof { lemma_cur_local(self@); }
        t.syscall_count[syscall_id]
    }

    /// `inc_syscall_count`: counts one more use of system call `syscall_id`
    /// by the current task.
    pub fn inc_syscall_count(&mut self, syscall_id: usize)
        requires
            kernel_wf(old(self)@),
            syscall_id < MAX_SYSCALL_NUM,
            cur(old(self)@).syscall_count[syscall_id as int] < usize::MAX,
        ensures
            kernel_wf(final(self)@),
            final(self)@ == with_cur(
                old(self)@,
                TaskModel {
                    syscall_count: cur(old(self)@).syscall_count.update(
                        syscall_id as int,
                        (cur(old(self)@).syscall_count[syscall_id as int] + 1) as usize,
                    ),
                    ..cur(old(self)@)
                },
            ),
    {
        let ghost old_k = self@;
        let c = self.current;
        let mut t = self.take_task(c);
        proof { lemma_cur_local(old_k); }
        let n = t.syscall_count[syscall_id];
        t.syscall_count.set(syscall_id, n + 1);
        self.put_task(c, t);
        proof {
            let tm = TaskModel {
                syscall_count: cur(old_k).syscall_count.update(syscall_id as int, (n + 1) as usize),
                ..cur(old_k)
            };
            assert(self@.tasks =~= old_k.tasks.update(c as int, Some(tm)));
            lemma_wf_update_local(old_k, c as int, tm);
            assert(self@ =~= with_cur(old_k, tm));
        }
    }
}

/// Fresh system-call counts.
pub fn new_counts() -> (v: Vec<usize>)
    ensures
        v@ == zero_counts(),
{
    let mut v: Vec<usize> = Vec::new();
    let mut i: usize = 0;
    while i < MAX_SYSCALL_NUM
        invariant
            i <= MAX_SYSCALL_NUM,
            v@ == Seq::new(i as nat, |j: int| 0usize),
        decreases MAX_SYSCALL_NUM - i,
    {
        v.push(0);
        i = i + 1;
        assert(v@ =~= Seq::new(i as nat, |j: int| 0usize));
    }
    v
}

/// Ends the current task with `exit_code` and runs the next ready task.
pub fn exit_current_and_run_next(k: &mut TaskManager, exit_code: i32)
    requires
        kernel_wf(old(k)@),
        old(k)@.current != INITPROC_PID,
        other_ready(old(k)@),
    ensures
        final(k)@ == exited(old(k)@, exit_code),
        kernel_wf(final(k)@),
{
    k.exit_current_and_run_next(exit_code);
}

/// The registers of the current task.
pub fn current_trap_cx(k: &TaskManager) -> (cx: TrapContext)
    requires
        kernel_wf(k@),
    ensures
        cx == cur(k@).trap_cx,
{
    k.current_task().trap_cx
}

/// Moves the current task's program break by `size` bytes; gives the old
/// break, or `None`.
pub fn change_program_brk(k: &mut TaskManager, size: i32) -> (r: Option<usize>)
    requires
        kernel_wf(old(k)@),
        brk_ok(cur(old(k)@), size),
    ensures
        kernel_wf(final(k)@),
        if brk_moves(cur(old(k)@), size) {
            &&& r == Some(cur(old(k)@).program_brk as usize)
            &&& final(k)@ == with_cur(old(k)@, brk_moved(cur(old(k)@), size))
        } else {
            &&& r is None
            &&& final(k)@ == old(k)@
        },
{
    k.change_current_program_brk(size)
}

/// Reads the byte at `va` of the current task, or -1.
pub fn read_from_va(k: &TaskManager, va: usize) -> (r: isize)
    requires
        kernel_wf(k@),
    ensures
        r == read_va_result(cur(k@).areas, va as int),
{
    k.read_from_va(va)
}

/// Writes `data` at `va` of the current task; 0, or -1.
pub fn write_to_va(k: &mut TaskManager, va: usize, data: u8) -> (r: isize)
    requires
        kernel_wf(old(k)@),
    ensures
        kernel_wf(final(k)@),
        if user_writable(cur(old(k)@).areas, va as int) {
            &&& r == 0
            &&& final(k)@ == with_cur_areas(old(k)@, with_byte(cur(old(k)@).areas, va as int, data))
        } else {
            &&& r == -1
            &&& final(k)@ == old(k)@
        },
{
    k.write_to_va(va, data)
}

/// Writes the bytes of a value at `va` of the current task; 0, or -1.
pub fn write_to_va_timeval(k: &mut TaskManager, va: usize, data: &Vec<u8>) -> (r: isize)
    requires
        kernel_wf(old(k)@),
        timeval_write_ok(cur(old(k)@).areas, va as int, data.len() as int),
    ensures
        kernel_wf(final(k)@),
        r == timeval_write(cur(old(k)@).areas, va as int, data@).0,
        final(k)@ == with_cur_areas(old(k)@, timeval_write(cur(old(k)@).areas, va as int, data@).1),
{
    k.write_to_va_timeval(va, data)
}

/// Maps `start .. start + len` of the current task with the rights of `port`; 0, or -1.
pub fn map_len_to_start(k: &mut TaskManager, start: usize, len: usize, port: usize) -> (r: isize)
    requires
        kernel_wf(old(k)@),
        start + len + PAGE_SIZE <= usize::MAX,
        pages_free_from(cur(old(k)@).areas, start as int, len as int) ==> map_insert_ok(
            cur(old(k)@).areas,
            start as int,
            len as int,
        ),
    ensures
        kernel_wf(final(k)@),
        if pages_free_from(cur(old(k)@).areas, start as int, len as int) {
            &&& r == 0
            &&& final(k)@ == with_cur_areas(
                old(k)@,
                mapped_result(cur(old(k)@).areas, start as int, len as int, port),
            )
        } else {
            &&& r == -1
            &&& final(k)@ == old(k)@
        },
{
    k.map_len_to_start(start, len, port)
}

/// Cuts back the area of the current task that starts at `start`, after
/// checking that `start .. start + len` is mapped; 0, or -1.
pub fn unmap_len_to_start(k: &mut TaskManager, start: usize, len: usize) -> (r: isize)
    requires
        kernel_wf(old(k)@),
        start + len + PAGE_SIZE <= usize::MAX,
        pages_mapped_from(cur(old(k)@).areas, start as int, len as int) ==> shrink_ok(
            cur(old(k)@).areas,
            unmap_va(start as int),
            unmap_va(start as int),
        ),
    ensures
        kernel_wf(final(k)@),
        if pages_mapped_from(cur(old(k)@).areas, start as int, len as int) {
            &&& r == 0
            &&& final(k)@ == with_cur_areas(
                old(k)@,
                shrink_result(cur(old(k)@).areas, unmap_va(start as int), unmap_va(start as int)),
            )
        } else {
            &&& r == -1
            &&& final(k)@ == old(k)@
        },
{
    k.unmap_len_to_start(start, len)
}

/// How often the current task made system call `syscall_id`.
pub fn syscall_count_get(k: &TaskManager, syscall_id: usize) -> (n: usize)
    requires
        kernel_wf(k@),
        syscall_id < MAX_SYSCALL_NUM,
    ensures
        n == cur(k@).syscall_count[syscall_id as int],
{
    k.get_syscall_count(syscall_id)
}

/// Counts one more use of system call `syscall_id` by the current task.
pub fn syscall_count_inc(k: &mut TaskManager, syscall_id: usize)
    requires
        kernel_wf(old(k)@),
        syscall_id < MAX_SYSCALL_NUM,
        cur(old(k)@).syscall_count[syscall_id as int] < usize::MAX,
    ensures
        kernel_wf(final(k)@),
        final(k)@ == with_cur(
            old(k)@,
            TaskModel {
                syscall_count: cur(old(k)@).syscall_count.update(
                    syscall_id as int,
                    (cur(old(k)@).syscall_count[syscall_id as int] + 1) as usize,
                ),
                ..cur(old(k)@)
            },
        ),
{
    k.inc_syscall_count(syscall_id)
}

} // verus!
