//! The current task's descriptor table: opening a file on the lowest free
//! descriptor, closing a descriptor and looking one up.

use vstd::prelude::*;

use crate::fs::{File, FsModel, fs_wf};
use super::{
    KernelModel, TaskManager, TaskModel, TaskStatus, cur, kernel_wf, lemma_cur_local,
    lemma_wf_update_local, live, task_local_wf, task_of, with_cur, with_task,
};

verus! {

/// The first free descriptor slot at or after `i` (the table's length when
/// there is none).
pub open spec fn free_fd_from(fds: Seq<Option<usize>>, i: int) -> int
    decreases fds.len() - i,
{
    if i >= fds.len() {
        fds.len() as int
    } else if fds[i] is None {
        i
    } else {
        free_fd_from(fds, i + 1)
    }
}

/// `alloc_fd`: the lowest free descriptor (a new one past the end when none is free).
pub open spec fn free_fd(fds: Seq<Option<usize>>) -> int {
    free_fd_from(fds, 0)
}

/// The descriptor table after descriptor `free_fd(fds)` got open file `f`.
pub open spec fn fds_with(fds: Seq<Option<usize>>, f: usize) -> Seq<Option<usize>> {
    if free_fd(fds) < fds.len() {
        fds.update(free_fd(fds), Some(f))
    } else {
        fds.push(Some(f))
    }
}

/// The state after the current task opened `file` on its lowest free descriptor.
pub open spec fn opened(k: KernelModel, file: File) -> KernelModel {
    KernelModel {
        files: k.files.push(file),
        ..with_cur(k, TaskModel { fd_table: fds_with(cur(k).fd_table, k.files.len() as usize), ..cur(k) })
    }
}

/// Whether open file `f` refers to an inode of `fs`, if to any.
pub open spec fn file_ok(f: File, fs: FsModel) -> bool {
    match f {
        File::OSInode { inode, .. } => inode < fs.inodes.len(),
        _ => true,
    }
}

pub proof fn lemma_free_fd_from(fds: Seq<Option<usize>>, i: int)
    requires
        0 <= i <= fds.len(),
    ensures
        i <= free_fd_from(fds, i) <= fds.len(),
        free_fd_from(fds, i) < fds.len() ==> fds[free_fd_from(fds, i)] is None,
    decreases fds.len() - i,
{
    if i < fds.len() {
        lemma_free_fd_from(fds, i + 1);
    }
}

pub proof fn lemma_wf_opened(k: KernelModel, file: File)
    requires
        kernel_wf(k),
        file_ok(file, k.fs),
        k.files.len() < usize::MAX,
        cur(k).fd_table.len() < usize::MAX,
    ensures
        kernel_wf(opened(k, file)),
{
    let k2 = opened(k, file);
    let c = k.current as int;
    let ts = k.tasks;
    let ts2 = k2.tasks;
    lemma_cur_local(k);
    lemma_free_fd_from(cur(k).fd_table, 0);
    let tm = TaskModel { fd_table: fds_with(cur(k).fd_table, k.files.len() as usize), ..cur(k) };
    assert(task_local_wf(tm, k2.files.len() as int)) by {
        let fds = tm.fd_table;
        assert forall|i: int| 0 <= i < fds.len() && #[trigger] fds[i] is Some implies fds[i]->0 < k2.files.len() by {
            if i < cur(k).fd_table.len() && cur(k).fd_table[i] is Some && i != free_fd(cur(k).fd_table) {
                assert(cur(k).fd_table[i]->0 < k.files.len());
            }
        }
    }
    assert forall|q: int| live(ts2, q) implies #[trigger] task_of(ts2, q).pid == q && task_local_wf(
        task_of(ts2, q),
        k2.files.len() as int,
    ) by {
        assert(live(ts, q));
        assert(task_of(ts, q).pid == q);
        if q != c {
            let t = task_of(ts, q);
            assert(task_local_wf(t, k.files.len() as int));
            assert forall|i: int| 0 <= i < t.fd_table.len() && #[trigger] t.fd_table[i] is Some implies t.fd_table[i]->0
                < k2.files.len() by {}
        }
    }
    assert forall|q: int, x: usize|
        live(ts2, q) && #[trigger] task_of(ts2, q).children.contains(x) implies live(ts2, x as int)
            && task_of(ts2, x as int).parent == Some(q as usize) by {
        assert(live(ts, q));
        assert(task_of(ts, q).children.contains(x));
    }
    assert forall|x: int| live(ts2, x) && #[trigger] task_of(ts2, x).parent is Some implies live(
        ts2,
        task_of(ts2, x).parent->0 as int,
    ) && task_of(ts2, task_of(ts2, x).parent->0 as int).children.contains(x as usize) by {
        assert(live(ts, x));
        assert(task_of(ts, x).parent is Some);
    }
    assert forall|q: int| live(ts2, q) implies #[trigger] task_of(ts2, q).children.no_duplicates() by {
        assert(live(ts, q));
        assert(task_of(ts, q).children.no_duplicates());
    }
    assert forall|q: int| live(ts2, q) implies #[trigger] task_of(ts2, q).parent != Some(q as usize) by {
        assert(live(ts, q));
        assert(task_of(ts, q).parent != Some(q as usize));
    }
    assert forall|q: int|
        live(ts2, q) && #[trigger] task_of(ts2, q).status == TaskStatus::Zombie implies task_of(
            ts2,
            q,
        ).children.len() == 0 by {
        assert(live(ts, q));
        assert(task_of(ts, q).status == TaskStatus::Zombie);
    }
    assert forall|i: int| 0 <= i < k2.recycled.len() implies #[trigger] k2.recycled[i] < ts2.len()
        && ts2[k2.recycled[i] as int] is None by {
        assert(k.recycled[i] < ts.len() && ts[k.recycled[i] as int] is None);
    }
    assert forall|f: int| 0 <= f < k2.files.len() implies match #[trigger] k2.files[f] {
        File::OSInode { inode, .. } => inode < k2.fs.inodes.len(),
        _ => true,
    } by {
        if f < k.files.len() {
            assert(k2.files[f] == k.files[f]);
        }
    }
}

/// A consistent state stays consistent when the file system changes in a
/// consistent way without losing inodes.
pub proof fn lemma_wf_fs(k: KernelModel, fs: FsModel)
    requires
        kernel_wf(k),
        fs_wf(fs),
        fs.inodes.len() >= k.fs.inodes.len(),
    ensures
        kernel_wf(KernelModel { fs, ..k }),
{
    let k2 = KernelModel { fs, ..k };
    assert forall|f: int| 0 <= f < k2.files.len() implies match #[trigger] k2.files[f] {
        File::OSInode { inode, .. } => inode < k2.fs.inodes.len(),
        _ => true,
    } by {
        assert(k2.files[f] == k.files[f]);
    }
}

/// A consistent state stays consistent when an open file is replaced by one
/// of the same inode.
pub proof fn lemma_wf_set_file(k: KernelModel, idx: int, f: File)
    requires
        kernel_wf(k),
        0 <= idx < k.files.len(),
        idx >= 2,
        file_ok(f, k.fs),
    ensures
        kernel_wf(KernelModel { files: k.files.update(idx, f), ..k }),
{
    let k2 = KernelModel { files: k.files.update(idx, f), ..k };
    let ts = k.tasks;
    assert forall|q: int| live(ts, q) implies #[trigger] task_of(ts, q).pid == q && task_local_wf(
        task_of(ts, q),
        k2.files.len() as int,
    ) by {
        assert(task_of(ts, q).pid == q);
    }
    assert forall|g: int| 0 <= g < k2.files.len() implies match #[trigger] k2.files[g] {
        File::OSInode { inode, .. } => inode < k2.fs.inodes.len(),
        _ => true,
    } by {
        if g != idx {
            assert(k2.files[g] == k.files[g]);
        }
    }
}

impl TaskManager {
    /// Opens `file` for the current task on its lowest free descriptor;
    /// gives that descriptor.
    pub fn install_file(&mut self, file: File) -> (fd: usize)
        requires
            kernel_wf(old(self)@),
            file_ok(file, old(self)@.fs),
            old(self)@.files.len() < usize::MAX,
            cur(old(self)@).fd_table.len() < usize::MAX,
        ensures
            fd == free_fd(cur(old(self)@).fd_table),
            final(self)@ == opened(old(self)@, file),
            kernel_wf(final(self)@),
    {
        let ghost old_k = self@;
        proof {
            lemma_wf_opened(old_k, file);
            lemma_free_fd_from(cur(old_k).fd_table, 0);
        }
        let idx = self.files.len();
        self.files.push(file);
        let c = self.current;
        let mut t = self.take_task(c);
        let mut fd: usize = 0;
        while fd < t.fd_table.len()
            invariant
                fd <= t.fd_table.len(),
                t@ == cur(old_k),
                free_fd_from(t@.fd_table, fd as int) == free_fd(t@.fd_table),
            ensures
                fd <= t.fd_table.len(),
                t@ == cur(old_k),
                free_fd_from(t@.fd_table, fd as int) == free_fd(t@.fd_table),
                fd < t.fd_table.len() ==> t@.fd_table[fd as int] is None,
            decreases t.fd_table.len() - fd,
        {
            if t.fd_table[fd].is_none() {
                break;
            }
            fd = fd + 1;
        }
        if fd == t.fd_table.len() {
            t.fd_table.push(Some(idx));
        } else {
            t.fd_table.set(fd, Some(idx));
        }
        self.put_task(c, t);
        proof {
            assert(fd == free_fd(cur(old_k).fd_table));
            assert(t@.fd_table =~= fds_with(cur(old_k).fd_table, idx));
            assert(self@.files =~= old_k.files.push(file));
            assert(self@.tasks =~= opened(old_k, file).tasks);
            assert(self@ =~= opened(old_k, file));
        }
        fd
    }

    /// Closes descriptor `fd` of the current task.
    pub fn clear_fd(&mut self, fd: usize)
        requires
            kernel_wf(old(self)@),
            fd < cur(old(self)@).fd_table.len(),
        ensures
            final(self)@ == with_cur(
                old(self)@,
                TaskModel { fd_table: cur(old(self)@).fd_table.update(fd as int, None), ..cur(old(self)@) },
            ),
            kernel_wf(final(self)@),
    {
        let ghost old_k = self@;
        proof {
            lemma_cur_local(old_k);
        }
        let c = self.current;
        let mut t = self.take_task(c);
        t.fd_table.set(fd, None);
        self.put_task(c, t);
        proof {
            let tm = TaskModel { fd_table: cur(old_k).fd_table.update(fd as int, None), ..cur(old_k) };
            assert(t@ =~= tm);
            assert(task_local_wf(tm, old_k.files.len() as int)) by {
                assert forall|i: int| 0 <= i < tm.fd_table.len() && #[trigger] tm.fd_table[i] is Some implies tm.fd_table[i]->0
                    < old_k.files.len() by {
                    assert(cur(old_k).fd_table[i] is Some);
                }
            }
            lemma_wf_update_local(old_k, c as int, tm);
            assert(self@ =~= with_task(old_k, c as int, tm));
        }
    }

    /// The open file behind descriptor `fd` of the current task, if any:
    /// its index in the open-file table.
    pub fn fd_file(&self, fd: usize) -> (r: Option<usize>)
        requires
            kernel_wf(self@),
        ensures
            r == (if fd < cur(self@).fd_table.len() {
                cur(self@).fd_table[fd as int]
            } else {
                None
            }),
            r matches Some(i) ==> i < self@.files.len(),
    {
        proof {
            lemma_cur_local(self@);
        }
        let t = self.current_task();
        if fd >= t.fd_table.len() {
            return None;
        }
        assert(t@.fd_table[fd as int] is Some ==> t@.fd_table[fd as int]->0 < self@.files.len());
        match t.fd_table[fd] {
            Some(i) => Some(i),
            None => None,
        }
    }
}

} // verus!
