//! File and file-system system calls.
use vstd::prelude::*;

use crate::fs::{
    first_entry, flags_read_write, flags_valid, link_count, lookup, open_effect,
    read_bytes, read_write, written, EntryModel, File, FsModel, Stat, S_IFREG,
};
use crate::mm::{le_bytes, push_le};
use crate::task::{
    KernelModel, TaskManager, TaskModel, cur, kernel_wf, lemma_cur_local, with_cur, with_cur_areas,
};
use crate::task::files::{file_ok, free_fd, lemma_wf_fs, lemma_wf_set_file, opened};
use crate::task::memory::{cstr_ok, user_buf_ok, user_bytes, user_cstr, user_written};

verus! {

/// The open file behind descriptor `fd` of the current task, if any.
pub open spec fn fd_target(k: KernelModel, fd: usize) -> Option<usize> {
    if fd < cur(k).fd_table.len() {
        cur(k).fd_table[fd as int]
    } else {
        None
    }
}

/// The open file that `write(fd, ..)` writes to: the one behind `fd`, if
/// it is writable.
pub open spec fn write_target(k: KernelModel, fd: usize) -> Option<usize> {
    match fd_target(k, fd) {
        Some(i) => if k.files[i as int].spec_writable() {
            Some(i)
        } else {
            None
        },
        None => None,
    }
}

/// The open file that `read(fd, ..)` reads from: the one behind `fd`, if
/// it is readable.
pub open spec fn read_target(k: KernelModel, fd: usize) -> Option<usize> {
    match fd_target(k, fd) {
        Some(i) => if k.files[i as int].spec_readable() {
            Some(i)
        } else {
            None
        },
        None => None,
    }
}

/// Whether `sys_write(fd, buf, len)` can run: when it writes, the user
/// buffer is mapped, and a file's offset does not overflow.
pub open spec fn sys_write_ok(k: KernelModel, fd: usize, buf: usize, len: usize) -> bool {
    match write_target(k, fd) {
        Some(i) => {
            &&& user_buf_ok(cur(k).areas, buf as int, len as int)
            &&& match k.files[i as int] {
                File::OSInode { offset, .. } => offset + len <= usize::MAX,
                _ => true,
            }
        },
        None => true,
    }
}

/// What `sys_write(fd, buf, len)` does: the `len` bytes at `buf` go to the
/// console, or into the file at its offset, which moves past them.
pub open spec fn sys_write_effect(k: KernelModel, fd: usize, buf: usize, len: usize) -> (isize, KernelModel) {
    let data = user_bytes(cur(k).areas, buf as int, len as nat);
    match write_target(k, fd) {
        Some(i) => match k.files[i as int] {
            File::Stdout => (len as isize, KernelModel { console_out: k.console_out + data, ..k }),
            File::OSInode { inode, offset, readable, writable } => (
                len as isize,
                KernelModel {
                    fs: FsModel {
                        inodes: k.fs.inodes.update(
                            inode as int,
                            written(k.fs.inodes[inode as int], offset as int, data),
                        ),
                        ..k.fs
                    },
                    files: k.files.update(
                        i as int,
                        File::OSInode { inode, offset: (offset + len) as usize, readable, writable },
                    ),
                    ..k
                },
            ),
            File::Stdin => (-1isize, k),
        },
        None => (-1isize, k),
    }
}

/// Writes `len` bytes from user address `buf` to descriptor `fd`; gives the
/// number of bytes written, or -1 when `fd` is not open for writing.
pub fn sys_write(k: &mut TaskManager, fd: usize, buf: usize, len: usize) -> (r: isize)
    requires
        kernel_wf(old(k)@),
        sys_write_ok(old(k)@, fd, buf, len),
    ensures
        kernel_wf(final(k)@),
        (r, final(k)@) == sys_write_effect(old(k)@, fd, buf, len),
{
    let ghost old_k = k@;
    let i = match k.fd_file(fd) {
        Some(i) => i,
        None => return -1,
    };
    let file = k.files[i];
    if !file.writable() {
        return -1;
    }
    let data = k.read_user_buf(buf, len);
    match file {
        File::Stdout => {
            let mut d = data;
            k.console_out.append(&mut d);
            assert(k@ =~= sys_write_effect(old_k, fd, buf, len).1);
            len as isize
        },
        File::OSInode { inode, offset, readable, writable } => {
            proof {
                assert(file_ok(k@.files[i as int], k@.fs));
            }
            k.fs.write_at(inode, offset, &data);
            proof {
                lemma_wf_fs(old_k, k@.fs);
            }
            let ghost k1 = k@;
            proof {
                assert(i >= 2) by {
                    assert(old_k.files[0] == File::Stdin);
                    assert(old_k.files[1] == File::Stdout);
                }
            }
            let nf = File::OSInode { inode, offset: offset + len, readable, writable };
            k.files.set(i, nf);
            proof {
                lemma_wf_set_file(k1, i as int, nf);
                assert(k@ =~= sys_write_effect(old_k, fd, buf, len).1);
            }
            len as isize
        },
        File::Stdin => -1,
    }
}

/// Whether `sys_read(fd, buf, len)` can run: reading the console takes a
/// one-byte buffer and waits for input, which must be there; any read
/// needs the user buffer mapped.
pub open spec fn sys_read_ok(k: KernelModel, fd: usize, buf: usize, len: usize) -> bool {
    match read_target(k, fd) {
        Some(i) => {
            &&& user_buf_ok(cur(k).areas, buf as int, len as int)
            &&& k.files[i as int] == File::Stdin ==> len == 1 && k.console_in.len() > 0
        },
        None => true,
    }
}

/// What `sys_read(fd, buf, len)` does: the console gives its next input
/// byte; a file gives up to `len` bytes from its offset, which moves past
/// them; the bytes land at `buf`.
pub open spec fn sys_read_effect(k: KernelModel, fd: usize, buf: usize, len: usize) -> (isize, KernelModel) {
    match read_target(k, fd) {
        Some(i) => match k.files[i as int] {
            File::Stdin => (
                1isize,
                KernelModel {
                    console_in: k.console_in.drop_first(),
                    ..with_cur_areas(k, user_written(cur(k).areas, buf as int, seq![k.console_in[0]]))
                },
            ),
            File::OSInode { inode, offset, readable, writable } => {
                let data = read_bytes(k.fs.inodes[inode as int], offset as int, len as int);
                (
                    data.len() as isize,
                    KernelModel {
                        files: k.files.update(
                            i as int,
                            File::OSInode { inode, offset: (offset + data.len()) as usize, readable, writable },
                        ),
                        ..with_cur_areas(k, user_written(cur(k).areas, buf as int, data))
                    },
                )
            },
            File::Stdout => (-1isize, k),
        },
        None => (-1isize, k),
    }
}

/// Reads up to `len` bytes from descriptor `fd` into user address `buf`;
/// gives the number of bytes read, or -1 when `fd` is not open for reading.
pub fn sys_read(k: &mut TaskManager, fd: usize, buf: usize, len: usize) -> (r: isize)
    requires
        kernel_wf(old(k)@),
        sys_read_ok(old(k)@, fd, buf, len),
    ensures
        kernel_wf(final(k)@),
        (r, final(k)@) == sys_read_effect(old(k)@, fd, buf, len),
{
    let ghost old_k = k@;
    let i = match k.fd_file(fd) {
        Some(i) => i,
        None => return -1,
    };
    let file = k.files[i];
    if !file.readable() {
        return -1;
    }
    match file {
        File::Stdin => {
            let c = k.console_in.remove(0);
            let mut v: Vec<u8> = Vec::new();
            v.push(c);
            assert(v@ =~= seq![old_k.console_in[0]]);
            k.write_user_buf(buf, &v);
            assert(k@ =~= sys_read_effect(old_k, fd, buf, len).1);
            1
        },
        File::OSInode { inode, offset, readable, writable } => {
            proof {
                assert(file_ok(k@.files[i as int], k@.fs));
                assert(i >= 2) by {
                    assert(old_k.files[0] == File::Stdin);
                    assert(old_k.files[1] == File::Stdout);
                }
            }
            let flen = k.fs.inodes[inode].data.len();
            assert(flen == k@.fs.inodes[inode as int].len());
            let data = k.fs.read_at(inode, offset, len);
            proof {
                lemma_cur_local(old_k);
                assert(crate::mm::bytes_mapped(
                    cur(old_k).areas,
                    crate::mm::va_mask(buf as int),
                    data@.len() as int,
                ));
            }
            k.write_user_buf(buf, &data);
            let ghost k1 = k@;
            let n = data.len();
            let nf = File::OSInode { inode, offset: offset + n, readable, writable };
            k.files.set(i, nf);
            proof {
                lemma_wf_set_file(k1, i as int, nf);
                assert(k@ =~= sys_read_effect(old_k, fd, buf, len).1);
            }
            n as isize
        },
        File::Stdout => -1,
    }
}

/// Whether `sys_open(path, flags)` can run: the path is a terminated
/// string in mapped memory, the flags are known ones, and the tables have
/// room.
pub open spec fn sys_open_ok(k: KernelModel, path: usize, flags: u32) -> bool {
    &&& cstr_ok(cur(k).areas, path as int)
    &&& flags_valid(flags)
    &&& k.fs.inodes.len() < usize::MAX
    &&& k.files.len() < usize::MAX
    &&& cur(k).fd_table.len() < usize::MAX
}

/// What `sys_open(path, flags)` does: opens (creating or emptying as the
/// flags say) the file named by the string at `path`, on the lowest free
/// descriptor, with the rights the flags give; -1 when there is no such
/// file and `CREATE` is not asked for.
pub open spec fn sys_open_effect(k: KernelModel, path: usize, flags: u32) -> (isize, KernelModel) {
    let name = user_cstr(cur(k).areas, path as int);
    match open_effect(k.fs, name, flags) {
        Some((ino, fs)) => {
            let (r, w) = flags_read_write(flags);
            (
                free_fd(cur(k).fd_table) as isize,
                opened(
                    KernelModel { fs, ..k },
                    File::OSInode { inode: ino, offset: 0, readable: r, writable: w },
                ),
            )
        },
        None => (-1isize, k),
    }
}

/// Opens the file named by the string at user address `path`; gives the
/// new descriptor, or -1.
pub fn sys_open(k: &mut TaskManager, path: usize, flags: u32) -> (r: isize)
    requires
        kernel_wf(old(k)@),
        sys_open_ok(old(k)@, path, flags),
    ensures
        kernel_wf(final(k)@),
        (r, final(k)@) == sys_open_effect(old(k)@, path, flags),
{
    let ghost old_k = k@;
    let name = k.read_user_cstr(path);
    match k.fs.open(&name, flags) {
        Some(ino) => {
            proof {
                lemma_wf_fs(old_k, k@.fs);
            }
            let (readable, writable) = read_write(flags);
            let file = File::OSInode { inode: ino, offset: 0, readable, writable };
            let fd = k.install_file(file);
            assert(k@ =~= sys_open_effect(old_k, path, flags).1);
            fd as isize
        },
        None => {
            assert(k@ =~= old_k);
            -1
        },
    }
}

/// What `sys_close(fd)` does: frees the descriptor (0), or -1 when it is
/// not open.
pub open spec fn sys_close_effect(k: KernelModel, fd: usize) -> (isize, KernelModel) {
    match fd_target(k, fd) {
        Some(i) => (
            0isize,
            with_cur(k, TaskModel { fd_table: cur(k).fd_table.update(fd as int, None), ..cur(k) }),
        ),
        None => (-1isize, k),
    }
}

/// Closes descriptor `fd`; 0, or -1 when it is not open.
pub fn sys_close(k: &mut TaskManager, fd: usize) -> (r: isize)
    requires
        kernel_wf(old(k)@),
    ensures
        kernel_wf(final(k)@),
        (r, final(k)@) == sys_close_effect(old(k)@, fd),
{
    match k.fd_file(fd) {
        Some(_) => {
            k.clear_fd(fd);
            0
        },
        None => -1,
    }
}

/// The bytes of a `Stat` as user programs see them: `dev`, `ino`, `mode`,
/// `nlink`, and seven zero words of padding.
pub open spec fn stat_bytes(st: Stat) -> Seq<u8> {
    le_bytes(st.dev as nat, 8) + le_bytes(st.ino as nat, 8) + le_bytes(st.mode as nat, 4) + le_bytes(
        st.nlink as nat,
        4,
    ) + Seq::new(56, |i: int| 0u8)
}

/// Size of a `Stat` in user memory.
pub const STAT_SIZE: usize = 80;

/// What `fstat` tells of inode `ino` of `fs`.
pub open spec fn inode_stat(fs: FsModel, ino: usize) -> Stat {
    Stat { dev: 0, ino: ino as u64, mode: S_IFREG, nlink: link_count(fs.entries, ino) as u32 }
}

/// Whether `sys_fstat(fd, st)` can run: an open descriptor refers to a file
/// of the file system, and the user buffer for the result is mapped.
pub open spec fn sys_fstat_ok(k: KernelModel, fd: usize, st: usize) -> bool {
    match fd_target(k, fd) {
        Some(i) => {
            &&& k.files[i as int] is OSInode
            &&& user_buf_ok(cur(k).areas, st as int, STAT_SIZE as int)
        },
        None => true,
    }
}

/// What `sys_fstat(fd, st)` does: stores what is known of the file behind
/// `fd` at `st` (0), or -1 when `fd` is not open.
pub open spec fn sys_fstat_effect(k: KernelModel, fd: usize, st: usize) -> (isize, KernelModel) {
    match fd_target(k, fd) {
        Some(i) => match k.files[i as int] {
            File::OSInode { inode, .. } => (
                0isize,
                with_cur_areas(
                    k,
                    user_written(cur(k).areas, st as int, stat_bytes(inode_stat(k.fs, inode))),
                ),
            ),
            _ => (-1isize, k),
        },
        None => (-1isize, k),
    }
}

/// Stores at user address `st` what is known of the file behind `fd`; 0,
/// or -1 when `fd` is not open.
pub fn sys_fstat(k: &mut TaskManager, fd: usize, st: usize) -> (r: isize)
    requires
        kernel_wf(old(k)@),
        sys_fstat_ok(old(k)@, fd, st),
    ensures
        kernel_wf(final(k)@),
        (r, final(k)@) == sys_fstat_effect(old(k)@, fd, st),
{
    let i = match k.fd_file(fd) {
        Some(i) => i,
        None => return -1,
    };
    match k.files[i] {
        File::OSInode { inode, .. } => {
            let stat = Stat { dev: 0, ino: inode as u64, mode: S_IFREG, nlink: k.fs.nlink(inode) as u32 };
            let mut bytes: Vec<u8> = Vec::new();
            push_le(&mut bytes, stat.dev, 8);
            push_le(&mut bytes, stat.ino, 8);
            push_le(&mut bytes, stat.mode as u64, 4);
            push_le(&mut bytes, stat.nlink as u64, 4);
            let mut pad: usize = 0;
            let ghost head = bytes@;
            while pad < 56
                invariant
                    pad <= 56,
                    bytes@ == head + Seq::new(pad as nat, |j: int| 0u8),
                decreases 56 - pad,
            {
                bytes.push(0);
                pad = pad + 1;
                assert(bytes@ =~= head + Seq::new(pad as nat, |j: int| 0u8));
            }
            assert(stat == inode_stat(k@.fs, inode));
            assert(bytes@ =~= stat_bytes(stat));
            k.write_user_buf(st, &bytes);
            0
        },
        _ => -1,
    }
}

/// Whether a call naming files by the strings at `a` and `b` can run.
pub open spec fn two_names_ok(k: KernelModel, a: usize, b: usize) -> bool {
    cstr_ok(cur(k).areas, a as int) && cstr_ok(cur(k).areas, b as int)
}

/// What `sys_linkat(old_name, new_name)` does: when the names differ and
/// the old one exists, adds the new name for the same inode (0); -1 otherwise.
pub open spec fn sys_linkat_effect(k: KernelModel, old_name: usize, new_name: usize) -> (isize, KernelModel) {
    let o = user_cstr(cur(k).areas, old_name as int);
    let n = user_cstr(cur(k).areas, new_name as int);
    if o == n {
        (-1isize, k)
    } else {
        match lookup(k.fs, o) {
            Some(ino) => (
                0isize,
                KernelModel {
                    fs: FsModel { entries: k.fs.entries.push(EntryModel { name: n, inode: ino }), ..k.fs },
                    ..k
                },
            ),
            None => (-1isize, k),
        }
    }
}

/// Gives the file named by the string at `old_name` the further name at
/// `new_name`; 0, or -1 when the names are equal or the file does not exist.
pub fn sys_linkat(k: &mut TaskManager, old_name: usize, new_name: usize) -> (r: isize)
    requires
        kernel_wf(old(k)@),
        two_names_ok(old(k)@, old_name, new_name),
    ensures
        kernel_wf(final(k)@),
        (r, final(k)@) == sys_linkat_effect(old(k)@, old_name, new_name),
{
    let ghost old_k = k@;
    let o = k.read_user_cstr(old_name);
    let n = k.read_user_cstr(new_name);
    if crate::fs::bytes_eq(&o, &n) {
        return -1;
    }
    match k.fs.find(&o) {
        Some(ino) => {
            let r = k.fs.link(ino, &n);
            proof {
                lemma_wf_fs(old_k, k@.fs);
            }
            assert(k@ =~= sys_linkat_effect(old_k, old_name, new_name).1);
            r
        },
        None => -1,
    }
}

/// What `sys_unlinkat(name)` does: drops the first entry with the name at
/// `name` (0), or -1 when there is none.
pub open spec fn sys_unlinkat_effect(k: KernelModel, name: usize) -> (isize, KernelModel) {
    let nm = user_cstr(cur(k).areas, name as int);
    match first_entry(k.fs.entries, nm) {
        Some(i) => (0isize, KernelModel { fs: FsModel { entries: k.fs.entries.remove(i), ..k.fs }, ..k }),
        None => (-1isize, k),
    }
}

/// Removes the name at user address `name` from the file system; 0, or -1
/// when no file has it.
pub fn sys_unlinkat(k: &mut TaskManager, name: usize) -> (r: isize)
    requires
        kernel_wf(old(k)@),
        cstr_ok(cur(old(k)@).areas, name as int),
    ensures
        kernel_wf(final(k)@),
        (r, final(k)@) == sys_unlinkat_effect(old(k)@, name),
{
    let ghost old_k = k@;
    let nm = k.read_user_cstr(name);
    match k.fs.find_entry(&nm) {
        Some(_) => {
            let r = k.fs.unlink(&nm);
            proof {
                lemma_wf_fs(old_k, k@.fs);
            }
            assert(k@ =~= sys_unlinkat_effect(old_k, name).1);
            r
        },
        None => -1,
    }
}

} // verus!
