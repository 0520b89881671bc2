//! The file system: one root directory of named entries over inodes that
//! hold bytes, the open-file objects that descriptors refer to, and the
//! `open` flags.
use vstd::prelude::*;

verus! {

/// Open for reading only.
pub const RDONLY: u32 = 0;

/// Open for writing only.
pub const WRONLY: u32 = 1;

/// Open for reading and writing.
pub const RDWR: u32 = 2;

/// Create the file if it does not exist, empty it if it does.
pub const CREATE: u32 = 512;

/// Empty the file when opening it.
pub const TRUNC: u32 = 1024;

/// Whether `bits` only holds known open flags (`OpenFlags::from_bits` succeeds).
pub open spec fn flags_valid(bits: u32) -> bool {
    bits & !0x603u32 == 0
}

/// The rights that open flags grant: `(readable, writable)`.
pub open spec fn flags_read_write(bits: u32) -> (bool, bool) {
    if bits == 0 {
        (true, false)
    } else if bits & WRONLY != 0 {
        (false, true)
    } else {
        (true, true)
    }
}

/// `OpenFlags::read_write`.
pub fn read_write(bits: u32) -> (r: (bool, bool))
    ensures
        r == flags_read_write(bits),
{
    if bits == 0 {
        (true, false)
    } else if bits & WRONLY != 0 {
        (false, true)
    } else {
        (true, true)
    }
}

/// An inode: the bytes of one file.
pub struct Inode {
    pub data: Vec<u8>,
}

/// A name in the root directory and the inode it refers to.
pub struct DirEntry {
    pub name: Vec<u8>,
    pub inode: usize,
}

/// What a directory entry is.
pub struct EntryModel {
    pub name: Seq<u8>,
    pub inode: usize,
}

/// The file system: its inodes and the entries of its root directory.
pub struct FileSystem {
    pub inodes: Vec<Inode>,
    pub entries: Vec<DirEntry>,
}

/// What the file system holds: the bytes of each inode and the directory entries.
#[verifier::ext_equal]
pub struct FsModel {
    pub inodes: Seq<Seq<u8>>,
    pub entries: Seq<EntryModel>,
}

impl View for FileSystem {
    type V = FsModel;

    open spec fn view(&self) -> FsModel {
        FsModel {
            inodes: self.inodes@.map_values(|i: Inode| i.data@),
            entries: self.entries@.map_values(|e: DirEntry| EntryModel { name: e.name@, inode: e.inode }),
        }
    }
}

/// Every entry refers to an existing inode.
pub open spec fn fs_wf(f: FsModel) -> bool {
    forall|i: int| 0 <= i < f.entries.len() ==> #[trigger] f.entries[i].inode < f.inodes.len()
}

/// Index of the first entry named `name`, if any.
pub open spec fn first_entry(es: Seq<EntryModel>, name: Seq<u8>) -> Option<int> {
    if exists|i: int|
        0 <= i < es.len() && es[i].name == name && forall|j: int| 0 <= j < i ==> es[j].name != name {
        Some(
            choose|i: int|
                0 <= i < es.len() && es[i].name == name && forall|j: int|
                    0 <= j < i ==> es[j].name != name,
        )
    } else {
        None
    }
}

/// The inode that `name` refers to, if any.
pub open spec fn lookup(f: FsModel, name: Seq<u8>) -> Option<usize> {
    match first_entry(f.entries, name) {
        Some(i) => Some(f.entries[i].inode),
        None => None,
    }
}

/// The number of names that refer to inode `ino`.
pub open spec fn link_count(es: Seq<EntryModel>, ino: usize) -> nat
    decreases es.len(),
{
    if es.len() == 0 {
        0
    } else {
        link_count(es.drop_last(), ino) + if es.last().inode == ino {
            1nat
        } else {
            0nat
        }
    }
}

/// The bytes of a file after `buf` was written at `offset`: the file grows
/// to hold them, and a gap before `offset` reads as zeros.
pub open spec fn written(data: Seq<u8>, offset: int, buf: Seq<u8>) -> Seq<u8> {
    let len = if offset + buf.len() > data.len() {
        offset + buf.len()
    } else {
        data.len() as int
    };
    Seq::new(
        len as nat,
        |k: int|
            if offset <= k < offset + buf.len() {
                buf[k - offset]
            } else if k < data.len() {
                data[k]
            } else {
                0u8
            },
    )
}

/// The number of bytes a read of at most `len` bytes at `offset` gets.
pub open spec fn read_len(data: Seq<u8>, offset: int, len: int) -> int {
    if offset >= data.len() {
        0
    } else if len < data.len() - offset {
        len
    } else {
        data.len() - offset
    }
}

/// The bytes a read of at most `len` bytes at `offset` gets.
pub open spec fn read_bytes(data: Seq<u8>, offset: int, len: int) -> Seq<u8> {
    if offset >= data.len() {
        Seq::empty()
    } else {
        data.subrange(offset, offset + read_len(data, offset, len))
    }
}

/// What `open_file(name, flags)` finds or makes: the inode, and the file
/// system after it (a file opened with `CREATE` or `TRUNC` is emptied; a
/// missing file is created with `CREATE`).
pub open spec fn open_effect(f: FsModel, name: Seq<u8>, bits: u32) -> Option<(usize, FsModel)> {
    if bits & CREATE != 0 {
        match lookup(f, name) {
            Some(ino) => Some((ino, FsModel { inodes: f.inodes.update(ino as int, Seq::empty()), ..f })),
            None => Some(
                (
                    f.inodes.len() as usize,
                    FsModel {
                        inodes: f.inodes.push(Seq::empty()),
                        entries: f.entries.push(EntryModel { name, inode: f.inodes.len() as usize }),
                    },
                ),
            ),
        }
    } else {
        match lookup(f, name) {
            Some(ino) => if bits & TRUNC != 0 {
                Some((ino, FsModel { inodes: f.inodes.update(ino as int, Seq::empty()), ..f }))
            } else {
                Some((ino, f))
            },
            None => None,
        }
    }
}

pub proof fn lemma_first_entry(es: Seq<EntryModel>, name: Seq<u8>, i: int)
    requires
        0 <= i < es.len(),
        es[i].name == name,
        forall|j: int| 0 <= j < i ==> es[j].name != name,
    ensures
        first_entry(es, name) == Some(i),
{
    let k = choose|k: int|
        0 <= k < es.len() && es[k].name == name && forall|j: int| 0 <= j < k ==> es[j].name != name;
    assert(0 <= k < es.len() && es[k].name == name && forall|j: int|
        0 <= j < k ==> es[j].name != name);
    if k < i {
        assert(es[k].name != name);
    } else if k > i {
        assert(es[i].name != name);
    }
}

/// When some entry has a name, a first such entry exists.
pub proof fn lemma_first_entry_exists(es: Seq<EntryModel>, name: Seq<u8>, j: int)
    requires
        0 <= j < es.len(),
        es[j].name == name,
    ensures
        first_entry(es, name) is Some,
    decreases j,
{
    if exists|k: int| 0 <= k < j && es[k].name == name {
        let k = choose|k: int| 0 <= k < j && es[k].name == name;
        lemma_first_entry_exists(es, name, k);
    } else {
        lemma_first_entry(es, name, j);
    }
}

/// Whether two byte strings are equal.
pub fn bytes_eq(a: &Vec<u8>, b: &Vec<u8>) -> (r: bool)
    ensures
        r == (a@ == b@),
{
    if a.len() != b.len() {
        return false;
    }
    let mut k: usize = 0;
    while k < a.len()
        invariant
            k <= a.len(),
            a.len() == b.len(),
            a@.subrange(0, k as int) == b@.subrange(0, k as int),
        decreases a.len() - k,
    {
        if a[k] != b[k] {
            assert(a@[k as int] != b@[k as int]);
            return false;
        }
        k = k + 1;
        assert(a@.subrange(0, k as int) =~= a@.subrange(0, k as int - 1).push(a@[k - 1]));
        assert(b@.subrange(0, k as int) =~= b@.subrange(0, k as int - 1).push(b@[k - 1]));
    }
    assert(a@ =~= a@.subrange(0, k as int));
    assert(b@ =~= b@.subrange(0, k as int));
    true
}

impl FileSystem {
    /// An empty file system.
    pub fn new() -> (f: FileSystem)
        ensures
            f@ == (FsModel { inodes: Seq::empty(), entries: Seq::empty() }),
            fs_wf(f@),
    {
        let f = FileSystem { inodes: Vec::new(), entries: Vec::new() };
        assert(f@ =~= (FsModel { inodes: Seq::empty(), entries: Seq::empty() }));
        f
    }

    /// Index of the first entry named `name`, if any.
    pub fn find_entry(&self, name: &Vec<u8>) -> (r: Option<usize>)
        ensures
            r matches Some(i) ==> i < self@.entries.len() && first_entry(self@.entries, name@) == Some(
                i as int,
            ),
            r is None ==> first_entry(self@.entries, name@) is None,
    {
        let mut i: usize = 0;
        while i < self.entries.len()
            invariant
                i <= self.entries.len(),
                self@.entries.len() == self.entries.len(),
                forall|j: int| 0 <= j < i ==> self@.entries[j].name != name@,
            decreases self.entries.len() - i,
        {
            if bytes_eq(&self.entries[i].name, name) {
                proof {
                    lemma_first_entry(self@.entries, name@, i as int);
                }
                return Some(i);
            }
            i = i + 1;
        }
        None
    }

    /// `find`: the inode that `name` refers to, if any.
    pub fn find(&self, name: &Vec<u8>) -> (r: Option<usize>)
        requires
            fs_wf(self@),
        ensures
            r == lookup(self@, name@),
            r matches Some(ino) ==> ino < self@.inodes.len(),
    {
        match self.find_entry(name) {
            Some(i) => {
                assert(self@.entries[i as int].inode < self@.inodes.len());
                Some(self.entries[i].inode)
            },
            None => None,
        }
    }

    /// `clear`: empties inode `ino`.
    pub fn clear(&mut self, ino: usize)
        requires
            ino < old(self)@.inodes.len(),
        ensures
            final(self)@ == (FsModel { inodes: old(self)@.inodes.update(ino as int, Seq::empty()), ..old(self)@ }),
    {
        let ghost old_f = self@;
        self.inodes[ino].data = Vec::new();
        assert(self@.inodes =~= old_f.inodes.update(ino as int, Seq::empty()));
        assert(self@.entries =~= old_f.entries);
    }

    /// `create`: a new empty inode named `name`.
    pub fn create(&mut self, name: &Vec<u8>) -> (ino: usize)
        requires
            old(self)@.inodes.len() < usize::MAX,
        ensures
            ino == old(self)@.inodes.len(),
            final(self)@ == (FsModel {
                inodes: old(self)@.inodes.push(Seq::empty()),
                entries: old(self)@.entries.push(EntryModel { name: name@, inode: ino }),
            }),
    {
        let ghost old_f = self@;
        let ino = self.inodes.len();
        self.inodes.push(Inode { data: Vec::new() });
        self.entries.push(DirEntry { name: crate::mm::copy_bytes(name), inode: ino });
        assert(self@.inodes =~= old_f.inodes.push(Seq::empty()));
        assert(self@.entries =~= old_f.entries.push(EntryModel { name: name@, inode: ino }));
        ino
    }

    /// `open_file` on the root directory: finds (and with `CREATE` or
    /// `TRUNC` empties) or creates the file `name`; gives its inode.
    pub fn open(&mut self, name: &Vec<u8>, bits: u32) -> (r: Option<usize>)
        requires
            fs_wf(old(self)@),
            old(self)@.inodes.len() < usize::MAX,
        ensures
            fs_wf(final(self)@),
            match open_effect(old(self)@, name@, bits) {
                Some((ino, f)) => r == Some(ino) && final(self)@ == f && ino < f.inodes.len(),
                None => r is None && final(self)@ == old(self)@,
            },
    {
        let ghost old_f = self@;
        if bits & CREATE != 0 {
            match self.find(name) {
                Some(ino) => {
                    self.clear(ino);
                    Some(ino)
                },
                None => {
                    let ino = self.create(name);
                    proof {
                        let f = self@;
                        assert forall|i: int| 0 <= i < f.entries.len() implies #[trigger] f.entries[i].inode
                            < f.inodes.len() by {
                            if i < old_f.entries.len() {
                                assert(f.entries[i] == old_f.entries[i]);
                            }
                        }
                    }
                    Some(ino)
                },
            }
        } else {
            match self.find(name) {
                Some(ino) => {
                    if bits & TRUNC != 0 {
                        self.clear(ino);
                    }
                    Some(ino)
                },
                None => None,
            }
        }
    }

    /// `link`: adds the name `new_name` for inode `ino`.
    pub fn link(&mut self, ino: usize, new_name: &Vec<u8>) -> (r: isize)
        requires
            fs_wf(old(self)@),
            ino < old(self)@.inodes.len(),
        ensures
            r == 0,
            fs_wf(final(self)@),
            final(self)@ == (FsModel {
                entries: old(self)@.entries.push(EntryModel { name: new_name@, inode: ino }),
                ..old(self)@
            }),
    {
        let ghost old_f = self@;
        self.entries.push(DirEntry { name: crate::mm::copy_bytes(new_name), inode: ino });
        proof {
            let f = self@;
            assert(f.entries =~= old_f.entries.push(EntryModel { name: new_name@, inode: ino }));
            assert(f.inodes =~= old_f.inodes);
            assert forall|i: int| 0 <= i < f.entries.len() implies #[trigger] f.entries[i].inode
                < f.inodes.len() by {
                if i < old_f.entries.len() {
                    assert(f.entries[i] == old_f.entries[i]);
                }
            }
        }
        0
    }

    /// `unlink`: drops the first entry named `name`.
    pub fn unlink(&mut self, name: &Vec<u8>) -> (r: isize)
        requires
            fs_wf(old(self)@),
            first_entry(old(self)@.entries, name@) is Some,
        ensures
            r == 0,
            fs_wf(final(self)@),
            final(self)@ == (FsModel {
                entries: old(self)@.entries.remove(first_entry(old(self)@.entries, name@)->0),
                ..old(self)@
            }),
    {
        let ghost old_f = self@;
        let i = self.find_entry(name).unwrap();
        self.entries.remove(i);
        proof {
            let f = self@;
            assert(f.entries =~= old_f.entries.remove(i as int));
            assert(f.inodes =~= old_f.inodes);
            assert forall|k: int| 0 <= k < f.entries.len() implies #[trigger] f.entries[k].inode
                < f.inodes.len() by {
                if k < i {
                    assert(f.entries[k] == old_f.entries[k]);
                } else {
                    assert(f.entries[k] == old_f.entries[k + 1]);
                }
            }
        }
        0
    }

    /// The number of names of inode `ino`.
    pub fn nlink(&self, ino: usize) -> (n: usize)
        ensures
            n == link_count(self@.entries, ino),
    {
        let mut n: usize = 0;
        let mut i: usize = 0;
        while i < self.entries.len()
            invariant
                i <= self.entries.len(),
                self@.entries.len() == self.entries.len(),
                n == link_count(self@.entries.subrange(0, i as int), ino),
                n <= i,
            decreases self.entries.len() - i,
        {
            proof {
                let s = self@.entries.subrange(0, i as int + 1);
                assert(s.drop_last() =~= self@.entries.subrange(0, i as int));
            }
            if self.entries[i].inode == ino {
                n = n + 1;
            }
            i = i + 1;
        }
        assert(self@.entries.subrange(0, i as int) =~= self@.entries);
        n
    }

    /// `read_at`: at most `len` bytes of inode `ino` from `offset` on.
    pub fn read_at(&self, ino: usize, offset: usize, len: usize) -> (r: Vec<u8>)
        requires
            ino < self@.inodes.len(),
        ensures
            r@ == read_bytes(self@.inodes[ino as int], offset as int, len as int),
    {
        let data = &self.inodes[ino].data;
        let mut r: Vec<u8> = Vec::new();
        if offset >= data.len() {
            assert(r@ =~= read_bytes(self@.inodes[ino as int], offset as int, len as int));
            return r;
        }
        let n = if len < data.len() - offset {
            len
        } else {
            data.len() - offset
        };
        let mut k: usize = 0;
        while k < n
            invariant
                k <= n,
                n == read_len(data@, offset as int, len as int),
                offset + n <= data.len(),
                r@ == data@.subrange(offset as int, offset + k),
            decreases n - k,
        {
            r.push(data[offset + k]);
            k = k + 1;
            assert(r@ =~= data@.subrange(offset as int, offset + k));
        }
        r
    }

    /// `write_at`: stores `buf` in inode `ino` from `offset` on.
    pub fn write_at(&mut self, ino: usize, offset: usize, buf: &Vec<u8>)
        requires
            ino < old(self)@.inodes.len(),
            offset + buf.len() <= usize::MAX,
        ensures
            final(self)@ == (FsModel {
                inodes: old(self)@.inodes.update(
                    ino as int,
                    written(old(self)@.inodes[ino as int], offset as int, buf@),
                ),
                ..old(self)@
            }),
    {
        let ghost old_f = self@;
        let ghost d0 = old_f.inodes[ino as int];
        let old_len = self.inodes[ino].data.len();
        let mut data: Vec<u8> = Vec::new();
        std::mem::swap(&mut data, &mut self.inodes[ino].data);
        assert(data@ == d0);
        while data.len() < offset
            invariant
                old_len == d0.len(),
                data.len() <= offset || data.len() == old_len,
                data@.len() >= old_len,
                forall|k: int| 0 <= k < data.len() ==> #[trigger] data@[k] == (if k < old_len {
                    d0[k]
                } else {
                    0u8
                }),
            decreases offset - data.len(),
        {
            data.push(0u8);
        }
        let mut k: usize = 0;
        while k < buf.len()
            invariant
                k <= buf.len(),
                offset + buf.len() <= usize::MAX,
                old_len == d0.len(),
                data.len() >= offset + k,
                data.len() == if offset + k > old_len { offset + k } else { old_len as int },
                forall|j: int| 0 <= j < data.len() ==> #[trigger] data@[j] == (if offset <= j < offset + k {
                    buf@[j - offset]
                } else if j < old_len {
                    d0[j]
                } else {
                    0u8
                }),
            decreases buf.len() - k,
        {
            if offset + k < data.len() {
                data.set(offset + k, buf[k]);
            } else {
                data.push(buf[k]);
            }
            k = k + 1;
        }
        assert(data@ =~= written(d0, offset as int, buf@));
        std::mem::swap(&mut data, &mut self.inodes[ino].data);
        assert(self@.inodes =~= old_f.inodes.update(ino as int, written(d0, offset as int, buf@)));
        assert(self@.entries =~= old_f.entries);
    }
}

/// An open file: a standard stream, or an inode opened with some rights,
/// with the offset of the next read or write.
#[derive(Clone, Copy, Debug, PartialEq, Eq, Structural)]
pub enum File {
    Stdin,
    Stdout,
    OSInode { inode: usize, offset: usize, readable: bool, writable: bool },
}

impl File {
    /// Whether the file can be read.
    pub open spec fn spec_readable(self) -> bool {
        match self {
            File::Stdin => true,
            File::Stdout => false,
            File::OSInode { readable, .. } => readable,
        }
    }

    /// Whether the file can be written.
    pub open spec fn spec_writable(self) -> bool {
        match self {
            File::Stdin => false,
            File::Stdout => true,
            File::OSInode { writable, .. } => writable,
        }
    }

    /// Whether the file can be read.
    pub fn readable(&self) -> (r: bool)
        ensures
            r == self.spec_readable(),
    {
        match self {
            File::Stdin => true,
            File::Stdout => false,
            File::OSInode { readable, .. } => *readable,
        }
    }

    /// Whether the file can be written.
    pub fn writable(&self) -> (r: bool)
        ensures
            r == self.spec_writable(),
    {
        match self {
            File::Stdin => false,
            File::Stdout => true,
            File::OSInode { writable, .. } => *writable,
        }
    }
}

/// Mode of a regular file in a `Stat`.
pub const S_IFREG: u32 = 0o100000;

/// What `fstat` tells of a file.
#[derive(Clone, Copy, Debug, PartialEq, Eq, Structural)]
pub struct Stat {
    pub dev: u64,
    pub ino: u64,
    pub mode: u32,
    pub nlink: u32,
}

} // verus!
