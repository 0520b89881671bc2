//! The current task's memory as the system calls see it: single bytes and
//! buffers at user addresses, strings, the program break, and mapping and
//! unmapping ranges of pages.

use vstd::prelude::*;

use crate::config::{PAGE_SIZE, VA_RANGE};
use crate::mm::{
    AreaModel, append_ok, areas_wf, byte_at, bytes_at, bytes_mapped, ceil_vpn, first_starting_at,
    floor_vpn, grown_area, is_mapped, mask_va, page_offset, perm_at, port_perm, port_to_perm,
    range_free, shrink_ok, shrunk_area, va_mask, with_byte, with_bytes, zero_area,
};
use super::{
    KernelModel, TaskManager, TaskModel, cur, kernel_wf, lemma_cur_local, lemma_wf_update_local,
    live, with_cur, with_cur_areas, with_task,
};

verus! {

/// What `read_from_va` gives: the byte at `va` if its page is mapped
/// readable for the user, else -1.
pub open spec fn read_va_result(s: Seq<AreaModel>, va: int) -> isize {
    if is_mapped(s, floor_vpn(va)) && perm_at(s, floor_vpn(va)).r && perm_at(s, floor_vpn(va)).u {
        byte_at(s, va) as isize
    } else {
        -1isize
    }
}

/// Whether the page holding `va` is mapped writable for the user.
pub open spec fn user_writable(s: Seq<AreaModel>, va: int) -> bool {
    is_mapped(s, floor_vpn(va)) && perm_at(s, floor_vpn(va)).w && perm_at(s, floor_vpn(va)).u
}

/// Whether every page that the check loop of a mapping request looks at
/// (one per page-size step from `start` while below `start + len`) is free.
pub open spec fn pages_free_from(s: Seq<AreaModel>, start: int, len: int) -> bool {
    forall|i: int|
        0 <= i && i * PAGE_SIZE < len ==> !#[trigger] is_mapped(
            s,
            floor_vpn(va_mask(start + i * PAGE_SIZE)),
        )
}

/// Whether every page that the check loop of an unmapping request looks at is mapped.
pub open spec fn pages_mapped_from(s: Seq<AreaModel>, start: int, len: int) -> bool {
    forall|i: int|
        0 <= i && i * PAGE_SIZE < len ==> #[trigger] is_mapped(
            s,
            floor_vpn(va_mask(start + i * PAGE_SIZE)),
        )
}

/// First page of the area a mapping request of `start .. start + len` makes.
pub open spec fn map_lo(start: int) -> int {
    floor_vpn(va_mask(start))
}

/// End page of the area a mapping request of `start .. start + len` makes.
pub open spec fn map_hi(start: int, len: int) -> int {
    ceil_vpn(va_mask(start + len))
}

/// Whether the area of a mapping request can be added: its range is
/// ordered, free, and its frames fit in memory.
pub open spec fn map_insert_ok(s: Seq<AreaModel>, start: int, len: int) -> bool {
    &&& map_lo(start) <= map_hi(start, len)
    &&& range_free(s, map_lo(start), map_hi(start, len))
    &&& (map_hi(start, len) - map_lo(start)) * PAGE_SIZE <= usize::MAX
}

/// The program break that `sbrk(size)` asks for.
pub open spec fn new_brk(t: TaskModel, size: i32) -> int {
    t.program_brk + size
}

/// Whether `change_program_brk(size)` can move the break: the new break is
/// not below the heap bottom and a heap area starts there.
pub open spec fn brk_moves(t: TaskModel, size: i32) -> bool {
    new_brk(t, size) >= t.heap_bottom && first_starting_at(t.areas, floor_vpn(t.heap_bottom as int))
        is Some
}

/// Whether `change_program_brk(size)` can run: when the new break is not
/// below the heap bottom, the heap area shrinks within its range or grows
/// over free pages.
pub open spec fn brk_ok(t: TaskModel, size: i32) -> bool {
    new_brk(t, size) >= t.heap_bottom ==> if size < 0 {
        shrink_ok(t.areas, t.heap_bottom as int, new_brk(t, size))
    } else {
        append_ok(t.areas, t.heap_bottom as int, new_brk(t, size))
    }
}

/// The task after its break moved to `new_brk(t, size)`.
pub open spec fn brk_moved(t: TaskModel, size: i32) -> TaskModel {
    let i = first_starting_at(t.areas, floor_vpn(t.heap_bottom as int))->0;
    let e = ceil_vpn(new_brk(t, size));
    TaskModel {
        areas: t.areas.update(i, if size < 0 { shrunk_area(t.areas[i], e) } else { grown_area(t.areas[i], e) }),
        program_brk: new_brk(t, size) as u64,
        ..t
    }
}

/// Whether user memory `ptr .. ptr + len` can be copied: it does not wrap
/// around the 39-bit address space, and every byte of it is mapped.
pub open spec fn user_buf_ok(s: Seq<AreaModel>, ptr: int, len: int) -> bool {
    &&& va_mask(ptr) + len <= VA_RANGE
    &&& bytes_mapped(s, va_mask(ptr), len)
}

/// The `len` bytes of user memory at `ptr`.
pub open spec fn user_bytes(s: Seq<AreaModel>, ptr: int, len: nat) -> Seq<u8> {
    bytes_at(s, va_mask(ptr), len)
}

/// The user memory after `data` was copied to `ptr`.
pub open spec fn user_written(s: Seq<AreaModel>, ptr: int, data: Seq<u8>) -> Seq<AreaModel> {
    with_bytes(s, va_mask(ptr), data)
}

/// Whether a string at `ptr` is terminated after exactly `n` bytes: all of
/// its bytes and the terminating zero lie in mapped pages.
pub open spec fn cstr_has_len(s: Seq<AreaModel>, ptr: int, n: int) -> bool {
    &&& n >= 0
    &&& ptr + n < usize::MAX
    &&& forall|i: int| 0 <= i <= n ==> #[trigger] is_mapped(s, floor_vpn(va_mask(ptr + i)))
    &&& forall|i: int| 0 <= i < n ==> #[trigger] byte_at(s, va_mask(ptr + i)) != 0
    &&& byte_at(s, va_mask(ptr + n)) == 0
}

/// Whether the user memory at `ptr` holds a terminated string.
pub open spec fn cstr_ok(s: Seq<AreaModel>, ptr: int) -> bool {
    exists|n: int| cstr_has_len(s, ptr, n)
}

/// The string (without its terminating zero) at `ptr`.
pub open spec fn user_cstr(s: Seq<AreaModel>, ptr: int) -> Seq<u8> {
    let n = choose|n: int| cstr_has_len(s, ptr, n);
    Seq::new(n as nat, |i: int| byte_at(s, va_mask(ptr + i)))
}

/// Whether `write_to_va_timeval(va, data)` can run: when the value
/// crosses into the next page, the part after `va`'s page must fit in the
/// next page.
pub open spec fn timeval_write_ok(s: Seq<AreaModel>, va: int, size: int) -> bool {
    user_writable(s, va) && page_offset(va) + size > PAGE_SIZE ==> size - (PAGE_SIZE - page_offset(va))
        <= PAGE_SIZE
}

/// What `write_to_va_timeval(va, data)` does to the memory `s`: its result
/// and the memory after it. A value that crosses a page boundary is split:
/// its first `PAGE_SIZE - page_offset(va)` bytes end `va`'s page, the rest
/// start the next page.
pub open spec fn timeval_write(s: Seq<AreaModel>, va: int, data: Seq<u8>) -> (isize, Seq<AreaModel>) {
    let off = page_offset(va);
    if !user_writable(s, va) {
        (-1isize, s)
    } else if off + data.len() <= PAGE_SIZE {
        (0isize, with_bytes(s, va, data))
    } else {
        let s1 = with_bytes(s, va, data.subrange(0, PAGE_SIZE - off));
        let next = floor_vpn(va_mask(va + PAGE_SIZE)) * PAGE_SIZE;
        if !user_writable(s1, next) {
            (-1isize, s1)
        } else {
            (0isize, with_bytes(s1, next, data.subrange(PAGE_SIZE - off, data.len() as int)))
        }
    }
}

/// The areas after the area starting at the page of `start_va` (if any) was
/// cut back to end at the page boundary at or above `new_end_va`.
pub open spec fn shrink_result(s: Seq<AreaModel>, start_va: int, new_end_va: int) -> Seq<AreaModel> {
    match first_starting_at(s, floor_vpn(start_va)) {
        Some(i) => s.update(i, shrunk_area(s[i], ceil_vpn(new_end_va))),
        None => s,
    }
}

/// The page-aligned address of the page holding `start`, which
/// `unmap_len_to_start` cuts the area starting there back to.
pub open spec fn unmap_va(start: int) -> int {
    floor_vpn(va_mask(start)) * PAGE_SIZE
}

/// The areas after the first area starting at page `vpn` (if any) was dropped.
pub open spec fn remove_result(s: Seq<AreaModel>, vpn: int) -> Seq<AreaModel> {
    match first_starting_at(s, vpn) {
        Some(i) => s.remove(i),
        None => s,
    }
}

/// The areas after a mapping request of `start .. start + len` with the
/// rights of `port` was granted.
pub open spec fn mapped_result(s: Seq<AreaModel>, start: int, len: int, port: usize) -> Seq<AreaModel> {
    s.push(zero_area(map_lo(start) as u64, map_hi(start, len) as u64, port_perm(port)))
}

impl TaskManager {
    /// `change_current_program_brk`: moves the current task's program break
    /// by `size` bytes; gives the old break, or `None` when the new break
    /// would be below the heap bottom or the task has no heap area.
    pub fn change_current_program_brk(&mut self, size: i32) -> (r: Option<usize>)
        requires
            kernel_wf(old(self)@),
            brk_ok(cur(old(self)@), size),
        ensures
            kernel_wf(final(self)@),
            if brk_moves(cur(old(self)@), size) {
                &&& r == Some(cur(old(self)@).program_brk as usize)
                &&& final(self)@ == with_cur(old(self)@, brk_moved(cur(old(self)@), size))
            } else {
                &&& r is None
                &&& final(self)@ == old(self)@
            },
    {
        let ghost old_k = self@;
        let c = self.current;
        let mut t = self.take_task(c);
        let ghost t0 = t@;
        proof { lemma_cur_local(old_k); }
        let heap_bottom = t.heap_bottom;
        let old_break = t.program_brk;
        let new_brk: i64 = old_break as i64 + size as i64;
        if new_brk < heap_bottom as i64 {
            self.put_task(c, t);
            assert(self@.tasks =~= old_k.tasks);
            assert(self@ =~= old_k);
            return None;
        }
        let found = if size < 0 {
            t.memory_set.shrink_to(heap_bottom, new_brk as u64)
        } else {
            t.memory_set.append_to(heap_bottom, new_brk as u64)
        };
        if found {
            t.program_brk = new_brk as u64;
            self.put_task(c, t);
            proof {
                let tm = brk_moved(t0, size);
                assert(t@ =~= tm);
                lemma_wf_update_local(old_k, c as int, tm);
                assert(self@ =~= with_task(old_k, c as int, tm));
            }
            Some(old_break as usize)
        } else {
            self.put_task(c, t);
            proof {
                assert(t@ =~= t0);
                assert(self@.tasks =~= old_k.tasks);
                assert(self@ =~= old_k);
            }
            None
        }
    }

    /// `read_from_va`: the byte at `va` of the current task's memory, if its
    /// page is mapped readable for the user; -1 otherwise.
    pub fn read_from_va(&self, va: usize) -> (r: isize)
        requires
            kernel_wf(self@),
        ensures
            r == read_va_result(cur(self@).areas, va as int),
    {
        let t = self.current_task();
        proof { lemma_cur_local(self@); }
        let ms = &t.memory_set;
        match ms.translate(crate::mm::floor(va as u64)) {
            Some(i) => {
                let perm = ms.areas[i].perm;
                if !perm.r || !perm.u {
                    -1
                } else {
                    ms.read_byte(va as u64) as isize
                }
            },
            None => -1,
        }
    }

    /// `write_to_va`: stores `data` at `va` of the current task's memory if
    /// its page is mapped writable for the user (giving 0); -1 otherwise.
    pub fn write_to_va(&mut self, va: usize, data: u8) -> (r: isize)
        requires
            kernel_wf(old(self)@),
        ensures
            kernel_wf(final(self)@),
            if user_writable(cur(old(self)@).areas, va as int) {
                &&& r == 0
                &&& final(self)@ == with_cur_areas(
                    old(self)@,
                    with_byte(cur(old(self)@).areas, va as int, data),
                )
            } else {
                &&& r == -1
                &&& final(self)@ == old(self)@
            },
    {
        let ghost old_k = self@;
        let c = self.current;
        let mut t = self.take_task(c);
        let ghost t0 = t@;
        proof { lemma_cur_local(old_k); }
        let ok = match t.memory_set.translate(crate::mm::floor(va as u64)) {
            Some(i) => {
                let perm = t.memory_set.areas[i].perm;
                perm.w && perm.u
            },
            None => false,
        };
        if ok {
            t.memory_set.write_byte(va as u64, data);
            self.put_task(c, t);
            proof {
                let tm = TaskModel { areas: with_byte(t0.areas, va as int, data), ..t0 };
                assert(t@ =~= tm);
                lemma_wf_update_local(old_k, c as int, tm);
                assert(self@ =~= with_task(old_k, c as int, tm));
            }
            0
        } else {
            self.put_task(c, t);
            proof {
                assert(t@ =~= t0);
                assert(self@.tasks =~= old_k.tasks);
                assert(self@ =~= old_k);
            }
            -1
        }
    }
}


impl TaskManager {
    /// `write_to_va_timeval`: stores the bytes of a value at `va` of the
    /// current task's memory, the page (and, when the value crosses a page
    /// boundary, the next page) being mapped writable for the user; 0 on
    /// success, -1 otherwise.
    pub fn write_to_va_timeval(&mut self, va: usize, data: &Vec<u8>) -> (r: isize)
        requires
            kernel_wf(old(self)@),
            timeval_write_ok(cur(old(self)@).areas, va as int, data.len() as int),
        ensures
            kernel_wf(final(self)@),
            r == timeval_write(cur(old(self)@).areas, va as int, data@).0,
            final(self)@ == with_cur_areas(
                old(self)@,
                timeval_write(cur(old(self)@).areas, va as int, data@).1,
            ),
    {
        let ghost old_k = self@;
        let c = self.current;
        let mut t = self.take_task(c);
        let ghost t0 = t@;
        proof {
            lemma_cur_local(old_k);
            crate::mm::lemma_page_bounds(va as int);
            if is_mapped(t0.areas, floor_vpn(va as int)) {
                crate::mm::lemma_mapped_bound(t0.areas, floor_vpn(va as int));
            }
        }
        let size = data.len();
        let off = (va % 4096) as usize;
        let ok = match t.memory_set.translate(crate::mm::floor(va as u64)) {
            Some(i) => {
                let perm = t.memory_set.areas[i].perm;
                perm.w && perm.u
            },
            None => false,
        };
        if !ok {
            self.put_task(c, t);
            proof {
                assert(t@ =~= t0);
                assert(self@.tasks =~= old_k.tasks);
                assert(self@ =~= with_cur_areas(old_k, t0.areas));
            }
            return -1;
        }
        if off + size > 4096 {
            let first = slice_bytes(data, 0, 4096 - off);
            proof {
                assert forall|a: int| va <= a < va + first@.len() implies #[trigger] is_mapped(
                    t0.areas,
                    floor_vpn(a),
                ) by {
                    assert(floor_vpn(a) == floor_vpn(va as int));
                }
            }
            t.memory_set.write_bytes(va as u64, &first);
            let ghost s1 = t.memory_set@;
            proof {
                crate::mm::lemma_same_layout(t0.areas, s1);
            }
            let next_vpn = crate::mm::floor(mask_va(va as u64 + 4096));
            let ok2 = match t.memory_set.translate(next_vpn) {
                Some(i) => {
                    let perm = t.memory_set.areas[i].perm;
                    perm.w && perm.u
                },
                None => false,
            };
            if !ok2 {
                self.put_task(c, t);
                proof {
                    let tm = TaskModel { areas: s1, ..t0 };
                    assert(t@ =~= tm);
                    lemma_wf_update_local(old_k, c as int, tm);
                    assert(self@ =~= with_task(old_k, c as int, tm));
                }
                return -1;
            }
            let second = slice_bytes(data, 4096 - off, size);
            let base = next_vpn * 4096;
            proof {
                assert(floor_vpn(base as int) == next_vpn);
                assert forall|a: int| base <= a < base + second@.len() implies #[trigger] is_mapped(
                    s1,
                    floor_vpn(a),
                ) by {
                    assert(floor_vpn(a) == next_vpn);
                }
            }
            t.memory_set.write_bytes(base, &second);
            self.put_task(c, t);
            proof {
                let tm = TaskModel { areas: t@.areas, ..t0 };
                assert(t@ =~= tm);
                lemma_wf_update_local(old_k, c as int, tm);
                assert(self@ =~= with_task(old_k, c as int, tm));
            }
            0
        } else {
            proof {
                assert forall|a: int| va <= a < va + size implies #[trigger] is_mapped(
                    t0.areas,
                    floor_vpn(a),
                ) by {
                    assert(floor_vpn(a) == floor_vpn(va as int));
                }
            }
            t.memory_set.write_bytes(va as u64, data);
            self.put_task(c, t);
            proof {
                let tm = TaskModel { areas: t@.areas, ..t0 };
                assert(t@ =~= tm);
                lemma_wf_update_local(old_k, c as int, tm);
                assert(self@ =~= with_task(old_k, c as int, tm));
            }
            0
        }
    }

    /// `map_len_to_start`: maps `start .. start + len` of the current task to
    /// fresh zero-filled frames with the rights of `port` (plus user
    /// access), unless one of the pages the check loop looks at is mapped
    /// already (-1).
    pub fn map_len_to_start(&mut self, start: usize, len: usize, port: usize) -> (r: isize)
        requires
            kernel_wf(old(self)@),
            start + len + PAGE_SIZE <= usize::MAX,
            pages_free_from(cur(old(self)@).areas, start as int, len as int) ==> map_insert_ok(
                cur(old(self)@).areas,
                start as int,
                len as int,
            ),
        ensures
            kernel_wf(final(self)@),
            if pages_free_from(cur(old(self)@).areas, start as int, len as int) {
                &&& r == 0
                &&& final(self)@ == with_cur_areas(
                    old(self)@,
                    mapped_result(cur(old(self)@).areas, start as int, len as int, port),
                )
            } else {
                &&& r == -1
                &&& final(self)@ == old(self)@
            },
    {
        let ghost old_k = self@;
        let c = self.current;
        let mut t = self.take_task(c);
        let ghost t0 = t@;
        proof {
            lemma_cur_local(old_k);
        }
        let perm = port_to_perm(port);
        let end = start + len;
        let mut a = start;
        let ghost mut i: int = 0;
        while a < end
            invariant
                t@ == t0,
                areas_wf(t0.areas),
                c == old_k.current,
                old_k == old(self)@,
                kernel_wf(old_k),
                live(old_k.tasks, c as int),
                self@ == (KernelModel { tasks: old_k.tasks.update(c as int, None), ..old_k }),
                t0 == cur(old_k),
                end == start + len,
                start + len + PAGE_SIZE <= usize::MAX,
                i >= 0,
                a == start + i * PAGE_SIZE,
                a <= end + PAGE_SIZE,
                forall|j: int|
                    0 <= j < i ==> !#[trigger] is_mapped(t0.areas, floor_vpn(va_mask(start + j * PAGE_SIZE))),
            decreases end + PAGE_SIZE - a,
        {
            if t.memory_set.translate(crate::mm::floor(mask_va(a as u64))).is_some() {
                self.put_task(c, t);
                proof {
                    assert(i * PAGE_SIZE < len);
                    assert(self@.tasks =~= old_k.tasks);
                    assert(self@ =~= old_k);
                }
                return -1;
            }
            a = a + 4096;
            proof {
                i = i + 1;
            }
        }
        proof {
            assert forall|j: int| 0 <= j && j * PAGE_SIZE < len implies !#[trigger] is_mapped(
                t0.areas,
                floor_vpn(va_mask(start + j * PAGE_SIZE)),
            ) by {
                assert(j < i);
            }
        }
        t.memory_set.insert_framed_area(mask_va(start as u64), mask_va(end as u64), perm);
        self.put_task(c, t);
        proof {
            let tm = TaskModel {
                areas: mapped_result(t0.areas, start as int, len as int, port),
                ..t0
            };
            assert(t@ =~= tm);
            lemma_wf_update_local(old_k, c as int, tm);
            assert(self@ =~= with_task(old_k, c as int, tm));
        }
        0
    }

    /// `unmap_len_to_start`: when every page the check loop looks at in
    /// `start .. start + len` is mapped, cuts the area starting at `start`'s
    /// page back to nothing (0); otherwise -1.
    pub fn unmap_len_to_start(&mut self, start: usize, len: usize) -> (r: isize)
        requires
            kernel_wf(old(self)@),
            start + len + PAGE_SIZE <= usize::MAX,
            pages_mapped_from(cur(old(self)@).areas, start as int, len as int) ==> shrink_ok(
                cur(old(self)@).areas,
                unmap_va(start as int),
                unmap_va(start as int),
            ),
        ensures
            kernel_wf(final(self)@),
            if pages_mapped_from(cur(old(self)@).areas, start as int, len as int) {
                &&& r == 0
                &&& final(self)@ == with_cur_areas(
                    old(self)@,
                    shrink_result(cur(old(self)@).areas, unmap_va(start as int), unmap_va(start as int)),
                )
            } else {
                &&& r == -1
                &&& final(self)@ == old(self)@
            },
    {
        let ghost old_k = self@;
        let c = self.current;
        let mut t = self.take_task(c);
        let ghost t0 = t@;
        proof {
            lemma_cur_local(old_k);
        }
        let end = start + len;
        let mut a = start;
        let ghost mut i: int = 0;
        while a < end
            invariant
                t@ == t0,
                areas_wf(t0.areas),
                c == old_k.current,
                old_k == old(self)@,
                kernel_wf(old_k),
                live(old_k.tasks, c as int),
                self@ == (KernelModel { tasks: old_k.tasks.update(c as int, None), ..old_k }),
                t0 == cur(old_k),
                end == start + len,
                start + len + PAGE_SIZE <= usize::MAX,
                i >= 0,
                a == start + i * PAGE_SIZE,
                a <= end + PAGE_SIZE,
                forall|j: int|
                    0 <= j < i ==> #[trigger] is_mapped(t0.areas, floor_vpn(va_mask(start + j * PAGE_SIZE))),
            decreases end + PAGE_SIZE - a,
        {
            if t.memory_set.translate(crate::mm::floor(mask_va(a as u64))).is_none() {
                self.put_task(c, t);
                proof {
                    assert(i * PAGE_SIZE < len);
                    assert(self@.tasks =~= old_k.tasks);
                    assert(self@ =~= old_k);
                }
                return -1;
            }
            a = a + 4096;
            proof {
                i = i + 1;
            }
        }
        proof {
            assert forall|j: int| 0 <= j && j * PAGE_SIZE < len implies #[trigger] is_mapped(
                t0.areas,
                floor_vpn(va_mask(start + j * PAGE_SIZE)),
            ) by {
                assert(j < i);
            }
        }
        let m = crate::mm::floor(mask_va(start as u64)) * 4096;
        t.memory_set.shrink_to(m, m);
        self.put_task(c, t);
        proof {
            let tm = TaskModel {
                areas: shrink_result(t0.areas, unmap_va(start as int), unmap_va(start as int)),
                ..t0
            };
            assert(t@ =~= tm);
            lemma_wf_update_local(old_k, c as int, tm);
            assert(self@ =~= with_task(old_k, c as int, tm));
        }
        0
    }

    /// When every page the check loop looks at in `start .. start + len` is
    /// mapped, drops the area that starts at `start`'s page (0); otherwise -1.
    pub fn unmap_area(&mut self, start: usize, len: usize) -> (r: isize)
        requires
            kernel_wf(old(self)@),
            start + len + PAGE_SIZE <= usize::MAX,
        ensures
            kernel_wf(final(self)@),
            if pages_mapped_from(cur(old(self)@).areas, start as int, len as int) {
                &&& r == 0
                &&& final(self)@ == with_cur_areas(
                    old(self)@,
                    remove_result(cur(old(self)@).areas, floor_vpn(va_mask(start as int))),
                )
            } else {
                &&& r == -1
                &&& final(self)@ == old(self)@
            },
    {
        let ghost old_k = self@;
        let c = self.current;
        let mut t = self.take_task(c);
        let ghost t0 = t@;
        proof {
            lemma_cur_local(old_k);
        }
        let end = start + len;
        let mut a = start;
        let ghost mut i: int = 0;
        while a < end
            invariant
                t@ == t0,
                areas_wf(t0.areas),
                c == old_k.current,
                old_k == old(self)@,
                kernel_wf(old_k),
                live(old_k.tasks, c as int),
                self@ == (KernelModel { tasks: old_k.tasks.update(c as int, None), ..old_k }),
                t0 == cur(old_k),
                end == start + len,
                start + len + PAGE_SIZE <= usize::MAX,
                i >= 0,
                a == start + i * PAGE_SIZE,
                a <= end + PAGE_SIZE,
                forall|j: int|
                    0 <= j < i ==> #[trigger] is_mapped(t0.areas, floor_vpn(va_mask(start + j * PAGE_SIZE))),
            decreases end + PAGE_SIZE - a,
        {
            if t.memory_set.translate(crate::mm::floor(mask_va(a as u64))).is_none() {
                self.put_task(c, t);
                proof {
                    assert(i * PAGE_SIZE < len);
                    assert(self@.tasks =~= old_k.tasks);
                    assert(self@ =~= old_k);
                }
                return -1;
            }
            a = a + 4096;
            proof {
                i = i + 1;
            }
        }
        proof {
            assert forall|j: int| 0 <= j && j * PAGE_SIZE < len implies #[trigger] is_mapped(
                t0.areas,
                floor_vpn(va_mask(start + j * PAGE_SIZE)),
            ) by {
                assert(j < i);
            }
        }
        t.memory_set.remove_area_with_start_vpn(crate::mm::floor(mask_va(start as u64)));
        self.put_task(c, t);
        proof {
            let tm = TaskModel {
                areas: remove_result(t0.areas, floor_vpn(va_mask(start as int))),
                ..t0
            };
            assert(t@ =~= tm);
            lemma_wf_update_local(old_k, c as int, tm);
            assert(self@ =~= with_task(old_k, c as int, tm));
        }
        0
    }

    /// Copies `len` bytes of the current task's memory from `ptr` on.
    pub fn read_user_buf(&self, ptr: usize, len: usize) -> (v: Vec<u8>)
        requires
            kernel_wf(self@),
            user_buf_ok(cur(self@).areas, ptr as int, len as int),
        ensures
            v@ == user_bytes(cur(self@).areas, ptr as int, len as nat),
    {
        proof {
            lemma_cur_local(self@);
        }
        let t = self.current_task();
        t.memory_set.read_bytes(mask_va(ptr as u64), len)
    }

    /// Copies `data` into the current task's memory from `ptr` on.
    pub fn write_user_buf(&mut self, ptr: usize, data: &Vec<u8>)
        requires
            kernel_wf(old(self)@),
            user_buf_ok(cur(old(self)@).areas, ptr as int, data.len() as int),
        ensures
            kernel_wf(final(self)@),
            final(self)@ == with_cur_areas(
                old(self)@,
                user_written(cur(old(self)@).areas, ptr as int, data@),
            ),
    {
        let ghost old_k = self@;
        let c = self.current;
        let mut t = self.take_task(c);
        let ghost t0 = t@;
        proof {
            lemma_cur_local(old_k);
        }
        t.memory_set.write_bytes(mask_va(ptr as u64), data);
        self.put_task(c, t);
        proof {
            let tm = TaskModel { areas: user_written(t0.areas, ptr as int, data@), ..t0 };
            assert(t@ =~= tm);
            lemma_wf_update_local(old_k, c as int, tm);
            assert(self@ =~= with_task(old_k, c as int, tm));
        }
    }

    /// `translated_str`: the bytes of the string at `ptr` in the current
    /// task's memory, up to (without) its terminating zero.
    pub fn read_user_cstr(&self, ptr: usize) -> (v: Vec<u8>)
        requires
            kernel_wf(self@),
            cstr_ok(cur(self@).areas, ptr as int),
        ensures
            v@ == user_cstr(cur(self@).areas, ptr as int),
    {
        proof {
            lemma_cur_local(self@);
        }
        let t = self.current_task();
        let ghost s = t@.areas;
        let ghost n = choose|n: int| cstr_has_len(s, ptr as int, n);
        let mut v: Vec<u8> = Vec::new();
        let mut a = ptr;
        loop
            invariant
                cstr_has_len(s, ptr as int, n),
                n == choose|n: int| cstr_has_len(s, ptr as int, n),
                s == cur(self@).areas,
                areas_wf(s),
                s == t.memory_set@,
                ptr <= a <= ptr + n,
                v@ == Seq::new((a - ptr) as nat, |i: int| byte_at(s, va_mask(ptr + i))),
            decreases ptr + n - a,
        {
            let i = a - ptr;
            assert(is_mapped(s, floor_vpn(va_mask(ptr + i))));
            let b = t.memory_set.read_byte(mask_va(a as u64));
            if b == 0 {
                proof {
                    if i < n {
                        assert(byte_at(s, va_mask(ptr + i)) != 0);
                    }
                }
                return v;
            }
            v.push(b);
            a = a + 1;
            assert(v@ =~= Seq::new((a - ptr) as nat, |i: int| byte_at(s, va_mask(ptr + i))));
        }
    }
}

/// The bytes `data[from .. to]`.
pub fn slice_bytes(data: &Vec<u8>, from: usize, to: usize) -> (v: Vec<u8>)
    requires
        from <= to <= data.len(),
    ensures
        v@ == data@.subrange(from as int, to as int),
{
    let mut v: Vec<u8> = Vec::new();
    let mut k = from;
    while k < to
        invariant
            from <= k <= to <= data.len(),
            v@ == data@.subrange(from as int, k as int),
        decreases to - k,
    {
        v.push(data[k]);
        k = k + 1;
        assert(v@ =~= data@.subrange(from as int, k as int));
    }
    v
}



impl TaskManager {
    /// Whether `len` bytes of the current task's memory at `ptr` can be copied.
    pub fn user_buf_valid(&self, ptr: usize, len: usize) -> (b: bool)
        requires
            kernel_wf(self@),
        ensures
            b == user_buf_ok(cur(self@).areas, ptr as int, len as int),
    {
        proof {
            lemma_cur_local(self@);
        }
        let t = self.current_task();
        let base = mask_va(ptr as u64);
        if len as u64 > VA_RANGE - base {
            return false;
        }
        let mut i: u64 = 0;
        while i < len as u64
            invariant
                i <= len,
                base + len <= VA_RANGE,
                base == va_mask(ptr as int),
                t@ == cur(self@),
                areas_wf(t@.areas),
                forall|a: int| base <= a < base + i ==> #[trigger] is_mapped(t@.areas, floor_vpn(a)),
            decreases len - i,
        {
            if t.memory_set.translate(crate::mm::floor(base + i)).is_none() {
                assert(!crate::mm::bytes_mapped(t@.areas, base as int, len as int)) by {
                    assert(!is_mapped(t@.areas, floor_vpn(base + i)));
                }
                return false;
            }
            i = i + 1;
        }
        true
    }

    /// Whether the current task's memory holds a terminated string at `ptr`.
    pub fn user_str_valid(&self, ptr: usize) -> (b: bool)
        requires
            kernel_wf(self@),
        ensures
            b == cstr_ok(cur(self@).areas, ptr as int),
    {
        proof {
            lemma_cur_local(self@);
        }
        let t = self.current_task();
        let ghost s = t@.areas;
        let mut a = ptr;
        loop
            invariant
                ptr <= a,
                s == t@.areas,
                s == cur(self@).areas,
                areas_wf(s),
                forall|i: int| 0 <= i < a - ptr ==> #[trigger] is_mapped(s, floor_vpn(va_mask(ptr + i))),
                forall|i: int| 0 <= i < a - ptr ==> #[trigger] byte_at(s, va_mask(ptr + i)) != 0,
            decreases usize::MAX - a,
        {
            let ghost i = a - ptr;
            if a == usize::MAX {
                proof {
                    if cstr_ok(s, ptr as int) {
                        let n = choose|n: int| cstr_has_len(s, ptr as int, n);
                        if n < i {
                            assert(byte_at(s, va_mask(ptr + n)) != 0);
                        }
                    }
                }
                return false;
            }
            let m = mask_va(a as u64);
            if t.memory_set.translate(crate::mm::floor(m)).is_none() {
                proof {
                    if cstr_ok(s, ptr as int) {
                        let n = choose|n: int| cstr_has_len(s, ptr as int, n);
                        if n < i {
                            assert(byte_at(s, va_mask(ptr + n)) != 0);
                        } else {
                            assert(is_mapped(s, floor_vpn(va_mask(ptr + i))));
                        }
                    }
                }
                return false;
            }
            if t.memory_set.read_byte(m) == 0 {
                proof {
                    assert(cstr_has_len(s, ptr as int, i));
                }
                return true;
            }
            a = a + 1;
        }
    }

    /// Whether the area of a mapping request of `start .. start + len` can
    /// be added to the current task's address space.
    pub fn map_insert_valid(&self, start: usize, len: usize) -> (b: bool)
        requires
            kernel_wf(self@),
            start + len <= usize::MAX,
        ensures
            b == map_insert_ok(cur(self@).areas, start as int, len as int),
    {
        proof {
            lemma_cur_local(self@);
        }
        let t = self.current_task();
        let lo = crate::mm::floor(mask_va(start as u64));
        let hi = crate::mm::ceil(mask_va((start + len) as u64));
        if lo > hi {
            return false;
        }
        if (hi - lo) * 4096 > usize::MAX as u64 {
            return false;
        }
        let mut v = lo;
        while v < hi
            invariant
                lo <= v <= hi,
                lo == map_lo(start as int),
                hi == map_hi(start as int, len as int),
                t@ == cur(self@),
                areas_wf(t@.areas),
                forall|x: int| lo <= x < v ==> !#[trigger] is_mapped(t@.areas, x),
            decreases hi - v,
        {
            if t.memory_set.translate(v).is_some() {
                return false;
            }
            v = v + 1;
        }
        true
    }

    /// Whether the current task's program break can be moved by `size`.
    pub fn brk_valid(&self, size: i32) -> (b: bool)
        requires
            kernel_wf(self@),
        ensures
            b == brk_ok(cur(self@), size),
    {
        proof {
            lemma_cur_local(self@);
        }
        let t = self.current_task();
        let nb: i64 = t.program_brk as i64 + size as i64;
        if nb < t.heap_bottom as i64 {
            return true;
        }
        if nb as u64 > VA_RANGE {
            return false;
        }
        let e = crate::mm::ceil(nb as u64);
        match t.memory_set.find_area_starting_at(crate::mm::floor(t.heap_bottom)) {
            None => true,
            Some(i) => {
                let a = &t.memory_set.areas[i];
                if size < 0 {
                    a.start_vpn <= e && e <= a.end_vpn
                } else {
                    if a.end_vpn > e {
                        return false;
                    }
                    if (e - a.start_vpn) * 4096 > usize::MAX as u64 {
                        return false;
                    }
                    let mut v = a.end_vpn;
                    while v < e
                        invariant
                            a.end_vpn <= v <= e,
                            t@ == cur(self@),
                            i < t@.areas.len(),
                            a@ == t@.areas[i as int],
                            first_starting_at(t@.areas, floor_vpn(t@.heap_bottom as int)) == Some(i as int),
                            size >= 0,
                            nb == new_brk(t@, size),
                            nb >= t@.heap_bottom,
                            0 <= nb <= VA_RANGE,
                            e == ceil_vpn(nb as int),
                            areas_wf(t@.areas),
                            forall|x: int| a.end_vpn <= x < v ==> !#[trigger] is_mapped(t@.areas, x),
                        decreases e - v,
                    {
                        if t.memory_set.translate(v).is_some() {
                            return false;
                        }
                        v = v + 1;
                    }
                    true
                }
            },
        }
    }
}

} // verus!
