//! Program loading: the address space, user stack and entry point of a
//! program are built from its ELF64 image. Each loadable segment becomes an
//! area of its own pages with the rights its flags give, holding the
//! segment's file bytes from the area's first page on; above the last
//! segment come a guard page, the user stack, the (empty) heap, the
//! trap-context page and the trampoline.
use vstd::prelude::*;

use crate::config::{PAGE_SIZE, TRAMPOLINE_VPN, TRAP_CONTEXT_VPN, USER_STACK_SIZE, VA_RANGE, VPN_RANGE};
use crate::mm::{
    area_contains, area_wf, areas_wf, ceil, ceil_vpn, floor, floor_vpn, is_mapped, range_free,
    user_rw, zero_area, AreaModel, MapArea, MapPermission, MemorySet,
};

verus! {

/// Program-header type of a loadable segment.
pub const PT_LOAD: u64 = 1;

/// Size of one ELF64 program header.
pub const PH_SIZE: u64 = 56;

/// The number that the bytes `s` spell, least significant first.
pub open spec fn le_value(s: Seq<u8>) -> nat
    decreases s.len(),
{
    if s.len() == 0 {
        0
    } else {
        s[0] as nat + 256 * le_value(s.drop_first())
    }
}

/// `256` to the power `n`.
pub open spec fn pow256(n: nat) -> nat
    decreases n,
{
    if n == 0 {
        1
    } else {
        256 * pow256((n - 1) as nat)
    }
}

/// The little-endian field of `n` bytes at offset `off` of `img`.
pub open spec fn field(img: Seq<u8>, off: int, n: int) -> nat {
    le_value(img.subrange(off, off + n))
}

/// Entry point of the program (`e_entry`).
pub open spec fn elf_entry(img: Seq<u8>) -> nat {
    field(img, 24, 8)
}

/// Offset of the program-header table (`e_phoff`).
pub open spec fn ph_off(img: Seq<u8>) -> nat {
    field(img, 32, 8)
}

/// Number of program headers (`e_phnum`).
pub open spec fn ph_num(img: Seq<u8>) -> nat {
    field(img, 56, 2)
}

/// Offset of program header `i`.
pub open spec fn ph_at(img: Seq<u8>, i: int) -> int {
    ph_off(img) + PH_SIZE * i
}

/// Type of segment `i` (`p_type`).
pub open spec fn seg_type(img: Seq<u8>, i: int) -> nat {
    field(img, ph_at(img, i), 4)
}

/// Flags of segment `i` (`p_flags`).
pub open spec fn seg_flags(img: Seq<u8>, i: int) -> nat {
    field(img, ph_at(img, i) + 4, 4)
}

/// File offset of segment `i` (`p_offset`).
pub open spec fn seg_offset(img: Seq<u8>, i: int) -> nat {
    field(img, ph_at(img, i) + 8, 8)
}

/// Virtual address of segment `i` (`p_vaddr`).
pub open spec fn seg_vaddr(img: Seq<u8>, i: int) -> nat {
    field(img, ph_at(img, i) + 16, 8)
}

/// Bytes of segment `i` in the file (`p_filesz`).
pub open spec fn seg_filesz(img: Seq<u8>, i: int) -> nat {
    field(img, ph_at(img, i) + 32, 8)
}

/// Bytes of segment `i` in memory (`p_memsz`).
pub open spec fn seg_memsz(img: Seq<u8>, i: int) -> nat {
    field(img, ph_at(img, i) + 40, 8)
}

/// Whether segment `i` is loaded.
pub open spec fn is_load(img: Seq<u8>, i: int) -> bool {
    seg_type(img, i) == PT_LOAD
}

/// First page of segment `i`.
pub open spec fn seg_start(img: Seq<u8>, i: int) -> int {
    floor_vpn(seg_vaddr(img, i) as int)
}

/// End page of segment `i`.
pub open spec fn seg_end(img: Seq<u8>, i: int) -> int {
    ceil_vpn((seg_vaddr(img, i) + seg_memsz(img, i)) as int)
}

/// The rights that segment flags give: readable (4), writable (2),
/// executable (1), and always user.
pub open spec fn seg_perm(flags: nat) -> MapPermission {
    MapPermission { r: (flags / 4) % 2 == 1, w: (flags / 2) % 2 == 1, x: flags % 2 == 1, u: true }
}

/// The area of segment `i`: its pages, its rights, and its file bytes from
/// the first page on, the rest zero.
pub open spec fn seg_area(img: Seq<u8>, i: int) -> AreaModel {
    AreaModel {
        start_vpn: seg_start(img, i) as u64,
        end_vpn: seg_end(img, i) as u64,
        perm: seg_perm(seg_flags(img, i)),
        frames: Seq::new(
            ((seg_end(img, i) - seg_start(img, i)) * PAGE_SIZE) as nat,
            |j: int|
                if j < seg_filesz(img, i) {
                    img[seg_offset(img, i) + j]
                } else {
                    0u8
                },
        ),
    }
}

/// The areas of the loadable segments among the first `n` program headers, in order.
pub open spec fn load_areas(img: Seq<u8>, n: nat) -> Seq<AreaModel>
    decreases n,
{
    if n == 0 {
        Seq::empty()
    } else if is_load(img, n - 1) {
        load_areas(img, (n - 1) as nat).push(seg_area(img, n - 1))
    } else {
        load_areas(img, (n - 1) as nat)
    }
}

/// End page of the last loadable segment among the first `n` program
/// headers (0 when there is none).
pub open spec fn load_end(img: Seq<u8>, n: nat) -> int
    decreases n,
{
    if n == 0 {
        0
    } else if is_load(img, n - 1) {
        seg_end(img, n - 1)
    } else {
        load_end(img, (n - 1) as nat)
    }
}

/// Whether program header `i` can be loaded: a loadable segment lies in
/// the file, is not larger in the file than in memory, fits in the address
/// space and in memory, and starts at or after the end of the segments
/// before it.
pub open spec fn seg_ok(img: Seq<u8>, i: int) -> bool {
    is_load(img, i) ==> {
        &&& seg_offset(img, i) + seg_filesz(img, i) <= img.len()
        &&& seg_filesz(img, i) <= seg_memsz(img, i)
        &&& seg_vaddr(img, i) + seg_memsz(img, i) <= VA_RANGE
        &&& seg_start(img, i) >= load_end(img, i as nat)
        &&& (seg_end(img, i) - seg_start(img, i)) * PAGE_SIZE <= usize::MAX
    }
}

/// Pages of the user stack.
pub open spec fn stack_pages() -> int {
    (USER_STACK_SIZE / PAGE_SIZE) as int
}

/// Whether `img` is an ELF image that can be loaded: it has the ELF magic
/// and a whole header, its program headers lie in it, every loadable
/// segment can be loaded, and the stack above the last one stays below
/// the trap-context page.
pub open spec fn elf_ok(img: Seq<u8>) -> bool {
    &&& img.len() >= 64
    &&& img[0] == 0x7f && img[1] == 0x45 && img[2] == 0x4c && img[3] == 0x46
    &&& ph_off(img) + PH_SIZE * ph_num(img) <= img.len()
    &&& forall|i: int| 0 <= i < ph_num(img) ==> #[trigger] seg_ok(img, i)
    &&& load_end(img, ph_num(img)) + 1 + stack_pages() <= TRAP_CONTEXT_VPN
}

/// Top of the user stack of `img`: a guard page and the stack above its
/// last loadable segment.
pub open spec fn elf_stack_top(img: Seq<u8>) -> int {
    (load_end(img, ph_num(img)) + 1 + stack_pages()) * PAGE_SIZE
}

/// The address space of a freshly loaded `img`: its segments, then the
/// user stack, the empty heap at the stack's top, the trap-context page and
/// the trampoline.
pub open spec fn elf_space(img: Seq<u8>) -> Seq<AreaModel> {
    let e = load_end(img, ph_num(img));
    load_areas(img, ph_num(img)) + seq![
        zero_area((e + 1) as u64, (e + 1 + stack_pages()) as u64, user_rw()),
        zero_area((e + 1 + stack_pages()) as u64, (e + 1 + stack_pages()) as u64, user_rw()),
        zero_area(TRAP_CONTEXT_VPN, TRAMPOLINE_VPN, MapPermission { r: true, w: true, x: false, u: false }),
        zero_area(TRAMPOLINE_VPN, VPN_RANGE, MapPermission { r: true, w: false, x: true, u: false }),
    ]
}

/// A little-endian value of `n` bytes is below `256` to the power `n`.
pub proof fn lemma_le_value_bound(s: Seq<u8>)
    ensures
        le_value(s) < pow256(s.len()),
    decreases s.len(),
{
    if s.len() > 0 {
        lemma_le_value_bound(s.drop_first());
    }
}

/// Powers of 256 grow with the exponent.
pub proof fn lemma_pow256_mono(m: nat, n: nat)
    requires
        m <= n,
    ensures
        pow256(m) <= pow256(n),
    decreases n,
{
    if m < n {
        lemma_pow256_mono(m, (n - 1) as nat);
    }
}

/// The page of an address is at or below the page boundary at or above any
/// later address.
pub proof fn lemma_floor_le_ceil(a: int, b: int)
    requires
        0 <= a <= b,
    ensures
        floor_vpn(a) <= ceil_vpn(b),
{
    if b > 0 {
        vstd::arithmetic::div_mod::lemma_div_is_ordered(a, b - 1 + PAGE_SIZE, PAGE_SIZE as int);
    }
}

/// The end of the loaded segments only grows over the program headers.
pub proof fn lemma_load_end_mono(img: Seq<u8>, i: nat, n: nat)
    requires
        i <= n <= ph_num(img),
        forall|j: int| 0 <= j < ph_num(img) ==> #[trigger] seg_ok(img, j),
    ensures
        load_end(img, i) <= load_end(img, n),
    decreases n,
{
    if i < n {
        lemma_load_end_mono(img, i, (n - 1) as nat);
        if is_load(img, n - 1) {
            assert(seg_ok(img, n - 1));
            lemma_floor_le_ceil(
                seg_vaddr(img, n - 1) as int,
                (seg_vaddr(img, n - 1) + seg_memsz(img, n - 1)) as int,
            );
        }
    }
}

/// Reads the little-endian field of `n` bytes at offset `off` of `img`.
pub fn read_le(img: &Vec<u8>, off: usize, n: usize) -> (v: u64)
    requires
        off + n <= img.len(),
        n <= 8,
    ensures
        v == field(img@, off as int, n as int),
{
    let mut v: u64 = 0;
    let mut k: usize = n;
    proof {
        assert(img@.subrange(off + n, off + n) =~= Seq::<u8>::empty());
        reveal_with_fuel(pow256, 8);
    }
    while k > 0
        invariant
            k <= n,
            n <= 8,
            off + n <= img.len(),
            v == le_value(img@.subrange(off + k, off + n)),
            pow256(7) == 0x100_0000_0000_0000,
        decreases k,
    {
        let ghost rest = img@.subrange(off + k, off + n);
        let ghost whole = img@.subrange(off + k - 1, off + n);
        proof {
            assert(whole.drop_first() =~= rest);
            lemma_le_value_bound(rest);
            lemma_pow256_mono(rest.len(), 7);
        }
        v = v * 256 + img[off + k - 1] as u64;
        k = k - 1;
    }
    v
}

/// The bytes of a segment's area: `size` bytes, the first `filesz` of
/// them the file's bytes from `off` on, the rest zero.
pub fn segment_frames(img: &Vec<u8>, off: usize, filesz: usize, size: usize) -> (v: Vec<u8>)
    requires
        off + filesz <= img.len(),
    ensures
        v@ == Seq::new(size as nat, |j: int| if j < filesz { img@[off + j] } else { 0u8 }),
{
    let mut v: Vec<u8> = Vec::new();
    let mut j: usize = 0;
    while j < size
        invariant
            j <= size,
            off + filesz <= img.len(),
            v@ == Seq::new(j as nat, |t: int| if t < filesz { img@[off + t] } else { 0u8 }),
        decreases size - j,
    {
        if j < filesz {
            v.push(img[off + j]);
        } else {
            v.push(0);
        }
        j = j + 1;
        assert(v@ =~= Seq::new(j as nat, |t: int| if t < filesz { img@[off + t] } else { 0u8 }));
    }
    v
}

/// Pushing an area that lies at or above `lo` and ends by `hi` onto areas
/// that map nothing at or above `lo` leaves nothing mapped at or above `hi`.
pub proof fn lemma_free_above_push(s: Seq<AreaModel>, a: AreaModel, lo: int, hi: int)
    requires
        forall|v: int| v >= lo ==> !#[trigger] is_mapped(s, v),
        lo <= a.start_vpn,
        lo <= hi,
        a.end_vpn <= hi,
    ensures
        forall|v: int| v >= hi ==> !#[trigger] is_mapped(s.push(a), v),
{
    assert forall|v: int| v >= hi implies !#[trigger] is_mapped(s.push(a), v) by {
        if is_mapped(s.push(a), v) {
            let j = choose|j: int| 0 <= j < s.push(a).len() && #[trigger] area_contains(s.push(a)[j], v);
            if j == s.len() {
                assert(s.push(a)[j] == a);
            } else {
                assert(s.push(a)[j] == s[j]);
                assert(area_contains(s[j], v));
                assert(is_mapped(s, v));
            }
        }
    }
}

impl MemorySet {
    /// `from_elf`: the address space of a freshly loaded `img`, the top of
    /// its user stack and its entry point.
    pub fn from_elf(img: &Vec<u8>) -> (r: (MemorySet, u64, u64))
        requires
            elf_ok(img@),
        ensures
            r.0@ == elf_space(img@),
            areas_wf(r.0@),
            r.1 == elf_stack_top(img@),
            r.2 == elf_entry(img@),
            elf_stack_top(img@) <= TRAP_CONTEXT_VPN * PAGE_SIZE,
    {
        let phoff = read_le(img, 32, 8);
        let phnum = read_le(img, 56, 2);
        let entry = read_le(img, 24, 8);
        let mut ms = MemorySet::new_bare();
        let mut end: u64 = 0;
        let mut i: u64 = 0;
        proof {
            crate::mm::lemma_areas_wf_empty();
        }
        while i < phnum
            invariant
                elf_ok(img@),
                phoff == ph_off(img@),
                phnum == ph_num(img@),
                i <= phnum,
                ms@ == load_areas(img@, i as nat),
                areas_wf(ms@),
                end == load_end(img@, i as nat),
                forall|v: int| v >= end ==> !#[trigger] is_mapped(ms@, v),
            decreases phnum - i,
        {
            proof {
                assert(seg_ok(img@, i as int));
                lemma_load_end_mono(img@, (i + 1) as nat, phnum as nat);
                assert(56 * i + 56 <= 56 * phnum) by (nonlinear_arith)
                    requires
                        i < phnum,
                ;
                assert(phoff + 56 * phnum <= img.len());
            }
            let base = (phoff + PH_SIZE * i) as usize;
            let ty = read_le(img, base, 4);
            if ty == PT_LOAD {
                let flags = read_le(img, base + 4, 4);
                let offset = read_le(img, base + 8, 8);
                let vaddr = read_le(img, base + 16, 8);
                let filesz = read_le(img, base + 32, 8);
                let memsz = read_le(img, base + 40, 8);
                let s = floor(vaddr);
                let e = ceil(vaddr + memsz);
                proof {
                    lemma_floor_le_ceil(vaddr as int, (vaddr + memsz) as int);
                }
                let frames = segment_frames(
                    img,
                    offset as usize,
                    filesz as usize,
                    ((e - s) * PAGE_SIZE) as usize,
                );
                let perm = MapPermission {
                    r: flags / 4 % 2 == 1,
                    w: flags / 2 % 2 == 1,
                    x: flags % 2 == 1,
                    u: true,
                };
                let area = MapArea { start_vpn: s, end_vpn: e, perm, frames };
                let ghost old_s = ms@;
                proof {
                    assert(area@ =~= seg_area(img@, i as int));
                    lemma_free_above_push(old_s, area@, end as int, e as int);
                }
                ms.push_area(area);
                end = e;
            }
            proof {
                assert(ms@ =~= load_areas(img@, (i + 1) as nat));
            }
            i = i + 1;
        }
        let stack_bottom = end + 1;
        let stack_top = stack_bottom + USER_STACK_SIZE / PAGE_SIZE;
        let ghost s0 = ms@;
        ms.push_zero_area(stack_bottom, stack_top, user_rw_perm());
        proof {
            lemma_free_above_push(s0, zero_area(stack_bottom, stack_top, user_rw()), end as int, stack_top as int);
        }
        let ghost s1 = ms@;
        ms.push_zero_area(stack_top, stack_top, user_rw_perm());
        proof {
            lemma_free_above_push(s1, zero_area(stack_top, stack_top, user_rw()), stack_top as int, stack_top as int);
        }
        let ghost s2 = ms@;
        let trap_perm = MapPermission { r: true, w: true, x: false, u: false };
        ms.push_zero_area(TRAP_CONTEXT_VPN, TRAMPOLINE_VPN, trap_perm);
        proof {
            lemma_free_above_push(
                s2,
                zero_area(TRAP_CONTEXT_VPN, TRAMPOLINE_VPN, trap_perm),
                stack_top as int,
                TRAMPOLINE_VPN as int,
            );
        }
        ms.push_zero_area(TRAMPOLINE_VPN, VPN_RANGE, MapPermission { r: true, w: false, x: true, u: false });
        assert(ms@ =~= elf_space(img@));
        (ms, stack_top * PAGE_SIZE, entry)
    }
}

/// Read and write rights for the user.
pub fn user_rw_perm() -> (p: MapPermission)
    ensures
        p == user_rw(),
{
    MapPermission { r: true, w: true, x: false, u: true }
}

/// `elf_ok`: whether `img` is an ELF image that can be loaded.
pub fn elf_valid(img: &Vec<u8>) -> (b: bool)
    ensures
        b == elf_ok(img@),
{
    if img.len() < 64 {
        return false;
    }
    if !(img[0] == 0x7f && img[1] == 0x45 && img[2] == 0x4c && img[3] == 0x46) {
        return false;
    }
    let phoff = read_le(img, 32, 8);
    let phnum = read_le(img, 56, 2);
    let len = img.len() as u64;
    proof {
        lemma_le_value_bound(img@.subrange(56, 58));
        reveal_with_fuel(pow256, 3);
    }
    if phoff > len || PH_SIZE * phnum > len - phoff {
        return false;
    }
    let mut end: u64 = 0;
    let mut i: u64 = 0;
    while i < phnum
        invariant
            img.len() >= 64,
            len == img.len(),
            img@[0] == 0x7f && img@[1] == 0x45 && img@[2] == 0x4c && img@[3] == 0x46,
            phoff == ph_off(img@),
            phnum == ph_num(img@),
            phoff + PH_SIZE * phnum <= img.len(),
            i <= phnum,
            end == load_end(img@, i as nat),
            end <= VPN_RANGE,
            forall|j: int| 0 <= j < i ==> #[trigger] seg_ok(img@, j),
        decreases phnum - i,
    {
        proof {
            assert(56 * i + 56 <= 56 * phnum) by (nonlinear_arith)
                requires
                    i < phnum,
            ;
        }
        let base = (phoff + PH_SIZE * i) as usize;
        let ty = read_le(img, base, 4);
        if ty == PT_LOAD {
            let offset = read_le(img, base + 8, 8);
            let vaddr = read_le(img, base + 16, 8);
            let filesz = read_le(img, base + 32, 8);
            let memsz = read_le(img, base + 40, 8);
            if offset > len || filesz > len - offset {
                proof {
                    assert(!seg_ok(img@, i as int));
                }
                return false;
            }
            if filesz > memsz {
                proof {
                    assert(!seg_ok(img@, i as int));
                }
                return false;
            }
            if vaddr > VA_RANGE || memsz > VA_RANGE - vaddr {
                proof {
                    assert(!seg_ok(img@, i as int));
                }
                return false;
            }
            let s = floor(vaddr);
            let e = ceil(vaddr + memsz);
            proof {
                lemma_floor_le_ceil(vaddr as int, (vaddr + memsz) as int);
            }
            if s < end {
                proof {
                    assert(!seg_ok(img@, i as int));
                }
                return false;
            }
            if (e - s) * PAGE_SIZE > usize::MAX as u64 {
                proof {
                    assert(!seg_ok(img@, i as int));
                }
                return false;
            }
            end = e;
        }
        proof {
            assert(seg_ok(img@, i as int));
            assert forall|j: int| 0 <= j < i + 1 implies #[trigger] seg_ok(img@, j) by {
                if j < i {
                    assert(seg_ok(img@, j));
                }
            }
        }
        i = i + 1;
    }
    end + 1 + USER_STACK_SIZE / PAGE_SIZE <= TRAP_CONTEXT_VPN
}

} // verus!
