//! Address spaces: a memory set is a list of framed areas, each a range of
//! virtual pages with one permission and the bytes of its frames.
use vstd::prelude::*;

use crate::config::{
    PAGE_SIZE, TRAMPOLINE_VPN, TRAP_CONTEXT_VPN, VA_RANGE, VPN_RANGE,
};

verus! {

/// Access rights of a mapped area (the `R`, `W`, `X` and `U` flags).
#[derive(Clone, Copy, Debug, PartialEq, Eq, Structural)]
pub struct MapPermission {
    pub r: bool,
    pub w: bool,
    pub x: bool,
    pub u: bool,
}

impl MapPermission {
    /// No right at all.
    pub fn empty() -> (p: MapPermission)
        ensures
            p == (MapPermission { r: false, w: false, x: false, u: false }),
    {
        MapPermission { r: false, w: false, x: false, u: false }
    }
}

/// Whether bit `i` of `x` is set.
pub open spec fn bit_of(x: usize, i: u64) -> bool {
    (x as u64) & (1u64 << i) != 0
}

/// Bit test: whether bit `i` of `x` is set.
pub fn get_bit(x: usize, i: u64) -> (b: bool)
    requires
        i < 64,
    ensures
        b == bit_of(x, i),
{
    (x as u64) & (1u64 << i) != 0
}

/// The rights that a `port` word of `mmap` asks for: bit 0 read, bit 1 write,
/// bit 2 execute; user access is always granted.
pub open spec fn port_perm(port: usize) -> MapPermission {
    MapPermission { r: bit_of(port, 0), w: bit_of(port, 1), x: bit_of(port, 2), u: true }
}

/// Builds the permission of a user mapping from a `port` word.
pub fn port_to_perm(port: usize) -> (p: MapPermission)
    ensures
        p == port_perm(port),
{
    let mut perm = MapPermission::empty();
    perm.u = true;
    if get_bit(port, 0) {
        perm.r = true;
    }
    if get_bit(port, 1) {
        perm.w = true;
    }
    if get_bit(port, 2) {
        perm.x = true;
    }
    perm
}

/// `VirtAddr::from`: a virtual address keeps the low 39 bits of a word.
pub open spec fn va_mask(va: int) -> int {
    va % (VA_RANGE as int)
}

/// Page number of the page holding `va`.
pub open spec fn floor_vpn(va: int) -> int {
    va / (PAGE_SIZE as int)
}

/// Page number of the first page boundary at or above `va`.
pub open spec fn ceil_vpn(va: int) -> int {
    if va == 0 {
        0
    } else {
        (va - 1 + PAGE_SIZE as int) / (PAGE_SIZE as int)
    }
}

/// Offset of `va` in its page.
pub open spec fn page_offset(va: int) -> int {
    va % (PAGE_SIZE as int)
}

/// Keeps the low 39 bits of `va`.
pub fn mask_va(va: u64) -> (r: u64)
    ensures
        r == va_mask(va as int),
        r < VA_RANGE,
{
    va % VA_RANGE
}

/// Page number of the page holding `va`.
pub fn floor(va: u64) -> (r: u64)
    ensures
        r == floor_vpn(va as int),
{
    va / PAGE_SIZE
}

/// Page number of the first page boundary at or above `va`.
pub fn ceil(va: u64) -> (r: u64)
    requires
        va <= VA_RANGE,
    ensures
        r == ceil_vpn(va as int),
        r <= VPN_RANGE,
{
    if va == 0 {
        0
    } else {
        (va - 1 + PAGE_SIZE) / PAGE_SIZE
    }
}

/// A framed area: pages `start_vpn .. end_vpn`, all with the same rights,
/// backed by `frames`, which holds their bytes one page after another.
pub struct MapArea {
    pub start_vpn: u64,
    pub end_vpn: u64,
    pub perm: MapPermission,
    pub frames: Vec<u8>,
}

/// What an area is: its page range, its rights and its bytes.
#[verifier::ext_equal]
pub struct AreaModel {
    pub start_vpn: u64,
    pub end_vpn: u64,
    pub perm: MapPermission,
    pub frames: Seq<u8>,
}

impl View for MapArea {
    type V = AreaModel;

    open spec fn view(&self) -> AreaModel {
        AreaModel {
            start_vpn: self.start_vpn,
            end_vpn: self.end_vpn,
            perm: self.perm,
            frames: self.frames@,
        }
    }
}

/// Whether area `a` holds page `vpn`.
pub open spec fn area_contains(a: AreaModel, vpn: int) -> bool {
    a.start_vpn <= vpn < a.end_vpn
}

/// Whether some area of `s` holds page `vpn`.
pub open spec fn is_mapped(s: Seq<AreaModel>, vpn: int) -> bool {
    exists|i: int| 0 <= i < s.len() && #[trigger] area_contains(s[i], vpn)
}

/// Whether every page of `lo .. hi` is free in `s`.
pub open spec fn range_free(s: Seq<AreaModel>, lo: int, hi: int) -> bool {
    forall|vpn: int| lo <= vpn < hi ==> !#[trigger] is_mapped(s, vpn)
}

/// An area is well formed when its range is ordered and its frames hold
/// exactly its pages.
pub open spec fn area_wf(a: AreaModel) -> bool {
    &&& a.start_vpn <= a.end_vpn
    &&& a.end_vpn <= VPN_RANGE
    &&& a.frames.len() == (a.end_vpn - a.start_vpn) * PAGE_SIZE
}

/// A list of areas is well formed when each area is, and no page belongs to two of them.
pub open spec fn areas_wf(s: Seq<AreaModel>) -> bool {
    &&& forall|i: int| 0 <= i < s.len() ==> #[trigger] area_wf(s[i])
    &&& forall|i: int, j: int, vpn: int|
        0 <= i < s.len() && 0 <= j < s.len() && i != j && #[trigger] area_contains(s[i], vpn)
            ==> !#[trigger] area_contains(s[j], vpn)
}

/// The index of the area that holds page `vpn`.
pub open spec fn area_index(s: Seq<AreaModel>, vpn: int) -> int {
    choose|i: int| 0 <= i < s.len() && #[trigger] area_contains(s[i], vpn)
}

/// The byte at address `va`, which must be mapped.
pub open spec fn byte_at(s: Seq<AreaModel>, va: int) -> u8 {
    let i = area_index(s, floor_vpn(va));
    s[i].frames[va - s[i].start_vpn * PAGE_SIZE]
}

/// The rights of the mapped page `vpn`.
pub open spec fn perm_at(s: Seq<AreaModel>, vpn: int) -> MapPermission {
    s[area_index(s, vpn)].perm
}

/// The areas `s` after the byte at the mapped address `va` became `b`.
pub open spec fn with_byte(s: Seq<AreaModel>, va: int, b: u8) -> Seq<AreaModel> {
    let i = area_index(s, floor_vpn(va));
    s.update(i, AreaModel { frames: s[i].frames.update(va - s[i].start_vpn * PAGE_SIZE, b), ..s[i] })
}

/// The areas `s` after the bytes `data` were stored from address `va` on.
pub open spec fn with_bytes(s: Seq<AreaModel>, va: int, data: Seq<u8>) -> Seq<AreaModel>
    decreases data.len(),
{
    if data.len() == 0 {
        s
    } else {
        with_byte(with_bytes(s, va, data.drop_last()), va + data.len() - 1, data.last())
    }
}

/// Whether every byte of `base .. base + len` lies in a mapped page.
pub open spec fn bytes_mapped(s: Seq<AreaModel>, base: int, len: int) -> bool {
    forall|a: int| base <= a < base + len ==> #[trigger] is_mapped(s, floor_vpn(a))
}

/// The `len` bytes from address `base` on.
pub open spec fn bytes_at(s: Seq<AreaModel>, base: int, len: nat) -> Seq<u8> {
    Seq::new(len, |i: int| byte_at(s, base + i))
}

/// `t` has the areas of `s` with the same ranges and rights, and frames of the same sizes.
pub open spec fn same_layout(s: Seq<AreaModel>, t: Seq<AreaModel>) -> bool {
    &&& s.len() == t.len()
    &&& forall|i: int|
        0 <= i < s.len() ==> #[trigger] t[i].start_vpn == s[i].start_vpn && t[i].end_vpn == s[i].end_vpn
            && t[i].perm == s[i].perm && t[i].frames.len() == s[i].frames.len()
}

pub proof fn lemma_same_layout(s: Seq<AreaModel>, t: Seq<AreaModel>)
    requires
        same_layout(s, t),
    ensures
        areas_wf(s) ==> areas_wf(t),
        forall|vpn: int| #[trigger] is_mapped(t, vpn) == is_mapped(s, vpn),
        areas_wf(s) ==> forall|vpn: int| is_mapped(s, vpn) ==> area_index(t, vpn) == area_index(s, vpn),
        same_layout(t, s),
{
    assert forall|vpn: int| #[trigger] is_mapped(t, vpn) == is_mapped(s, vpn) by {
        if is_mapped(s, vpn) {
            let i = choose|i: int| 0 <= i < s.len() && #[trigger] area_contains(s[i], vpn);
            assert(t[i].start_vpn == s[i].start_vpn);
            assert(area_contains(t[i], vpn));
        }
        if is_mapped(t, vpn) {
            let i = choose|i: int| 0 <= i < t.len() && #[trigger] area_contains(t[i], vpn);
            assert(t[i].start_vpn == s[i].start_vpn);
            assert(area_contains(s[i], vpn));
        }
    }
    if areas_wf(s) {
        assert forall|i: int| 0 <= i < t.len() implies #[trigger] area_wf(t[i]) by {
            assert(area_wf(s[i]));
            assert(t[i].start_vpn == s[i].start_vpn);
        }
        assert forall|i: int, j: int, v: int|
            0 <= i < t.len() && 0 <= j < t.len() && i != j && #[trigger] area_contains(t[i], v)
                implies !#[trigger] area_contains(t[j], v) by {
            assert(t[i].start_vpn == s[i].start_vpn);
            assert(t[j].start_vpn == s[j].start_vpn);
            assert(area_contains(s[i], v));
            assert(!area_contains(s[j], v));
        }
    }
    if areas_wf(s) {
        assert forall|vpn: int| is_mapped(s, vpn) implies area_index(t, vpn) == area_index(s, vpn) by {
            let i = area_index(s, vpn);
            let j = area_index(t, vpn);
            assert(0 <= i < s.len() && area_contains(s[i], vpn));
            assert(is_mapped(t, vpn));
            assert(0 <= j < t.len() && area_contains(t[j], vpn));
            assert(t[i].start_vpn == s[i].start_vpn);
            assert(t[j].start_vpn == s[j].start_vpn);
            assert(area_contains(s[j], vpn));
        }
    }
    assert forall|i: int| 0 <= i < t.len() implies #[trigger] s[i].start_vpn == t[i].start_vpn
        && s[i].end_vpn == t[i].end_vpn && s[i].perm == t[i].perm && s[i].frames.len()
        == t[i].frames.len() by {
        assert(t[i].start_vpn == s[i].start_vpn);
    }
}

/// A fresh area of zero-filled frames.
pub open spec fn zero_area(start: u64, end: u64, perm: MapPermission) -> AreaModel {
    AreaModel {
        start_vpn: start,
        end_vpn: end,
        perm,
        frames: Seq::new(((end - start) * PAGE_SIZE) as nat, |k: int| 0u8),
    }
}

/// Area `a` cut back (or kept) to end at page `new_end`.
pub open spec fn shrunk_area(a: AreaModel, new_end: int) -> AreaModel {
    AreaModel {
        end_vpn: new_end as u64,
        frames: a.frames.subrange(0, (new_end - a.start_vpn) * PAGE_SIZE),
        ..a
    }
}

/// Area `a` grown to end at page `new_end`, the new pages zero-filled.
pub open spec fn grown_area(a: AreaModel, new_end: int) -> AreaModel {
    AreaModel {
        end_vpn: new_end as u64,
        frames: a.frames + Seq::new(((new_end - a.end_vpn) * PAGE_SIZE) as nat, |k: int| 0u8),
        ..a
    }
}

/// Whether `shrink_to(start_va, new_end_va)` can run: the area it finds,
/// if any, holds the new end page in its range.
pub open spec fn shrink_ok(s: Seq<AreaModel>, start_va: int, new_end_va: int) -> bool {
    &&& 0 <= new_end_va <= VA_RANGE
    &&& match first_starting_at(s, floor_vpn(start_va)) {
        Some(i) => s[i].start_vpn <= ceil_vpn(new_end_va) <= s[i].end_vpn,
        None => true,
    }
}

/// Whether `append_to(start_va, new_end_va)` can run: the area it finds,
/// if any, only grows, over pages that no area maps.
pub open spec fn append_ok(s: Seq<AreaModel>, start_va: int, new_end_va: int) -> bool {
    &&& 0 <= new_end_va <= VA_RANGE
    &&& match first_starting_at(s, floor_vpn(start_va)) {
        Some(i) => {
            &&& s[i].end_vpn <= ceil_vpn(new_end_va)
            &&& range_free(s, s[i].end_vpn as int, ceil_vpn(new_end_va))
            &&& (ceil_vpn(new_end_va) - s[i].start_vpn) * PAGE_SIZE <= usize::MAX
        },
        None => true,
    }
}

/// Index of the first area of `s` that starts at `vpn`, if any.
pub open spec fn first_starting_at(s: Seq<AreaModel>, vpn: int) -> Option<int> {
    if exists|i: int|
        0 <= i < s.len() && s[i].start_vpn == vpn && forall|j: int| 0 <= j < i ==> s[j].start_vpn != vpn {
        Some(
            choose|i: int|
                0 <= i < s.len() && s[i].start_vpn == vpn && forall|j: int|
                    0 <= j < i ==> s[j].start_vpn != vpn,
        )
    } else {
        None
    }
}

pub proof fn lemma_first_starting_at(s: Seq<AreaModel>, vpn: int, i: int)
    requires
        0 <= i < s.len(),
        s[i].start_vpn == vpn,
        forall|j: int| 0 <= j < i ==> s[j].start_vpn != vpn,
    ensures
        first_starting_at(s, vpn) == Some(i),
{
    let k = choose|k: int|
        0 <= k < s.len() && s[k].start_vpn == vpn && forall|j: int| 0 <= j < k ==> s[j].start_vpn != vpn;
    assert(0 <= k < s.len() && s[k].start_vpn == vpn && forall|j: int| 0 <= j < k ==> s[j].start_vpn != vpn);
    if k < i {
        assert(s[k].start_vpn != vpn);
    } else if k > i {
        assert(s[i].start_vpn != vpn);
    }
}

pub proof fn lemma_wf_remove(s: Seq<AreaModel>, i: int)
    requires
        areas_wf(s),
        0 <= i < s.len(),
    ensures
        areas_wf(s.remove(i)),
{
    let r = s.remove(i);
    assert forall|k: int| 0 <= k < r.len() implies #[trigger] area_wf(r[k]) by {
        if k < i {
            assert(area_wf(s[k]));
        } else {
            assert(area_wf(s[k + 1]));
        }
    }
    assert forall|k: int, j: int, v: int|
        0 <= k < r.len() && 0 <= j < r.len() && k != j && #[trigger] area_contains(r[k], v)
            implies !#[trigger] area_contains(r[j], v) by {
        let k2 = if k < i { k } else { k + 1 };
        let j2 = if j < i { j } else { j + 1 };
        assert(r[k] == s[k2]);
        assert(r[j] == s[j2]);
        assert(area_contains(s[k2], v));
    }
}

pub proof fn lemma_wf_update_same_range(s: Seq<AreaModel>, i: int, a: AreaModel)
    requires
        areas_wf(s),
        0 <= i < s.len(),
        a.start_vpn == s[i].start_vpn,
        a.end_vpn == s[i].end_vpn,
        a.frames.len() == s[i].frames.len(),
    ensures
        areas_wf(s.update(i, a)),
{
    let r = s.update(i, a);
    assert forall|k: int| 0 <= k < r.len() implies #[trigger] area_wf(r[k]) by {
        assert(area_wf(s[k]));
    }
    assert forall|k: int, j: int, v: int|
        0 <= k < r.len() && 0 <= j < r.len() && k != j && #[trigger] area_contains(r[k], v)
            implies !#[trigger] area_contains(r[j], v) by {
        assert(area_contains(s[k], v));
        assert(!area_contains(s[j], v));
    }
}

pub proof fn lemma_wf_push(s: Seq<AreaModel>, a: AreaModel)
    requires
        areas_wf(s),
        area_wf(a),
        range_free(s, a.start_vpn as int, a.end_vpn as int),
    ensures
        areas_wf(s.push(a)),
{
    let r = s.push(a);
    assert forall|k: int| 0 <= k < r.len() implies #[trigger] area_wf(r[k]) by {
        if k < s.len() {
            assert(area_wf(s[k]));
        }
    }
    assert forall|k: int, j: int, v: int|
        0 <= k < r.len() && 0 <= j < r.len() && k != j && #[trigger] area_contains(r[k], v)
            implies !#[trigger] area_contains(r[j], v) by {
        if k == s.len() {
            assert(!is_mapped(s, v));
            assert(r[j] == s[j]);
        } else if j == s.len() {
            assert(r[k] == s[k]);
            assert(is_mapped(s, v));
        } else {
            assert(r[k] == s[k]);
            assert(r[j] == s[j]);
            assert(area_contains(s[k], v));
        }
    }
}

pub proof fn lemma_wf_shrink(s: Seq<AreaModel>, i: int, new_end: int)
    requires
        areas_wf(s),
        0 <= i < s.len(),
        s[i].start_vpn <= new_end <= s[i].end_vpn,
    ensures
        areas_wf(s.update(i, shrunk_area(s[i], new_end))),
{
    let r = s.update(i, shrunk_area(s[i], new_end));
    assert(area_wf(s[i]));
    assert forall|k: int| 0 <= k < r.len() implies #[trigger] area_wf(r[k]) by {
        assert(area_wf(s[k]));
    }
    assert forall|k: int, j: int, v: int|
        0 <= k < r.len() && 0 <= j < r.len() && k != j && #[trigger] area_contains(r[k], v)
            implies !#[trigger] area_contains(r[j], v) by {
        assert(area_contains(s[k], v));
        assert(!area_contains(s[j], v));
    }
}

pub proof fn lemma_wf_grow(s: Seq<AreaModel>, i: int, new_end: int)
    requires
        areas_wf(s),
        0 <= i < s.len(),
        s[i].end_vpn <= new_end <= VPN_RANGE,
        range_free(s, s[i].end_vpn as int, new_end),
    ensures
        areas_wf(s.update(i, grown_area(s[i], new_end))),
{
    let r = s.update(i, grown_area(s[i], new_end));
    assert(area_wf(s[i]));
    assert forall|k: int| 0 <= k < r.len() implies #[trigger] area_wf(r[k]) by {
        assert(area_wf(s[k]));
    }
    assert forall|k: int, j: int, v: int|
        0 <= k < r.len() && 0 <= j < r.len() && k != j && #[trigger] area_contains(r[k], v)
            implies !#[trigger] area_contains(r[j], v) by {
        if k == i {
            assert(r[k].end_vpn == new_end);
            if v < s[i].end_vpn {
                assert(area_contains(s[k], v));
            } else {
                assert(s[i].end_vpn <= v < new_end);
                assert(range_free(s, s[i].end_vpn as int, new_end));
                assert(!is_mapped(s, v));
                assert(r[j] == s[j]);
            }
        } else if j == i {
            assert(r[k] == s[k]);
            if v < s[i].end_vpn {
                assert(!area_contains(s[j], v));
            } else if v < new_end {
                assert(area_contains(s[k], v));
                assert(is_mapped(s, v));
                assert(range_free(s, s[i].end_vpn as int, new_end));
                assert(false);
            }
        } else {
            assert(area_contains(s[k], v));
        }
    }
}

/// Rights of the user stack and heap areas.
pub open spec fn user_rw() -> MapPermission {
    MapPermission { r: true, w: true, x: false, u: true }
}

pub proof fn lemma_with_byte(s: Seq<AreaModel>, va: int, b: u8)
    requires
        areas_wf(s),
        va >= 0,
        is_mapped(s, floor_vpn(va)),
    ensures
        same_layout(s, with_byte(s, va, b)),
        areas_wf(with_byte(s, va, b)),
        forall|a: int|
            a >= 0 && is_mapped(s, floor_vpn(a)) ==> #[trigger] byte_at(with_byte(s, va, b), a) == if a
                == va {
                b
            } else {
                byte_at(s, a)
            },
{
    let t = with_byte(s, va, b);
    let i = area_index(s, floor_vpn(va));
    lemma_page_bounds(va);
    assert(area_wf(s[i]));
    assert(same_layout(s, t));
    lemma_same_layout(s, t);
    assert forall|a: int| a >= 0 && is_mapped(s, floor_vpn(a)) implies #[trigger] byte_at(t, a) == if a
        == va {
        b
    } else {
        byte_at(s, a)
    } by {
        lemma_page_bounds(a);
        let j = area_index(s, floor_vpn(a));
        assert(area_index(t, floor_vpn(a)) == j);
        if j == i {
            if a != va {
                assert(a - s[i].start_vpn * PAGE_SIZE != va - s[i].start_vpn * PAGE_SIZE);
            }
        }
    }
}

pub proof fn lemma_with_bytes(s: Seq<AreaModel>, base: int, data: Seq<u8>)
    requires
        areas_wf(s),
        base >= 0,
        bytes_mapped(s, base, data.len() as int),
    ensures
        same_layout(s, with_bytes(s, base, data)),
        areas_wf(with_bytes(s, base, data)),
        forall|a: int|
            a >= 0 && is_mapped(s, floor_vpn(a)) ==> #[trigger] byte_at(with_bytes(s, base, data), a)
                == if base <= a < base + data.len() {
                data[a - base]
            } else {
                byte_at(s, a)
            },
    decreases data.len(),
{
    if data.len() == 0 {
        assert(same_layout(s, s));
    } else {
        let d = data.drop_last();
        let va = base + data.len() - 1;
        assert(bytes_mapped(s, base, d.len() as int));
        lemma_with_bytes(s, base, d);
        let m = with_bytes(s, base, d);
        lemma_same_layout(s, m);
        assert(is_mapped(s, floor_vpn(va)));
        lemma_with_byte(m, va, data.last());
        let t = with_byte(m, va, data.last());
        lemma_same_layout(m, t);
        assert forall|i: int| 0 <= i < s.len() implies #[trigger] t[i].start_vpn == s[i].start_vpn
            && t[i].end_vpn == s[i].end_vpn && t[i].perm == s[i].perm && t[i].frames.len()
            == s[i].frames.len() by {
            assert(m[i].start_vpn == s[i].start_vpn);
            assert(t[i].start_vpn == m[i].start_vpn);
        }
        assert forall|a: int| a >= 0 && is_mapped(s, floor_vpn(a)) implies #[trigger] byte_at(t, a)
            == if base <= a < base + data.len() {
            data[a - base]
        } else {
            byte_at(s, a)
        } by {
            assert(is_mapped(m, floor_vpn(a)));
            assert(byte_at(t, a) == if a == va { data.last() } else { byte_at(m, a) });
            assert(byte_at(m, a) == if base <= a < base + d.len() { d[a - base] } else { byte_at(s, a) });
        }
    }
}

/// An address space with no area is well formed.
pub proof fn lemma_areas_wf_empty()
    ensures
        areas_wf(Seq::<AreaModel>::empty()),
{
}

/// A mapped page lies in the 39-bit address space.
pub proof fn lemma_mapped_bound(s: Seq<AreaModel>, vpn: int)
    requires
        areas_wf(s),
        is_mapped(s, vpn),
    ensures
        0 <= vpn < VPN_RANGE,
{
    let i = choose|i: int| 0 <= i < s.len() && #[trigger] area_contains(s[i], vpn);
    assert(area_wf(s[i]));
}

/// Bounds of an address by its page number.
pub proof fn lemma_page_bounds(va: int)
    requires
        va >= 0,
    ensures
        floor_vpn(va) * PAGE_SIZE <= va < floor_vpn(va) * PAGE_SIZE + PAGE_SIZE,
        page_offset(va) == va - floor_vpn(va) * PAGE_SIZE,
{
    vstd::arithmetic::div_mod::lemma_fundamental_div_mod(va, PAGE_SIZE as int);
}

/// The `n` low bytes of `x`, least significant first.
pub open spec fn le_bytes(x: nat, n: nat) -> Seq<u8>
    decreases n,
{
    if n == 0 {
        Seq::empty()
    } else {
        seq![(x % 256) as u8] + le_bytes(x / 256, (n - 1) as nat)
    }
}

/// Appends the `n` low bytes of `x`, least significant first.
pub fn push_le(v: &mut Vec<u8>, x: u64, n: usize)
    ensures
        final(v)@ == old(v)@ + le_bytes(x as nat, n as nat),
        final(v)@.len() == old(v)@.len() + n,
    decreases n,
{
    if n > 0 {
        let ghost v0 = v@;
        v.push((x % 256) as u8);
        push_le(v, x / 256, n - 1);
        assert(v@ =~= v0 + le_bytes(x as nat, n as nat));
    } else {
        assert(v@ =~= old(v)@ + le_bytes(x as nat, n as nat));
    }
}

/// Allocates `n` zero bytes.
pub fn zeroed(n: usize) -> (v: Vec<u8>)
    ensures
        v@ == Seq::new(n as nat, |k: int| 0u8),
{
    let mut v: Vec<u8> = Vec::new();
    let mut k: usize = 0;
    while k < n
        invariant
            k <= n,
            v@ == Seq::new(k as nat, |j: int| 0u8),
        decreases n - k,
    {
        v.push(0u8);
        k = k + 1;
        assert(v@ =~= Seq::new(k as nat, |j: int| 0u8));
    }
    v
}

/// Copies a byte vector.
pub fn copy_bytes(src: &Vec<u8>) -> (v: Vec<u8>)
    ensures
        v@ == src@,
{
    let mut v: Vec<u8> = Vec::new();
    let mut k: usize = 0;
    while k < src.len()
        invariant
            k <= src.len(),
            v@ == src@.subrange(0, k as int),
        decreases src.len() - k,
    {
        v.push(src[k]);
        k = k + 1;
        assert(v@ =~= src@.subrange(0, k as int));
    }
    assert(v@ =~= src@);
    v
}

/// An address space.
pub struct MemorySet {
    pub areas: Vec<MapArea>,
}

impl View for MemorySet {
    type V = Seq<AreaModel>;

    open spec fn view(&self) -> Seq<AreaModel> {
        self.areas@.map_values(|a: MapArea| a@)
    }
}

impl MemorySet {
    /// An address space with no area.
    pub fn new_bare() -> (ms: MemorySet)
        ensures
            ms@ == Seq::<AreaModel>::empty(),
    {
        let ms = MemorySet { areas: Vec::new() };
        assert(ms@ =~= Seq::<AreaModel>::empty());
        ms
    }

    /// Index of the area that maps page `vpn`, if any.
    pub fn translate(&self, vpn: u64) -> (r: Option<usize>)
        requires
            areas_wf(self@),
        ensures
            r is None <==> !is_mapped(self@, vpn as int),
            r matches Some(i) ==> i < self@.len() && area_contains(self@[i as int], vpn as int)
                && i == area_index(self@, vpn as int),
    {
        let mut i: usize = 0;
        while i < self.areas.len()
            invariant
                i <= self.areas.len(),
                self@.len() == self.areas.len(),
                areas_wf(self@),
                forall|j: int| 0 <= j < i ==> !#[trigger] area_contains(self@[j], vpn as int),
            decreases self.areas.len() - i,
        {
            if self.areas[i].start_vpn <= vpn && vpn < self.areas[i].end_vpn {
                assert(area_contains(self@[i as int], vpn as int));
                proof {
                    let k = area_index(self@, vpn as int);
                    assert(0 <= k < self@.len() && area_contains(self@[k], vpn as int));
                    if k != i {
                        assert(!area_contains(self@[k], vpn as int));
                    }
                }
                return Some(i);
            }
            assert(!area_contains(self@[i as int], vpn as int));
            i = i + 1;
        }
        None
    }

    /// Stores byte `b` at the mapped address `va`.
    pub fn write_byte(&mut self, va: u64, b: u8)
        requires
            areas_wf(old(self)@),
            is_mapped(old(self)@, floor_vpn(va as int)),
        ensures
            final(self)@ == with_byte(old(self)@, va as int, b),
            areas_wf(final(self)@),
    {
        let vpn = floor(va);
        let i = self.translate(vpn).unwrap();
        let ghost old_s = self@;
        proof {
            lemma_page_bounds(va as int);
        }
        let start = self.areas[i].start_vpn;
        assert(area_wf(old_s[i as int]));
        assert(start <= vpn < old_s[i as int].end_vpn);
        assert(va - start * PAGE_SIZE < old_s[i as int].frames.len());
        let len = self.areas[i].frames.len();
        assert(va - start * PAGE_SIZE < len);
        let off = (va - start * PAGE_SIZE) as usize;
        assert(off < self@[i as int].frames.len());
        let ghost new_area = AreaModel {
            frames: old_s[i as int].frames.update(off as int, b),
            ..old_s[i as int]
        };
        self.areas[i].frames.set(off, b);
        proof {
            assert(self@[i as int] =~= new_area);
            assert forall|k: int| 0 <= k < self@.len() && k != i implies self@[k] == old_s[k] by {}
            assert(self@ =~= old_s.update(i as int, new_area));
            lemma_wf_update_same_range(old_s, i as int, new_area);
        }
    }

    /// Reads the byte at the mapped address `va`.
    pub fn read_byte(&self, va: u64) -> (b: u8)
        requires
            areas_wf(self@),
            is_mapped(self@, floor_vpn(va as int)),
        ensures
            b == byte_at(self@, va as int),
    {
        let vpn = floor(va);
        let i = self.translate(vpn).unwrap();
        proof {
            lemma_page_bounds(va as int);
        }
        let start = self.areas[i].start_vpn;
        assert(area_wf(self@[i as int]));
        assert(start <= vpn < self@[i as int].end_vpn);
        assert(va - start * PAGE_SIZE < self@[i as int].frames.len());
        let len = self.areas[i].frames.len();
        assert(va - start * PAGE_SIZE < len);
        let off = (va - start * PAGE_SIZE) as usize;
        self.areas[i].frames[off]
    }

    /// Adds an area of fresh zero-filled frames for pages `start_vpn .. end_vpn`.
    pub fn push_zero_area(&mut self, start_vpn: u64, end_vpn: u64, perm: MapPermission)
        requires
            areas_wf(old(self)@),
            start_vpn <= end_vpn <= VPN_RANGE,
            (end_vpn - start_vpn) * PAGE_SIZE <= usize::MAX,
            range_free(old(self)@, start_vpn as int, end_vpn as int),
        ensures
            final(self)@ == old(self)@.push(zero_area(start_vpn, end_vpn, perm)),
            areas_wf(final(self)@),
    {
        let ghost old_s = self@;
        let frames = zeroed(((end_vpn - start_vpn) * PAGE_SIZE) as usize);
        let area = MapArea { start_vpn, end_vpn, perm, frames };
        assert(area@ =~= zero_area(start_vpn, end_vpn, perm));
        self.areas.push(area);
        proof {
            assert(self@ =~= old_s.push(zero_area(start_vpn, end_vpn, perm)));
            lemma_wf_push(old_s, zero_area(start_vpn, end_vpn, perm));
        }
    }

    /// `push`: adds `area`, whose pages are free, with the bytes it holds.
    pub fn push_area(&mut self, area: MapArea)
        requires
            areas_wf(old(self)@),
            area_wf(area@),
            range_free(old(self)@, area@.start_vpn as int, area@.end_vpn as int),
        ensures
            final(self)@ == old(self)@.push(area@),
            areas_wf(final(self)@),
    {
        let ghost old_s = self@;
        let ghost a = area@;
        self.areas.push(area);
        proof {
            assert(self@ =~= old_s.push(a));
            lemma_wf_push(old_s, a);
        }
    }

    /// `insert_framed_area`: maps `start_va .. end_va` (page-rounded outward)
    /// to fresh zero-filled frames with rights `perm`.
    pub fn insert_framed_area(&mut self, start_va: u64, end_va: u64, perm: MapPermission)
        requires
            areas_wf(old(self)@),
            end_va <= VA_RANGE,
            floor_vpn(start_va as int) <= ceil_vpn(end_va as int),
            range_free(old(self)@, floor_vpn(start_va as int), ceil_vpn(end_va as int)),
            (ceil_vpn(end_va as int) - floor_vpn(start_va as int)) * PAGE_SIZE <= usize::MAX,
        ensures
            final(self)@ == old(self)@.push(
                zero_area(
                    floor_vpn(start_va as int) as u64,
                    ceil_vpn(end_va as int) as u64,
                    perm,
                ),
            ),
            areas_wf(final(self)@),
    {
        let s = floor(start_va);
        let e = ceil(end_va);
        self.push_zero_area(s, e, perm);
    }

    /// Index of the first area that starts at page `vpn`, if any.
    pub fn find_area_starting_at(&self, vpn: u64) -> (r: Option<usize>)
        ensures
            r matches Some(i) ==> i < self@.len() && first_starting_at(self@, vpn as int) == Some(
                i as int,
            ),
            r is None ==> first_starting_at(self@, vpn as int) is None,
    {
        let mut i: usize = 0;
        while i < self.areas.len()
            invariant
                i <= self.areas.len(),
                self@.len() == self.areas.len(),
                forall|j: int| 0 <= j < i ==> self@[j].start_vpn != vpn,
            decreases self.areas.len() - i,
        {
            if self.areas[i].start_vpn == vpn {
                proof {
                    lemma_first_starting_at(self@, vpn as int, i as int);
                }
                return Some(i);
            }
            i = i + 1;
        }
        None
    }

    /// Drops the first area that starts at page `vpn`, if there is one.
    pub fn remove_area_with_start_vpn(&mut self, vpn: u64)
        requires
            areas_wf(old(self)@),
        ensures
            areas_wf(final(self)@),
            match first_starting_at(old(self)@, vpn as int) {
                Some(i) => final(self)@ == old(self)@.remove(i),
                None => final(self)@ == old(self)@,
            },
    {
        let ghost old_s = self@;
        match self.find_area_starting_at(vpn) {
            Some(i) => {
                self.areas.remove(i);
                proof {
                    assert(self@ =~= old_s.remove(i as int));
                    lemma_wf_remove(old_s, i as int);
                }
            },
            None => {},
        }
    }

    /// `shrink_to`: the area starting at the page of `start_va`, if any,
    /// now ends at the page boundary at or above `new_end_va`; its pages
    /// beyond are unmapped. Tells whether such an area was found.
    pub fn shrink_to(&mut self, start_va: u64, new_end_va: u64) -> (found: bool)
        requires
            areas_wf(old(self)@),
            shrink_ok(old(self)@, start_va as int, new_end_va as int),
        ensures
            areas_wf(final(self)@),
            match first_starting_at(old(self)@, floor_vpn(start_va as int)) {
                Some(i) => found && final(self)@ == old(self)@.update(
                    i,
                    shrunk_area(old(self)@[i], ceil_vpn(new_end_va as int)),
                ),
                None => !found && final(self)@ == old(self)@,
            },
    {
        let ghost old_s = self@;
        match self.find_area_starting_at(floor(start_va)) {
            Some(i) => {
                let new_end = ceil(new_end_va);
                let ghost a = old_s[i as int];
                assert(area_wf(a));
                let keep = ((new_end - self.areas[i].start_vpn) * PAGE_SIZE) as usize;
                self.areas[i].end_vpn = new_end;
                self.areas[i].frames.truncate(keep);
                proof {
                    let na = shrunk_area(a, new_end as int);
                    assert(self@[i as int] =~= na);
                    assert forall|k: int| 0 <= k < self@.len() && k != i implies self@[k] == old_s[k] by {}
                    assert(self@ =~= old_s.update(i as int, na));
                    lemma_wf_shrink(old_s, i as int, new_end as int);
                }
                true
            },
            None => false,
        }
    }

    /// `append_to`: the area starting at the page of `start_va`, if any,
    /// now ends at the page boundary at or above `new_end_va`; the new
    /// pages get zero-filled frames. Tells whether such an area was found.
    pub fn append_to(&mut self, start_va: u64, new_end_va: u64) -> (found: bool)
        requires
            areas_wf(old(self)@),
            append_ok(old(self)@, start_va as int, new_end_va as int),
        ensures
            areas_wf(final(self)@),
            match first_starting_at(old(self)@, floor_vpn(start_va as int)) {
                Some(i) => found && final(self)@ == old(self)@.update(
                    i,
                    grown_area(old(self)@[i], ceil_vpn(new_end_va as int)),
                ),
                None => !found && final(self)@ == old(self)@,
            },
    {
        let ghost old_s = self@;
        match self.find_area_starting_at(floor(start_va)) {
            Some(i) => {
                let new_end = ceil(new_end_va);
                let ghost a = old_s[i as int];
                assert(area_wf(a));
                let mut extra = zeroed(((new_end - self.areas[i].end_vpn) * PAGE_SIZE) as usize);
                self.areas[i].frames.append(&mut extra);
                self.areas[i].end_vpn = new_end;
                proof {
                    let na = grown_area(a, new_end as int);
                    assert(self@[i as int] =~= na);
                    assert forall|k: int| 0 <= k < self@.len() && k != i implies self@[k] == old_s[k] by {}
                    assert(self@ =~= old_s.update(i as int, na));
                    lemma_wf_grow(old_s, i as int, new_end as int);
                }
                true
            },
            None => false,
        }
    }

    /// `from_existed_user`: a copy of this address space, area by area and byte by byte.
    pub fn from_existed_user(&self) -> (ms: MemorySet)
        ensures
            ms@ == self@,
    {
        let mut areas: Vec<MapArea> = Vec::new();
        let mut k: usize = 0;
        while k < self.areas.len()
            invariant
                k <= self.areas.len(),
                areas@.len() == k,
                self@.len() == self.areas.len(),
                forall|j: int| 0 <= j < k ==> #[trigger] areas@[j]@ == self@[j],
            decreases self.areas.len() - k,
        {
            let a = &self.areas[k];
            let copy = MapArea {
                start_vpn: a.start_vpn,
                end_vpn: a.end_vpn,
                perm: a.perm,
                frames: copy_bytes(&a.frames),
            };
            assert(copy@ =~= self@[k as int]);
            let ghost prev = areas@;
            areas.push(copy);
            assert(areas@ == prev.push(copy));
            k = k + 1;
        }
        let ms = MemorySet { areas };
        assert(ms@ =~= self@);
        ms
    }

    /// Stores `data` from the address `base` on; every byte must be mapped.
    pub fn write_bytes(&mut self, base: u64, data: &Vec<u8>)
        requires
            areas_wf(old(self)@),
            base + data.len() <= u64::MAX,
            bytes_mapped(old(self)@, base as int, data.len() as int),
        ensures
            final(self)@ == with_bytes(old(self)@, base as int, data@),
            areas_wf(final(self)@),
            same_layout(old(self)@, final(self)@),
    {
        let ghost s0 = self@;
        let mut k: usize = 0;
        proof {
            assert(data@.take(0) =~= Seq::<u8>::empty());
            assert(same_layout(s0, s0));
        }
        while k < data.len()
            invariant
                k <= data.len(),
                base + data.len() <= u64::MAX,
                areas_wf(s0),
                bytes_mapped(s0, base as int, data.len() as int),
                self@ == with_bytes(s0, base as int, data@.take(k as int)),
            decreases data.len() - k,
        {
            proof {
                lemma_with_bytes(s0, base as int, data@.take(k as int));
                lemma_same_layout(s0, self@);
                assert(is_mapped(s0, floor_vpn(base + k)));
            }
            self.write_byte(base + k as u64, data[k]);
            k = k + 1;
            proof {
                let d = data@.take(k as int);
                assert(d.drop_last() =~= data@.take(k - 1));
            }
        }
        proof {
            assert(data@.take(k as int) =~= data@);
            lemma_with_bytes(s0, base as int, data@);
        }
    }

    /// The `len` bytes from address `base` on; every byte must be mapped.
    pub fn read_bytes(&self, base: u64, len: usize) -> (v: Vec<u8>)
        requires
            areas_wf(self@),
            base + len <= u64::MAX,
            bytes_mapped(self@, base as int, len as int),
        ensures
            v@ == bytes_at(self@, base as int, len as nat),
    {
        let mut v: Vec<u8> = Vec::new();
        let mut k: usize = 0;
        while k < len
            invariant
                k <= len,
                base + len <= u64::MAX,
                areas_wf(self@),
                bytes_mapped(self@, base as int, len as int),
                v@ == bytes_at(self@, base as int, k as nat),
            decreases len - k,
        {
            assert(is_mapped(self@, floor_vpn(base + k)));
            let b = self.read_byte(base + k as u64);
            v.push(b);
            k = k + 1;
            assert(v@ =~= bytes_at(self@, base as int, k as nat));
        }
        v
    }

    /// Drops every area (the data pages of an exited program).
    pub fn recycle_data_pages(&mut self)
        ensures
            final(self)@ == Seq::<AreaModel>::empty(),
            areas_wf(final(self)@),
    {
        self.areas.clear();
        assert(self@ =~= Seq::<AreaModel>::empty());
    }
}

} // verus!
