use rcore_os::mm::{port_to_perm, MapPermission};
use rcore_os::syscall::process::{sys_mmap, sys_munmap, sys_sbrk};
use rcore_os::task::{
    change_program_brk, map_len_to_start, read_from_va, run_first_task, unmap_len_to_start,
    write_to_va, write_to_va_timeval, TaskManager,
};

/// An ELF64 image with entry point `entry` and the loadable segments
/// `(flags, vaddr, file bytes, memory size)`.
fn elf(entry: u64, segs: &[(u32, u64, Vec<u8>, u64)]) -> Vec<u8> {
    let mut img = vec![0u8; 64 + 56 * segs.len()];
    img[0..4].copy_from_slice(&[0x7f, b'E', b'L', b'F']);
    img[24..32].copy_from_slice(&entry.to_le_bytes());
    img[32..40].copy_from_slice(&64u64.to_le_bytes());
    img[56..58].copy_from_slice(&(segs.len() as u16).to_le_bytes());
    for (i, (flags, vaddr, bytes, memsz)) in segs.iter().enumerate() {
        let off = img.len() as u64;
        let b = 64 + 56 * i;
        img[b..b + 4].copy_from_slice(&1u32.to_le_bytes());
        img[b + 4..b + 8].copy_from_slice(&flags.to_le_bytes());
        img[b + 8..b + 16].copy_from_slice(&off.to_le_bytes());
        img[b + 16..b + 24].copy_from_slice(&vaddr.to_le_bytes());
        img[b + 32..b + 40].copy_from_slice(&(bytes.len() as u64).to_le_bytes());
        img[b + 40..b + 48].copy_from_slice(&memsz.to_le_bytes());
        img.extend_from_slice(bytes);
    }
    img
}

fn boot() -> TaskManager {
    let apps = vec![elf(0x1000, &[]), elf(0x2000, &[])];
    let mut k = TaskManager::new(&apps);
    run_first_task(&mut k);
    k
}

fn area_count(k: &TaskManager) -> usize {
    k.tasks[k.current].as_ref().unwrap().memory_set.areas.len()
}

#[test]
fn port_bits_give_rights() {
    let p = port_to_perm(0b101);
    assert_eq!(p, MapPermission { r: true, w: false, x: true, u: true });
    let q = port_to_perm(0b010);
    assert_eq!(q, MapPermission { r: false, w: true, x: false, u: true });
}

#[test]
fn mmap_maps_fresh_zeroed_pages() {
    let mut k = boot();
    let before = area_count(&k);
    assert_eq!(sys_mmap(&mut k, 0x1000_0000, 0x2000, 0b011), 0);
    assert_eq!(area_count(&k), before + 1);
    let t = k.tasks[0].as_ref().unwrap();
    let a = t.memory_set.areas.last().unwrap();
    assert_eq!(a.start_vpn, 0x10000);
    assert_eq!(a.end_vpn, 0x10002);
    assert_eq!(a.frames.len(), 0x2000);
    assert_eq!(read_from_va(&k, 0x1000_0000), 0);
    assert_eq!(read_from_va(&k, 0x1000_1fff), 0);
    assert_eq!(read_from_va(&k, 0x1000_2000), -1);
}

#[test]
fn mmap_rounds_length_up_to_pages() {
    let mut k = boot();
    assert_eq!(sys_mmap(&mut k, 0x1000_0000, 1, 0b001), 0);
    let a = k.tasks[0].as_ref().unwrap().memory_set.areas.last().unwrap();
    assert_eq!(a.end_vpn - a.start_vpn, 1);
}

#[test]
fn mmap_refuses_bad_arguments() {
    let mut k = boot();
    let before = area_count(&k);
    assert_eq!(sys_mmap(&mut k, 0x1000_0001, 0x1000, 0b011), -1);
    assert_eq!(sys_mmap(&mut k, 0x1000_0000, 0x1000, 0), -1);
    assert_eq!(sys_mmap(&mut k, 0x1000_0000, 0x1000, 8), -1);
    assert_eq!(sys_mmap(&mut k, 0x1000_0000, 0x1000, 0b1011), -1);
    assert_eq!(area_count(&k), before);
}

#[test]
fn mmap_twice_fails() {
    let mut k = boot();
    assert_eq!(sys_mmap(&mut k, 0x1000_0000, 0x1000, 0b011), 0);
    let before = area_count(&k);
    assert_eq!(sys_mmap(&mut k, 0x1000_0000, 0x1000, 0b001), -1);
    assert_eq!(sys_mmap(&mut k, 0x0fff_f000, 0x2000, 0b001), -1);
    assert_eq!(area_count(&k), before);
}

#[test]
fn mmap_of_the_user_stack_fails() {
    let mut k = boot();
    assert_eq!(sys_mmap(&mut k, 0x1000, 0x1000, 0b011), -1);
}

#[test]
fn adjacent_mmaps_both_succeed() {
    let mut k = boot();
    assert_eq!(sys_mmap(&mut k, 0x1000_0000, 0x1000, 0b011), 0);
    assert_eq!(sys_mmap(&mut k, 0x1000_1000, 0x1000, 0b011), 0);
}

#[test]
fn munmap_undoes_mmap() {
    let mut k = boot();
    let before: Vec<(u64, u64)> = k.tasks[0]
        .as_ref()
        .unwrap()
        .memory_set
        .areas
        .iter()
        .map(|a| (a.start_vpn, a.end_vpn))
        .collect();
    assert_eq!(sys_mmap(&mut k, 0x1000_0000, 0x3000, 0b011), 0);
    assert_eq!(sys_munmap(&mut k, 0x1000_0000, 0x3000), 0);
    let after: Vec<(u64, u64)> = k.tasks[0]
        .as_ref()
        .unwrap()
        .memory_set
        .areas
        .iter()
        .map(|a| (a.start_vpn, a.end_vpn))
        .collect();
    assert_eq!(before, after);
    assert_eq!(read_from_va(&k, 0x1000_0000), -1);
}

#[test]
fn munmap_refuses_unaligned_or_unmapped() {
    let mut k = boot();
    assert_eq!(sys_mmap(&mut k, 0x1000_0000, 0x1000, 0b011), 0);
    assert_eq!(sys_munmap(&mut k, 0x1000_0010, 0x1000), -1);
    assert_eq!(sys_munmap(&mut k, 0x1000_0000, 0x2000), -1);
    assert_eq!(sys_munmap(&mut k, 0x2000_0000, 0x1000), -1);
    assert_eq!(read_from_va(&k, 0x1000_0000), 0);
}

#[test]
fn mmap_masks_addresses_to_39_bits() {
    let mut k = boot();
    // 2^39 + 0x1000_0000 names the same page as 0x1000_0000.
    assert_eq!(sys_mmap(&mut k, 0x80_1000_0000, 0x1000, 0b011), 0);
    let a = k.tasks[0].as_ref().unwrap().memory_set.areas.last().unwrap();
    assert_eq!(a.start_vpn, 0x10000);
    assert_eq!(sys_mmap(&mut k, 0x1000_0000, 0x1000, 0b011), -1);
}

#[test]
fn map_len_to_start_accepts_unaligned_start() {
    let mut k = boot();
    assert_eq!(map_len_to_start(&mut k, 0x1000_0100, 0x1000, 0b011), 0);
    let a = k.tasks[0].as_ref().unwrap().memory_set.areas.last().unwrap();
    assert_eq!((a.start_vpn, a.end_vpn), (0x10000, 0x10002));
    assert_eq!(k.map_len_to_start(0x1000_0000, 0x1000, 0b011), -1);
}

#[test]
fn unmap_len_to_start_cuts_area_back() {
    let mut k = boot();
    assert_eq!(map_len_to_start(&mut k, 0x1000_0000, 0x3000, 0b011), 0);
    assert_eq!(unmap_len_to_start(&mut k, 0x1000_0000, 0x3000), 0);
    let a = k.tasks[0].as_ref().unwrap().memory_set.areas.last().unwrap();
    assert_eq!((a.start_vpn, a.end_vpn), (0x10000, 0x10000));
    assert_eq!(read_from_va(&k, 0x1000_0000), -1);
    assert_eq!(unmap_len_to_start(&mut k, 0x1000_0000, 0x1000), -1);
}

#[test]
fn unmap_len_to_start_with_unaligned_start_empties_the_area() {
    let mut k = boot();
    assert_eq!(map_len_to_start(&mut k, 0x1000_0100, 0x1000, 0b011), 0);
    assert_eq!(unmap_len_to_start(&mut k, 0x1000_0100, 0x1000), 0);
    let a = k.tasks[0].as_ref().unwrap().memory_set.areas.last().unwrap();
    assert_eq!((a.start_vpn, a.end_vpn), (0x10000, 0x10000));
    assert_eq!(a.frames.len(), 0);
}

#[test]
fn write_then_read_a_user_byte() {
    let mut k = boot();
    assert_eq!(write_to_va(&mut k, 0x1234, 0xab), 0);
    assert_eq!(read_from_va(&k, 0x1234), 0xab);
    assert_eq!(read_from_va(&k, 0x1235), 0);
}

#[test]
fn no_user_access_to_the_trap_context() {
    let mut k = boot();
    let trap_cx = 0x7ff_fffe_usize * 4096;
    assert_eq!(write_to_va(&mut k, trap_cx, 1), -1);
    assert_eq!(read_from_va(&k, trap_cx), -1);
    assert_eq!(read_from_va(&k, 0x5000_0000), -1);
}

#[test]
fn read_only_mapping_refuses_writes() {
    let mut k = boot();
    assert_eq!(sys_mmap(&mut k, 0x1000_0000, 0x1000, 0b001), 0);
    assert_eq!(write_to_va(&mut k, 0x1000_0000, 7), -1);
    assert_eq!(read_from_va(&k, 0x1000_0000), 0);
}

#[test]
fn write_only_mapping_refuses_reads() {
    let mut k = boot();
    assert_eq!(sys_mmap(&mut k, 0x1000_0000, 0x1000, 0b010), 0);
    assert_eq!(write_to_va(&mut k, 0x1000_0000, 7), 0);
    assert_eq!(read_from_va(&k, 0x1000_0000), -1);
}

#[test]
fn timeval_write_within_a_page() {
    let mut k = boot();
    let data: Vec<u8> = (1..=16).collect();
    assert_eq!(write_to_va_timeval(&mut k, 0x1ff0, &data), 0);
    for i in 0..16usize {
        assert_eq!(read_from_va(&k, 0x1ff0 + i), (i + 1) as isize);
    }
    assert_eq!(read_from_va(&k, 0x2000), 0);
}

#[test]
fn timeval_write_refused_on_unmapped_page() {
    let mut k = boot();
    let data = vec![9u8; 16];
    assert_eq!(write_to_va_timeval(&mut k, 0x5000_0000, &data), -1);
}

#[test]
fn timeval_write_across_pages_splits_the_value() {
    let mut k = boot();
    let data: Vec<u8> = (1..=16).collect();
    // offset 0xff8 in the first stack page: 8 bytes end that page, 8 start the next.
    assert_eq!(write_to_va_timeval(&mut k, 0x1ff8, &data), 0);
    for i in 0..16usize {
        assert_eq!(read_from_va(&k, 0x1ff8 + i), (i + 1) as isize);
    }
    assert_eq!(read_from_va(&k, 0x2008), 0);
}

#[test]
fn timeval_write_across_into_an_unmapped_page_fails() {
    let mut k = boot();
    let data = vec![7u8; 16];
    // the stack's last page is followed by the empty heap
    assert_eq!(write_to_va_timeval(&mut k, 0x2ffc, &data), -1);
    assert_eq!(read_from_va(&k, 0x2ffc), 7);
}

#[test]
fn sbrk_grows_and_shrinks_the_heap() {
    let mut k = boot();
    assert_eq!(sys_sbrk(&mut k, 0x1000), 0x3000);
    assert_eq!(k.tasks[0].as_ref().unwrap().program_brk, 0x4000);
    assert_eq!(write_to_va(&mut k, 0x3008, 5), 0);
    assert_eq!(read_from_va(&k, 0x3008), 5);
    assert_eq!(sys_sbrk(&mut k, -0x1000), 0x4000);
    assert_eq!(k.tasks[0].as_ref().unwrap().program_brk, 0x3000);
    assert_eq!(read_from_va(&k, 0x3008), -1);
}

#[test]
fn sbrk_below_heap_bottom_fails() {
    let mut k = boot();
    assert_eq!(sys_sbrk(&mut k, -1), -1);
    assert_eq!(change_program_brk(&mut k, -8), None);
    assert_eq!(change_program_brk(&mut k, 10), Some(0x3000));
    assert_eq!(change_program_brk(&mut k, 0), Some(0x300a));
}

#[test]
fn sbrk_up_then_down_restores_break_and_areas() {
    let mut k = boot();
    let before: Vec<(u64, u64, usize)> = k.tasks[0]
        .as_ref()
        .unwrap()
        .memory_set
        .areas
        .iter()
        .map(|a| (a.start_vpn, a.end_vpn, a.frames.len()))
        .collect();
    assert_eq!(sys_sbrk(&mut k, 0x2345), 0x3000);
    assert_eq!(sys_sbrk(&mut k, -0x2345), 0x5345);
    let after: Vec<(u64, u64, usize)> = k.tasks[0]
        .as_ref()
        .unwrap()
        .memory_set
        .areas
        .iter()
        .map(|a| (a.start_vpn, a.end_vpn, a.frames.len()))
        .collect();
    assert_eq!(before, after);
    assert_eq!(k.tasks[0].as_ref().unwrap().program_brk, 0x3000);
}

#[test]
fn munmap_at_the_heap_start_drops_the_heap_area() {
    let mut k = boot();
    // The heap area starts, empty, at 0x3000; an area mapped there starts at
    // the same page, and munmap drops the first area starting there: the heap.
    assert_eq!(sys_mmap(&mut k, 0x3000, 0x1000, 0b011), 0);
    assert_eq!(sys_munmap(&mut k, 0x3000, 0x1000), 0);
    let areas = &k.tasks[0].as_ref().unwrap().memory_set.areas;
    assert_eq!(areas.iter().filter(|a| a.start_vpn == 3).count(), 1);
    assert_eq!(areas.last().unwrap().end_vpn, 4);
    // The break now moves within the mapped area.
    assert_eq!(sys_sbrk(&mut k, 0x800), 0x3000);
    assert_eq!(read_from_va(&k, 0x3000), 0);
}
