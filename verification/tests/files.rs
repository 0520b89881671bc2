use rcore_os::fs::{CREATE, RDONLY, RDWR, TRUNC, WRONLY};
use rcore_os::syscall::fs::{
    sys_close, sys_fstat, sys_linkat, sys_open, sys_read, sys_unlinkat, sys_write,
};
use rcore_os::task::{run_first_task, TaskManager};

/// An ELF64 image with entry point `entry` and the loadable segments
/// `(flags, vaddr, file bytes, memory size)`.
fn elf(entry: u64, segs: &[(u32, u64, Vec<u8>, u64)]) -> Vec<u8> {
    let mut img = vec![0u8; 64 + 56 * segs.len()];
    img[0..4].copy_from_slice(&[0x7f, b'E', b'L', b'F']);
    img[24..32].copy_from_slice(&entry.to_le_bytes());
    img[32..40].copy_from_slice(&64u64.to_le_bytes());
    img[56..58].copy_from_slice(&(segs.len() as u16).to_le_bytes());
    for (i, (flags, vaddr, bytes, memsz)) in segs.iter().enumerate() {
        let off = img.len() as u64;
        let b = 64 + 56 * i;
        img[b..b + 4].copy_from_slice(&1u32.to_le_bytes());
        img[b + 4..b + 8].copy_from_slice(&flags.to_le_bytes());
        img[b + 8..b + 16].copy_from_slice(&off.to_le_bytes());
        img[b + 16..b + 24].copy_from_slice(&vaddr.to_le_bytes());
        img[b + 32..b + 40].copy_from_slice(&(bytes.len() as u64).to_le_bytes());
        img[b + 40..b + 48].copy_from_slice(&memsz.to_le_bytes());
        img.extend_from_slice(bytes);
    }
    img
}

fn boot() -> TaskManager {
    let apps = vec![elf(0x1000, &[])];
    let mut k = TaskManager::new(&apps);
    run_first_task(&mut k);
    k
}

fn put_str(k: &mut TaskManager, ptr: usize, s: &str) {
    let mut v: Vec<u8> = s.as_bytes().to_vec();
    v.push(0);
    k.write_user_buf(ptr, &v);
}

fn create(k: &mut TaskManager, name: &str, data: &[u8]) {
    put_str(k, 0x1000, name);
    let fd = sys_open(k, 0x1000, CREATE | WRONLY);
    assert!(fd >= 0);
    k.write_user_buf(0x1400, &data.to_vec());
    assert_eq!(sys_write(k, fd as usize, 0x1400, data.len()), data.len() as isize);
    assert_eq!(sys_close(k, fd as usize), 0);
}

#[test]
fn write_then_read_back_a_file() {
    let mut k = boot();
    create(&mut k, "a", b"hello");
    put_str(&mut k, 0x1000, "a");
    let fd = sys_open(&mut k, 0x1000, RDONLY);
    assert_eq!(fd, 3);
    assert_eq!(sys_read(&mut k, 3, 0x1800, 10), 5);
    assert_eq!(k.read_user_buf(0x1800, 5), b"hello".to_vec());
    assert_eq!(sys_read(&mut k, 3, 0x1800, 10), 0);
}

#[test]
fn reads_and_writes_move_the_offset() {
    let mut k = boot();
    put_str(&mut k, 0x1000, "f");
    let fd = sys_open(&mut k, 0x1000, CREATE | RDWR) as usize;
    k.write_user_buf(0x1400, &b"abcdef".to_vec());
    assert_eq!(sys_write(&mut k, fd, 0x1400, 3), 3);
    assert_eq!(sys_write(&mut k, fd, 0x1403, 3), 3);
    assert_eq!(k.fs.inodes[0].data, b"abcdef".to_vec());
    // the offset is at the end now
    assert_eq!(sys_read(&mut k, fd, 0x1800, 4), 0);
    let fd2 = sys_open(&mut k, 0x1000, RDONLY) as usize;
    assert_eq!(sys_read(&mut k, fd2, 0x1800, 4), 4);
    assert_eq!(sys_read(&mut k, fd2, 0x1804, 4), 2);
    assert_eq!(k.read_user_buf(0x1800, 6), b"abcdef".to_vec());
}

#[test]
fn open_without_create_of_missing_file_fails() {
    let mut k = boot();
    put_str(&mut k, 0x1000, "missing");
    assert_eq!(sys_open(&mut k, 0x1000, RDONLY), -1);
    assert_eq!(sys_open(&mut k, 0x1000, TRUNC), -1);
    assert_eq!(k.tasks[0].as_ref().unwrap().fd_table.len(), 3);
}

#[test]
fn create_and_trunc_empty_an_existing_file() {
    let mut k = boot();
    create(&mut k, "t", b"xyz");
    put_str(&mut k, 0x1000, "t");
    assert!(sys_open(&mut k, 0x1000, TRUNC | RDWR) >= 0);
    assert_eq!(k.fs.inodes[0].data.len(), 0);
    create(&mut k, "t", b"12");
    assert_eq!(k.fs.inodes.len(), 1);
    assert_eq!(k.fs.inodes[0].data, b"12".to_vec());
    assert!(sys_open(&mut k, 0x1000, CREATE) >= 0);
    assert_eq!(k.fs.inodes[0].data.len(), 0);
}

#[test]
fn rights_follow_the_flags() {
    let mut k = boot();
    create(&mut k, "r", b"data");
    put_str(&mut k, 0x1000, "r");
    let ro = sys_open(&mut k, 0x1000, RDONLY) as usize;
    k.write_user_buf(0x1400, &b"zz".to_vec());
    assert_eq!(sys_write(&mut k, ro, 0x1400, 2), -1);
    let wo = sys_open(&mut k, 0x1000, WRONLY) as usize;
    assert_eq!(sys_read(&mut k, wo, 0x1800, 2), -1);
    assert_eq!(sys_write(&mut k, wo, 0x1400, 2), 2);
    assert_eq!(k.fs.inodes[0].data, b"zzta".to_vec());
}

#[test]
fn closed_descriptor_is_reused_and_bad_ones_fail() {
    let mut k = boot();
    create(&mut k, "c", b"");
    put_str(&mut k, 0x1000, "c");
    assert_eq!(sys_open(&mut k, 0x1000, RDONLY), 3);
    assert_eq!(sys_open(&mut k, 0x1000, RDONLY), 4);
    assert_eq!(sys_close(&mut k, 3), 0);
    assert_eq!(sys_close(&mut k, 3), -1);
    assert_eq!(sys_close(&mut k, 99), -1);
    assert_eq!(sys_open(&mut k, 0x1000, RDONLY), 3);
    assert_eq!(sys_read(&mut k, 99, 0x1800, 1), -1);
    assert_eq!(sys_write(&mut k, 99, 0x1800, 1), -1);
}

#[test]
fn console_streams() {
    let mut k = boot();
    k.write_user_buf(0x1400, &b"hi".to_vec());
    assert_eq!(sys_write(&mut k, 1, 0x1400, 2), 2);
    assert_eq!(sys_write(&mut k, 2, 0x1400, 1), 1);
    assert_eq!(k.console_out, b"hih".to_vec());
    assert_eq!(sys_write(&mut k, 0, 0x1400, 1), -1);
    assert_eq!(sys_read(&mut k, 1, 0x1800, 1), -1);
    k.console_in.push(b'q');
    k.console_in.push(b'r');
    assert_eq!(sys_read(&mut k, 0, 0x1800, 1), 1);
    assert_eq!(k.read_user_buf(0x1800, 1), vec![b'q']);
    assert_eq!(k.console_in, vec![b'r']);
}

#[test]
fn fstat_reports_inode_mode_and_links() {
    let mut k = boot();
    create(&mut k, "x", b"1");
    create(&mut k, "y", b"2");
    put_str(&mut k, 0x1000, "y");
    let fd = sys_open(&mut k, 0x1000, RDONLY) as usize;
    assert_eq!(sys_fstat(&mut k, fd, 0x1900), 0);
    let st = k.read_user_buf(0x1900, 80);
    assert_eq!(u64::from_le_bytes(st[0..8].try_into().unwrap()), 0);
    assert_eq!(u64::from_le_bytes(st[8..16].try_into().unwrap()), 1);
    assert_eq!(u32::from_le_bytes(st[16..20].try_into().unwrap()), 0o100000);
    assert_eq!(u32::from_le_bytes(st[20..24].try_into().unwrap()), 1);
    assert!(st[24..80].iter().all(|b| *b == 0));
    assert_eq!(sys_fstat(&mut k, 50, 0x1900), -1);
}

#[test]
fn linkat_adds_a_name_and_unlinkat_drops_it() {
    let mut k = boot();
    create(&mut k, "old", b"abc");
    put_str(&mut k, 0x1000, "old");
    put_str(&mut k, 0x1100, "new");
    assert_eq!(sys_linkat(&mut k, 0x1000, 0x1100), 0);
    assert_eq!(k.fs.nlink(0), 2);
    let fd = sys_open(&mut k, 0x1100, RDONLY) as usize;
    assert_eq!(sys_read(&mut k, fd, 0x1800, 3), 3);
    assert_eq!(k.read_user_buf(0x1800, 3), b"abc".to_vec());
    assert_eq!(sys_fstat(&mut k, fd, 0x1900), 0);
    let st = k.read_user_buf(0x1900, 24);
    assert_eq!(u32::from_le_bytes(st[20..24].try_into().unwrap()), 2);
    assert_eq!(sys_unlinkat(&mut k, 0x1000), 0);
    assert_eq!(k.fs.nlink(0), 1);
    assert_eq!(sys_unlinkat(&mut k, 0x1000), -1);
    assert_eq!(sys_open(&mut k, 0x1000, RDONLY), -1);
    assert!(sys_open(&mut k, 0x1100, RDONLY) >= 0);
}

#[test]
fn linkat_refuses_same_name_or_missing_file() {
    let mut k = boot();
    create(&mut k, "s", b"");
    put_str(&mut k, 0x1000, "s");
    assert_eq!(sys_linkat(&mut k, 0x1000, 0x1000), -1);
    put_str(&mut k, 0x1100, "s");
    assert_eq!(sys_linkat(&mut k, 0x1000, 0x1100), -1);
    put_str(&mut k, 0x1200, "none");
    put_str(&mut k, 0x1300, "other");
    assert_eq!(sys_linkat(&mut k, 0x1200, 0x1300), -1);
    assert_eq!(k.fs.entries.len(), 1);
}

#[test]
fn close_after_open_frees_the_descriptor() {
    let mut k = boot();
    let before = k.tasks[0].as_ref().unwrap().fd_table.clone();
    put_str(&mut k, 0x1000, "f");
    let fd = sys_open(&mut k, 0x1000, CREATE | RDWR);
    assert_eq!(fd, 3);
    assert_eq!(sys_close(&mut k, fd as usize), 0);
    let after = k.tasks[0].as_ref().unwrap().fd_table.clone();
    assert_eq!(&after[..before.len()], &before[..]);
    assert!(after[before.len()..].iter().all(|s| s.is_none()));
    assert_eq!(sys_close(&mut k, fd as usize), -1);
}

#[test]
fn unlinkat_of_a_new_name_undoes_linkat() {
    let mut k = boot();
    create(&mut k, "a", &[1, 2]);
    let entries = k.fs.entries.len();
    put_str(&mut k, 0x1000, "a");
    put_str(&mut k, 0x1100, "b");
    assert_eq!(sys_linkat(&mut k, 0x1000, 0x1100), 0);
    assert_eq!(k.fs.entries.len(), entries + 1);
    assert_eq!(sys_unlinkat(&mut k, 0x1100), 0);
    assert_eq!(k.fs.entries.len(), entries);
    assert_eq!(k.fs.nlink(k.fs.find(&b"a".to_vec()).unwrap()), 1);
}
