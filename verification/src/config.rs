//! Constants of the machine and of the kernel's address-space layout.
use vstd::prelude::*;

verus! {

/// Bytes in one page.
pub const PAGE_SIZE: u64 = 4096;

/// Size of the Sv39 virtual address space: `VirtAddr::from` keeps the low 39 bits.
pub const VA_RANGE: u64 = 0x80_0000_0000;

/// Number of virtual pages in the Sv39 address space.
pub const VPN_RANGE: u64 = 0x800_0000;

/// Page number of the trampoline, the highest page of every address space.
pub const TRAMPOLINE_VPN: u64 = 0x7ff_ffff;

/// Page number of the trap-context page, just below the trampoline.
pub const TRAP_CONTEXT_VPN: u64 = 0x7ff_fffe;

/// Size of a user stack.
pub const USER_STACK_SIZE: u64 = 0x2000;

/// Number of system-call numbers whose use is counted per task.
pub const MAX_SYSCALL_NUM: usize = 411;

/// Process id of the initial process, which adopts the children of exiting processes.
pub const INITPROC_PID: usize = 0;

/// Priority that a freshly loaded program starts with.
pub const DEFAULT_PRIO: isize = 16;

} // verus!
