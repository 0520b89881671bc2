//! The system calls: file and file-system calls, and process calls. Each
//! takes the kernel state explicitly; user pointers are plain addresses in
//! the current task's address space.
pub mod fs;
pub mod process;
