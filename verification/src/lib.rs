//! A verified model of a small teaching kernel: its address spaces, its
//! root-directory file system, its task table and the system calls that
//! user programs make into it.
use vstd::prelude::*;

pub mod config;
pub mod fs;
pub mod laws;
pub mod loader;
pub mod mm;
pub mod syscall;
pub mod task;
