# rcore_os

A verified model of a small teaching kernel (tasks, address spaces, a flat
file system) and of the system calls its user programs make.

- `src/mm.rs`: address spaces as lists of framed areas; mapping, unmapping,
  growing and shrinking areas; byte access.
- `src/loader.rs`: ELF64 program images: which can be loaded, and the address
  space, user stack and entry point built from them.
- `src/fs.rs`: the root directory, inodes, open files and `open` flags.
- `src/task/`: the task table (one slot per pid), round-robin scheduling and
  the consistency of the kernel state (`mod.rs`); the current task's memory,
  program break and mappings (`memory.rs`); fork/exec/spawn/exit/reaping
  (`process.rs`); descriptor tables (`files.rs`).
- `src/syscall/`: the file and process system calls, each with its exact effect.
- `src/laws.rs`: properties that span several calls.
- `app/`: the global task manager, console and clock I/O around the calls.
