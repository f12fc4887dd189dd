//! Memory manager and preemptive scheduler of a small kernel: a first-fit
//! page-frame allocator, 4-level translation tables with reference-counted
//! frames, processes loaded from executable images, a round-robin
//! scheduler, and the dispatch of traps and system calls.

pub mod page;
pub mod allocator;
pub mod pmm;
pub mod vm;
pub mod process;
pub mod scheduler;
pub mod elf;
pub mod loader;
pub mod traps;
pub mod fork;
pub mod syscall;
