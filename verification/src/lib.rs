//! Core of a small teaching kernel for a single-core RISC-V machine with
//! three-level paged virtual memory.
//!
//! The crate models the machine's physical memory as an arena of page frames
//! and builds on top of it: a frame allocator, page tables, per-task address
//! spaces, a round-robin task manager, the memory and process system calls and
//! the trap dispatcher. Machine words (addresses, page numbers, register
//! values) are `u64`; `usize` is used for indices into the kernel's own
//! collections. The crate is for machines whose `usize` has 64 bits: the
//! functions that decode the cause of a trap and encode the trap vector call
//! the `riscv` crate, which works on `usize`. Everything that touches real hardware (control registers, the
//! context switch, the jump back to user mode) is left to the caller, which is
//! told what to do through the values these functions return.

pub mod config;
pub mod mm;
pub mod syscall;
pub mod task;

pub mod trap;
