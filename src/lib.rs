//! Core of a small Sv39 teaching kernel: typed addresses, a physical frame
//! allocator, three-level page tables, address spaces built from ELF images,
//! the trap and task contexts, the round-robin scheduler and the system-call
//! dispatcher. Everything that touches hardware (CSRs, SBI, raw memory) stays
//! outside this library; the decisions it makes are verified here.
use vstd::prelude::*;

pub mod config;
pub mod mm;
pub mod task;
pub mod timer;
pub mod trap;
pub mod syscall;
pub mod loader;
pub mod logging;

verus! {

} // verus!
