//! Platform and layout constants of the kernel.
use vstd::prelude::*;

verus! {

/// Size of a page and of a physical frame, in bytes.
pub const PAGE_SIZE: u64 = 4096;
/// Number of offset bits in an address.
pub const PAGE_SIZE_BITS: u64 = 12;
/// Size of each application's user stack.
pub const USER_STACK_SIZE: u64 = 8192;
/// Size of each application's kernel stack.
pub const KERNEL_STACK_SIZE: u64 = 8192;
/// Largest number of applications the kernel manages.
pub const MAX_APP_NUM: usize = 16;
/// Physical address of the first application slot.
pub const APP_BASE_ADDRESS: u64 = 0x80400000;
/// Size of one application slot.
pub const APP_SIZE_LIMIT: u64 = 0x20000;
/// End of physical memory on the QEMU `virt` machine.
pub const MEMORY_END: u64 = 0x80800000;
/// Frequency of the `time` counter on the QEMU `virt` machine.
pub const CLOCK_FREQ: u64 = 12500000;
/// The highest virtual page: the trampoline shared by every address space.
pub const TRAMPOLINE: u64 = 0xffff_ffff_ffff_f000;
/// The page below the trampoline: the trap context of a user address space.
pub const TRAP_CONTEXT: u64 = 0xffff_ffff_ffff_e000;

} // verus!
