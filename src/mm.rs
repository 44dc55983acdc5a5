//! Memory management: addresses, frames, page tables and address spaces.
use vstd::prelude::*;

pub mod address;
pub mod frame_allocator;
pub mod page_table;
pub mod elf;
pub mod memory_set;

verus! {

/// Why an operation on memory did not complete.
#[derive(Clone, Copy, Debug, PartialEq, Eq, Structural)]
pub enum MemError {
    /// The frame allocator had no frame left.
    OutOfFrames,
    /// The area overlaps one that is already in the address space.
    Overlap,
    /// The image is not an executable this kernel can load.
    InvalidElf,
    /// An address range is inverted or reaches the top page.
    InvalidRange,
}

} // verus!
