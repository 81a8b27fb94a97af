//! Verified core of a size-class and buddy memory allocator.

use vstd::prelude::*;

pub mod abi;
pub mod api_surface;
pub mod backend;
pub mod big_allocation;
pub mod big_allocations;
pub mod core_prim;
pub mod debug_exit_printer;
pub mod frontend;
pub mod global_alloc;
pub mod global_vals;
pub mod inner;
pub mod internals;
pub mod stress;
pub mod text;
pub mod utility;

verus! {

/// What is known about the content of a block that is about to be handed out.
#[derive(Clone, Copy, Debug, PartialEq, Eq, Structural)]
pub enum Flags {
    /// Never handed out since it was mapped, so it still reads as zero.
    NotAllocated,
    /// Handed out before and possibly dirty.
    Allocated,
    /// Handed out before, but its pages were given back since.
    Trimmed,
    /// A large block of the buddy allocator, possibly dirty.
    BigAlloc,
}

/// What ends the program when it is found.
#[derive(Clone, Copy, Debug, PartialEq, Eq, Structural)]
pub enum RSMallocError {
    OutOfMemory,
    MemoryCorruption,
    DoubleFree,
    AttackOrCorruption,
    ForeignPointer,
    SecurityViolation,
    RseqUnavailable,
}

/// Words that mark the headers of blocks in use, of freed blocks and of large allocations.
#[derive(Clone, Copy, Debug, PartialEq, Eq, Structural)]
pub struct Magic {
    pub main: u64,
    pub freed: u64,
    pub big: u64,
}

impl Magic {
    /// No two of the words are equal.
    pub open spec fn distinct(&self) -> bool {
        self.main != self.freed && self.main != self.big && self.freed != self.big
    }
}

/// What stands in front of a payload.
#[derive(Clone, Copy, Debug, PartialEq, Eq, Structural)]
pub struct Header {
    /// Size class of the block.
    pub class: u8,
    pub magic: u64,
    /// Time stamp of the last return.
    pub life_time: u32,
    pub flags: Flags,
}

/// Bytes of an address.
pub const OFFSET_SIZE: usize = 8;

/// Bytes in front of an aligned payload: a tag and the address of the allocation.
pub const TAG_SIZE: usize = 16;

/// Bookkeeping kept for every allocation too large for the slab caches.
#[derive(Clone, Copy, Debug, PartialEq, Eq, Structural)]
pub struct BigAllocMeta {
    /// Payload bytes that were requested.
    pub size: usize,
    /// Base-two logarithm of the mapping that backs the payload.
    pub order: usize,
    /// Buddy segment that owns the block, or zero for a direct mapping.
    pub buddy_region: usize,
    /// Whether every page of the mapping is registered as owned.
    pub aligned: bool,
}

} // verus!
