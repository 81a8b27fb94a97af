//! Memory for the regions of the buddy allocator.

use crate::big_allocations::buddy;
use vstd::prelude::*;

verus! {

/// Where memory is looked for next.
#[derive(Clone, Copy, Debug, PartialEq, Eq, Structural)]
pub enum ReserveStep {
    /// In the arenas of the page allocator.
    Pages,
    /// In a mapping of its own.
    Mapping,
    /// Nowhere: there is none.
    GiveUp,
}

/// A limited number of tries to get memory.
#[derive(Clone, Copy, Debug, PartialEq, Eq, Structural)]
pub struct Reserve {
    pub bytes: usize,
    /// The memory is for tables, not for payloads.
    pub metadata: bool,
    /// Tries that are left.
    pub left: usize,
}

impl Reserve {
    pub fn reserve(bytes: usize, metadata: bool, tries: usize) -> (r: Self)
        ensures
            r == (Reserve { bytes, metadata, left: tries }),
    {
        Reserve { bytes, metadata, left: tries }
    }

    /// The next try. Tables come from arenas, and so does what is smaller than an arena.
    pub fn next(&mut self, arena_size: usize) -> (r: ReserveStep)
        ensures
            r == (if old(self).left == 0 {
                ReserveStep::GiveUp
            } else if old(self).metadata || old(self).bytes < arena_size {
                ReserveStep::Pages
            } else {
                ReserveStep::Mapping
            }),
            final(self).bytes == old(self).bytes,
            final(self).metadata == old(self).metadata,
            final(self).left == if old(self).left == 0 {
                0
            } else {
                old(self).left - 1
            },
    {
        if self.left == 0 {
            return ReserveStep::GiveUp;
        }
        self.left = self.left - 1;
        if self.metadata || self.bytes < arena_size {
            ReserveStep::Pages
        } else {
            ReserveStep::Mapping
        }
    }
}

/// What becomes of the memory for a region.
#[derive(Clone, Copy, Debug, PartialEq, Eq, Structural)]
pub enum RegionMemory {
    /// There is no region.
    Failed,
    /// There is no region, and the payload memory has to be given back.
    Unmap { base: usize, bytes: usize },
    /// The region can be used; the caches hold so many bytes more.
    Ready { base: usize, cached: usize },
}

/// Decides on a region of `bytes`, once payload memory was looked for and, where there is some,
/// memory for its tables.
pub fn create_region(bytes: usize, data: Option<usize>, tables: bool) -> (r: RegionMemory)
    requires
        bytes + buddy::spec_metadata_bytes(bytes as int) <= usize::MAX,
    ensures
        r == (match data {
            None => RegionMemory::Failed,
            Some(base) => if tables {
                RegionMemory::Ready {
                    base,
                    cached: (bytes + buddy::spec_metadata_bytes(bytes as int)) as usize,
                }
            } else {
                RegionMemory::Unmap { base, bytes }
            },
        }),
{
    match data {
        None => RegionMemory::Failed,
        Some(base) => {
            if tables {
                RegionMemory::Ready { base, cached: bytes + buddy::metadata_bytes(bytes) }
            } else {
                RegionMemory::Unmap { base, bytes }
            }
        },
    }
}

} // verus!
