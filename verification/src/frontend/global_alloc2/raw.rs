//! Raw access to the global allocator.

use crate::frontend::global_alloc2::rsmalloc::NonZeroBytes;
use crate::frontend::global_alloc2::rsmalloc::RSMalloc;
use vstd::prelude::*;

verus! {

/// The global allocator without its safe interface.
pub struct RSMallocRaw<'a> {
    global: &'a RSMalloc,
}

impl RSMalloc {
    pub fn raw(&self) -> (r: RSMallocRaw<'_>)
        ensures
            r.spec_global() == *self,
    {
        RSMallocRaw::from_global(self)
    }
}

/// How much to give back, and where.
#[derive(Clone, Copy, Debug, PartialEq, Eq, Structural)]
pub enum AdvancedTrimSize {
    All,
    AllSlab,
    AllBuddy,
    Bytes(NonZeroBytes),
    SlabBytes(NonZeroBytes),
    BuddyBytes(NonZeroBytes),
}

/// What was given back, and where.
#[derive(Clone, Copy, Debug, PartialEq, Eq, Structural)]
pub struct TrimReport {
    pub buddy_bytes: usize,
    pub slab_bytes: usize,
}

impl AdvancedTrimSize {
    /// Bytes that the buddy allocator is asked for, zero standing for all.
    pub open spec fn buddy_part(&self) -> Option<usize> {
        match *self {
            AdvancedTrimSize::All => Some(0),
            AdvancedTrimSize::AllBuddy => Some(0),
            AdvancedTrimSize::Bytes(n) => Some(n.spec_get()),
            AdvancedTrimSize::BuddyBytes(n) => Some(n.spec_get()),
            AdvancedTrimSize::AllSlab => None,
            AdvancedTrimSize::SlabBytes(_) => None,
        }
    }

    /// Bytes that the small caches are asked for once the buddy allocator gave `buddy`.
    pub open spec fn slab_part(&self, buddy: int) -> Option<usize> {
        match *self {
            AdvancedTrimSize::All => Some(0),
            AdvancedTrimSize::AllSlab => Some(0),
            AdvancedTrimSize::SlabBytes(n) => Some(n.spec_get()),
            AdvancedTrimSize::Bytes(n) => if buddy < n.spec_get() {
                Some((n.spec_get() - buddy) as usize)
            } else {
                None
            },
            AdvancedTrimSize::AllBuddy => None,
            AdvancedTrimSize::BuddyBytes(_) => None,
        }
    }
}

impl<'a> RSMallocRaw<'a> {
    pub closed spec fn spec_global(&self) -> RSMalloc {
        *self.global
    }

    pub fn from_global(global: &'a RSMalloc) -> (r: Self)
        ensures
            r.spec_global() == *global,
    {
        RSMallocRaw { global }
    }

    /// Bytes that the buddy allocator is asked to give back, zero standing for all; `None` when it
    /// is not asked.
    pub fn trim_buddy(&self, trim_size: AdvancedTrimSize) -> (r: Option<usize>)
        ensures
            r == trim_size.buddy_part(),
    {
        match trim_size {
            AdvancedTrimSize::All => Some(0),
            AdvancedTrimSize::AllBuddy => Some(0),
            AdvancedTrimSize::Bytes(n) => Some(n.get()),
            AdvancedTrimSize::BuddyBytes(n) => Some(n.get()),
            AdvancedTrimSize::AllSlab => None,
            AdvancedTrimSize::SlabBytes(_) => None,
        }
    }

    /// Bytes that the small caches are asked to give back once the buddy allocator gave `buddy`,
    /// zero standing for all; `None` when they are not asked.
    pub fn trim_slab(&self, trim_size: AdvancedTrimSize, buddy: usize) -> (r: Option<usize>)
        ensures
            r == trim_size.slab_part(buddy as int),
    {
        match trim_size {
            AdvancedTrimSize::All => Some(0),
            AdvancedTrimSize::AllSlab => Some(0),
            AdvancedTrimSize::SlabBytes(n) => Some(n.get()),
            AdvancedTrimSize::Bytes(n) => {
                if buddy < n.get() {
                    Some(n.get() - buddy)
                } else {
                    None
                }
            },
            AdvancedTrimSize::AllBuddy => None,
            AdvancedTrimSize::BuddyBytes(_) => None,
        }
    }

    /// The report of a trim: what was not asked gave nothing back.
    pub fn trim(&self, trim_size: AdvancedTrimSize, buddy: usize, slab: usize) -> (r: TrimReport)
        ensures
            r.buddy_bytes == (if trim_size.buddy_part() is Some {
                buddy
            } else {
                0
            }),
            r.slab_bytes == (if trim_size.slab_part(r.buddy_bytes as int) is Some {
                slab
            } else {
                0
            }),
    {
        let buddy_bytes: usize = match self.trim_buddy(trim_size) {
            Some(_) => buddy,
            None => 0,
        };
        let slab_bytes: usize = match self.trim_slab(trim_size, buddy_bytes) {
            Some(_) => slab,
            None => 0,
        };
        TrimReport { buddy_bytes, slab_bytes }
    }
}

/// What each part is asked for: everything is asked of both, the rest of a number of bytes goes to
/// the small caches, and what is meant for one part is never asked of the other.
pub proof fn law_parts_of_a_trim(size: AdvancedTrimSize, buddy: int)
    requires
        0 <= buddy,
    ensures
        size == AdvancedTrimSize::All ==> size.buddy_part() == Some(0usize) && size.slab_part(buddy)
            == Some(0usize),
        size == AdvancedTrimSize::AllSlab ==> size.buddy_part() is None && size.slab_part(buddy)
            == Some(0usize),
        size == AdvancedTrimSize::AllBuddy ==> size.buddy_part() == Some(0usize) && size.slab_part(
            buddy,
        ) is None,
        size matches AdvancedTrimSize::SlabBytes(n) ==> size.buddy_part() is None
            && size.slab_part(buddy) == Some(n.spec_get()),
        size matches AdvancedTrimSize::BuddyBytes(n) ==> size.buddy_part() == Some(n.spec_get())
            && size.slab_part(buddy) is None,
        size matches AdvancedTrimSize::Bytes(n) ==> {
            &&& size.buddy_part() == Some(n.spec_get())
            &&& size.slab_part(buddy) is None <==> buddy >= n.spec_get()
            &&& size.slab_part(buddy) matches Some(more) ==> buddy + more == n.spec_get()
        },
{
}

} // verus!
