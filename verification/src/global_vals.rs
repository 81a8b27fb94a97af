//! Counters and limits that all parts of the allocator share.

use vstd::prelude::*;

verus! {

/// Raises a high-water mark to `value`.
pub fn update_high_water(max: &mut usize, value: usize)
    ensures
        *final(max) == if value > *old(max) {
            value
        } else {
            *old(max)
        },
{
    if value > *max {
        *max = value;
    }
}

/// Bytes that the caches hold, and the most that they ever held.
#[derive(Clone, Copy, Debug, PartialEq, Eq, Structural)]
pub struct CachedVa {
    pub slab: usize,
    pub buddy: usize,
    pub high_slab: usize,
    pub high_buddy: usize,
    pub high_total: usize,
}

/// The larger of two numbers.
pub open spec fn larger(a: usize, b: usize) -> usize {
    if a < b {
        b
    } else {
        a
    }
}

/// A sum that stops at the largest number.
pub open spec fn sum_up_to_max(a: usize, b: usize) -> usize {
    if a + b > usize::MAX {
        usize::MAX
    } else {
        (a + b) as usize
    }
}

impl CachedVa {
    pub fn new() -> (r: Self)
        ensures
            r == (CachedVa { slab: 0, buddy: 0, high_slab: 0, high_buddy: 0, high_total: 0 }),
    {
        CachedVa { slab: 0, buddy: 0, high_slab: 0, high_buddy: 0, high_total: 0 }
    }

    /// The small caches hold `bytes` more. The counter itself wraps around, the marks do not.
    pub fn add_slab_cached_va(&mut self, bytes: usize)
        ensures
            ({
                let now = sum_up_to_max(old(self).slab, bytes);
                *final(self) == (CachedVa {
                    slab: old(self).slab.wrapping_add(bytes),
                    high_slab: larger(old(self).high_slab, now),
                    high_total: larger(
                        old(self).high_total,
                        sum_up_to_max(now, old(self).buddy),
                    ),
                    ..*old(self)
                })
            }),
    {
        let now: usize = self.slab.saturating_add(bytes);
        self.slab = self.slab.wrapping_add(bytes);
        update_high_water(&mut self.high_slab, now);
        update_high_water(&mut self.high_total, now.saturating_add(self.buddy));
    }

    /// The buddy allocator holds `bytes` more. The counter itself wraps around, the marks do not.
    pub fn add_buddy_cached_va(&mut self, bytes: usize)
        ensures
            ({
                let now = sum_up_to_max(old(self).buddy, bytes);
                *final(self) == (CachedVa {
                    buddy: old(self).buddy.wrapping_add(bytes),
                    high_buddy: larger(old(self).high_buddy, now),
                    high_total: larger(
                        old(self).high_total,
                        sum_up_to_max(old(self).slab, now),
                    ),
                    ..*old(self)
                })
            }),
    {
        let now: usize = self.buddy.saturating_add(bytes);
        self.buddy = self.buddy.wrapping_add(bytes);
        update_high_water(&mut self.high_buddy, now);
        update_high_water(&mut self.high_total, self.slab.saturating_add(now));
    }
}

/// Mappings that were made. The counters wrap around.
#[derive(Clone, Copy, Debug, PartialEq, Eq, Structural)]
pub struct MmapCounter {
    pub calls: usize,
    pub bytes: usize,
}

impl MmapCounter {
    /// A mapping of so many bytes was made.
    pub fn record_mmap_call(&mut self, bytes: usize)
        ensures
            final(self).calls == old(self).calls.wrapping_add(1),
            final(self).bytes == old(self).bytes.wrapping_add(bytes),
    {
        self.calls = self.calls.wrapping_add(1);
        self.bytes = self.bytes.wrapping_add(bytes);
    }
}

/// The time stamp after so many milliseconds: tenths of a second, which wrap around.
pub fn get_clock(millis: u64) -> (r: u32)
    ensures
        r == (millis / 100) % 0x1_0000_0000,
{
    ((millis / 100) % 0x1_0000_0000) as u32
}

/// What a restartable sequence ended with.
#[derive(Debug, PartialEq, Eq, Structural)]
pub struct RseqResult(pub usize);

impl RseqResult {
    pub fn is_success(&self) -> (r: bool)
        ensures
            r == (self.0 == 1),
    {
        self.0 == 1
    }

    pub fn is_failed(&self) -> (r: bool)
        ensures
            r == (self.0 == usize::MAX),
    {
        self.0 == usize::MAX
    }
}

/// A high-water mark is the largest of what it was and what was reached, and sums stop at the largest
/// number.
pub proof fn law_marks_and_sums(a: usize, b: usize)
    ensures
        larger(a, b) >= a && larger(a, b) >= b,
        larger(a, b) == a || larger(a, b) == b,
        a + b <= usize::MAX ==> sum_up_to_max(a, b) == a + b,
        a + b > usize::MAX ==> sum_up_to_max(a, b) == usize::MAX,
{
}

} // verus!
