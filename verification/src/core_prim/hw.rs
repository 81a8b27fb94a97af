//! What the processor offers besides computing.

use core::marker::PhantomData;
use vstd::prelude::*;

verus! {

/// Measures time in cycles of the processor.
#[derive(Clone, Copy, Debug, PartialEq, Eq, Structural)]
pub struct CycleClock {
    pub start: u64,
}

impl CycleClock {
    /// A clock that starts at a reading of the cycle counter.
    pub fn new(start: u64) -> (r: Self)
        ensures
            r.start == start,
    {
        CycleClock { start }
    }

    /// Cycles up to a later reading of the cycle counter.
    pub fn elapsed(&self, end: u64) -> (r: u64)
        requires
            self.start <= end,
        ensures
            r == end - self.start,
    {
        end - self.start
    }
}

/// Features of the processor.
#[derive(Clone, Copy, Debug, PartialEq, Eq, Structural)]
pub struct HardwareFeature;

/// An address that may be fetched ahead of its use.
pub struct SafeToPrefetch<T> {
    addr: usize,
    kind: PhantomData<T>,
}

impl<T> SafeToPrefetch<T> {
    pub closed spec fn spec_addr(&self) -> usize {
        self.addr
    }

    pub fn new(addr: usize) -> (r: Self)
        ensures
            r.spec_addr() == addr,
    {
        SafeToPrefetch { addr, kind: PhantomData }
    }

    /// The address, whatever it is that of.
    pub fn to_const(&self) -> (r: usize)
        ensures
            r == self.spec_addr(),
    {
        self.addr
    }
}

/// The cache that something is fetched into.
#[derive(Clone, Copy, Debug, PartialEq, Eq, Structural)]
pub enum PrefetchHint {
    PreferL1,
    PreferL2,
    PreferL3,
}

impl HardwareFeature {
    /// A clock that starts at a reading of the cycle counter.
    pub fn new_cycle_clock(start: u64) -> (r: CycleClock)
        ensures
            r.start == start,
    {
        CycleClock::new(start)
    }
}

} // verus!
