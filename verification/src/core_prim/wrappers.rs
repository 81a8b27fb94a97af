//! Typed addresses of allocation headers and payloads.

use core::marker::PhantomData;
use vstd::layout;
use vstd::prelude::*;

verus! {

/// The address of a `T` that is known to be valid.
#[must_use]
pub struct SafePointer<T> {
    addr: usize,
    kind: PhantomData<T>,
}

/// The address of a `T` that may be null or stale.
#[must_use]
pub struct UnsafePointer<T> {
    addr: usize,
    kind: PhantomData<T>,
}

impl<T> SafePointer<T> {
    pub closed spec fn spec_addr(&self) -> usize {
        self.addr
    }

    /// The header in front of a payload.
    pub fn get_actual_header(&self) -> (r: Self)
        requires
            self.spec_addr() >= layout::size_of::<T>(),
        ensures
            r.spec_addr() == self.spec_addr() - layout::size_of::<T>(),
    {
        SafePointer { addr: self.addr - core::mem::size_of::<T>(), kind: PhantomData }
    }

    /// The payload behind a header.
    pub fn walk_header(&self) -> (r: Self)
        requires
            self.spec_addr() + layout::size_of::<T>() <= usize::MAX,
        ensures
            r.spec_addr() == self.spec_addr() + layout::size_of::<T>(),
    {
        SafePointer { addr: self.addr + core::mem::size_of::<T>(), kind: PhantomData }
    }

    /// The address, to be read as that of another type.
    pub fn cast_as_ptr(&self) -> (r: usize)
        ensures
            r == self.spec_addr(),
    {
        self.addr
    }

    /// The address.
    pub fn as_ptr(&self) -> (r: usize)
        ensures
            r == self.spec_addr(),
    {
        self.addr
    }

    /// Forgets that the address is valid.
    pub fn apply_unsafe(&self) -> (r: UnsafePointer<T>)
        ensures
            r.spec_addr() == self.spec_addr(),
    {
        UnsafePointer { addr: self.addr, kind: PhantomData }
    }

    /// The address as a number.
    pub fn cast_usize(&self) -> (r: usize)
        ensures
            r == self.spec_addr(),
    {
        self.addr
    }
}

impl<T> UnsafePointer<T> {
    pub closed spec fn spec_addr(&self) -> usize {
        self.addr
    }

    pub fn new(addr: usize) -> (r: Self)
        ensures
            r.spec_addr() == addr,
    {
        UnsafePointer { addr, kind: PhantomData }
    }

    /// The address of nothing.
    pub fn null() -> (r: Self)
        ensures
            r.spec_addr() == 0,
    {
        UnsafePointer { addr: 0, kind: PhantomData }
    }

    /// The address as a number.
    pub fn cast_usize(&self) -> (r: usize)
        ensures
            r == self.spec_addr(),
    {
        self.addr
    }

    pub fn is_null(&self) -> (r: bool)
        ensures
            r == (self.spec_addr() == 0),
    {
        self.addr == 0
    }

    /// The header in front of a payload.
    pub fn get_actual_header(&self) -> (r: Self)
        requires
            self.spec_addr() >= layout::size_of::<T>(),
        ensures
            r.spec_addr() == self.spec_addr() - layout::size_of::<T>(),
    {
        UnsafePointer { addr: self.addr - core::mem::size_of::<T>(), kind: PhantomData }
    }

    /// The payload behind a header.
    pub fn walk_header(&self) -> (r: Self)
        requires
            self.spec_addr() + layout::size_of::<T>() <= usize::MAX,
        ensures
            r.spec_addr() == self.spec_addr() + layout::size_of::<T>(),
    {
        UnsafePointer { addr: self.addr + core::mem::size_of::<T>(), kind: PhantomData }
    }

    /// The same address with another type.
    pub fn cast<Y>(&self) -> (r: UnsafePointer<Y>)
        ensures
            r.spec_addr() == self.spec_addr(),
    {
        UnsafePointer { addr: self.addr, kind: PhantomData }
    }

    /// The address, to be read as that of another type.
    pub fn cast_as_ptr(&self) -> (r: usize)
        ensures
            r == self.spec_addr(),
    {
        self.addr
    }

    /// The address.
    pub fn as_ptr(&self) -> (r: usize)
        ensures
            r == self.spec_addr(),
    {
        self.addr
    }

    /// Vouches for the address.
    pub fn apply_safe(&self) -> (r: SafePointer<T>)
        ensures
            r.spec_addr() == self.spec_addr(),
    {
        SafePointer { addr: self.addr, kind: PhantomData }
    }
}

impl<T> From<usize> for SafePointer<T> {
    fn from(v: usize) -> (r: Self)
        ensures
            r.spec_addr() == v,
    {
        SafePointer { addr: v, kind: PhantomData }
    }
}

impl<T> vstd::std_specs::convert::FromSpecImpl<usize> for SafePointer<T> {
    open spec fn obeys_from_spec() -> bool {
        true
    }

    closed spec fn from_spec(v: usize) -> Self {
        SafePointer { addr: v, kind: PhantomData }
    }
}

impl<T> From<SafePointer<T>> for usize {
    fn from(v: SafePointer<T>) -> (r: usize) {
        v.addr
    }
}

impl<T> vstd::std_specs::convert::FromSpecImpl<SafePointer<T>> for usize {
    open spec fn obeys_from_spec() -> bool {
        true
    }

    open spec fn from_spec(v: SafePointer<T>) -> usize {
        v.spec_addr()
    }
}

impl<T> From<u64> for SafePointer<T> {
    fn from(v: u64) -> (r: Self)
        ensures
            r.spec_addr() == v as usize,
    {
        SafePointer { addr: #[verifier::truncate] (v as usize), kind: PhantomData }
    }
}

impl<T> vstd::std_specs::convert::FromSpecImpl<u64> for SafePointer<T> {
    open spec fn obeys_from_spec() -> bool {
        true
    }

    closed spec fn from_spec(v: u64) -> Self {
        SafePointer { addr: v as usize, kind: PhantomData }
    }
}

impl<T> From<SafePointer<T>> for u64 {
    fn from(v: SafePointer<T>) -> (r: u64) {
        v.addr as u64
    }
}

impl<T> vstd::std_specs::convert::FromSpecImpl<SafePointer<T>> for u64 {
    open spec fn obeys_from_spec() -> bool {
        true
    }

    open spec fn from_spec(v: SafePointer<T>) -> u64 {
        v.spec_addr() as u64
    }
}

impl<T> From<usize> for UnsafePointer<T> {
    fn from(v: usize) -> (r: Self)
        ensures
            r.spec_addr() == v,
    {
        UnsafePointer { addr: v, kind: PhantomData }
    }
}

impl<T> vstd::std_specs::convert::FromSpecImpl<usize> for UnsafePointer<T> {
    open spec fn obeys_from_spec() -> bool {
        true
    }

    closed spec fn from_spec(v: usize) -> Self {
        UnsafePointer { addr: v, kind: PhantomData }
    }
}

impl<T> From<UnsafePointer<T>> for usize {
    fn from(v: UnsafePointer<T>) -> (r: usize) {
        v.addr
    }
}

impl<T> vstd::std_specs::convert::FromSpecImpl<UnsafePointer<T>> for usize {
    open spec fn obeys_from_spec() -> bool {
        true
    }

    open spec fn from_spec(v: UnsafePointer<T>) -> usize {
        v.spec_addr()
    }
}

impl<T> From<u64> for UnsafePointer<T> {
    fn from(v: u64) -> (r: Self)
        ensures
            r.spec_addr() == v as usize,
    {
        UnsafePointer { addr: #[verifier::truncate] (v as usize), kind: PhantomData }
    }
}

impl<T> vstd::std_specs::convert::FromSpecImpl<u64> for UnsafePointer<T> {
    open spec fn obeys_from_spec() -> bool {
        true
    }

    closed spec fn from_spec(v: u64) -> Self {
        UnsafePointer { addr: v as usize, kind: PhantomData }
    }
}

impl<T> From<UnsafePointer<T>> for u64 {
    fn from(v: UnsafePointer<T>) -> (r: u64) {
        v.addr as u64
    }
}

impl<T> vstd::std_specs::convert::FromSpecImpl<UnsafePointer<T>> for u64 {
    open spec fn obeys_from_spec() -> bool {
        true
    }

    open spec fn from_spec(v: UnsafePointer<T>) -> u64 {
        v.spec_addr() as u64
    }
}

} // verus!
