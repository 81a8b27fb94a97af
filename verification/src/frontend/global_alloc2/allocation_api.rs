//! The allocator's own interface: allocations carry their metadata, so that they are returned
//! without their layout and resized without it.

use crate::text;
use vstd::layout;
use vstd::prelude::*;

verus! {

/// Why an operation failed.
#[non_exhaustive]
#[derive(Clone, Copy, Debug, PartialEq, Eq, Structural)]
pub enum AllocationError {
    /// There is not enough memory.
    OutOfMemory,
    /// The alignment is zero, no power of two, or not supported.
    InvalidAlignment,
    /// The size does not fit in an address.
    SizeOverflow,
    /// The allocator does not own the address.
    NotOwned,
    /// There is no such operation.
    NotSupported,
    /// The operating system gave this error number.
    OsError(i32),
}

impl AllocationError {
    /// What the error says; `told` is what the operating system says of its error number.
    pub open spec fn spec_message(&self, told: Seq<char>) -> Seq<char> {
        match *self {
            AllocationError::OutOfMemory => "allocator could not satisfy the allocation request"@,
            AllocationError::InvalidAlignment => "invalid or unsupported allocation alignment"@,
            AllocationError::SizeOverflow => "allocation size overflowed usize"@,
            AllocationError::NotOwned => "pointer is not owned by the allocator"@,
            AllocationError::NotSupported => "allocation operation is not supported"@,
            AllocationError::OsError(number) => "operating system error "@ + text::signed(
                number as int,
            ) + ": "@ + told,
        }
    }

    /// What the error says; `told` is what the operating system says of its error number.
    pub fn message(&self, told: &str) -> (r: String)
        ensures
            r@ == self.spec_message(told@),
    {
        match self {
            AllocationError::OutOfMemory => "allocator could not satisfy the allocation request".to_string(),
            AllocationError::InvalidAlignment => "invalid or unsupported allocation alignment".to_string(),
            AllocationError::SizeOverflow => "allocation size overflowed usize".to_string(),
            AllocationError::NotOwned => "pointer is not owned by the allocator".to_string(),
            AllocationError::NotSupported => "allocation operation is not supported".to_string(),
            AllocationError::OsError(number) => {
                let mut r: String = "operating system error ".to_string();
                text::append_signed(&mut r, *number);
                r.append(": ");
                r.append(told);
                r
            },
        }
    }
}

/// Bytes that are asked for. Nothing is said about alignment.
#[must_use]
#[derive(Clone, Copy, Debug, PartialEq, Eq, PartialOrd, Ord, Hash, Structural)]
pub struct AllocationSize {
    count: usize,
}

impl AllocationSize {
    pub closed spec fn spec_bytes(&self) -> usize {
        self.count
    }

    pub fn from_bytes(bytes: usize) -> (r: Self)
        ensures
            r.spec_bytes() == bytes,
    {
        AllocationSize { count: bytes }
    }

    /// The bytes of `count` values of `T` in a row.
    pub fn array_bytes<T>(count: usize) -> (r: Result<Self, AllocationError>)
        ensures
            r matches Ok(s) ==> s.spec_bytes() == layout::size_of::<T>() * count,
            r matches Err(e) ==> e == AllocationError::SizeOverflow,
            r is Ok <==> layout::size_of::<T>() * count <= usize::MAX,
    {
        match core::mem::size_of::<T>().checked_mul(count) {
            Some(bytes) => Ok(AllocationSize { count: bytes }),
            None => Err(AllocationError::SizeOverflow),
        }
    }

    pub fn bytes(&self) -> (r: usize)
        ensures
            r == self.spec_bytes(),
    {
        self.count
    }
}

/// Makes and reads the sizes that an allocator accepts.
pub trait AllocationSizeAPI {
    /// What is made.
    type Out;

    fn from_bytes(bytes: usize) -> Self::Out;

    fn array_bytes<T>(count: usize) -> Result<Self::Out, AllocationError>;

    fn bytes(&self) -> usize;
}

impl AllocationSizeAPI for AllocationSize {
    type Out = AllocationSize;

    fn from_bytes(bytes: usize) -> (r: AllocationSize)
        ensures
            r.spec_bytes() == bytes,
    {
        AllocationSize { count: bytes }
    }

    fn array_bytes<T>(count: usize) -> (r: Result<AllocationSize, AllocationError>)
        ensures
            r matches Ok(s) ==> s.spec_bytes() == layout::size_of::<T>() * count,
            r matches Err(e) ==> e == AllocationError::SizeOverflow,
            r is Ok <==> layout::size_of::<T>() * count <= usize::MAX,
    {
        AllocationSize::array_bytes::<T>(count)
    }

    fn bytes(&self) -> (r: usize)
        ensures
            r == self.spec_bytes(),
    {
        self.count
    }
}

/// What is asked of the heap.
#[derive(Clone, Copy, Debug, PartialEq, Eq, Structural)]
pub enum HeapRequest {
    Allocate { size: usize },
    AllocateZeroed { size: usize },
    AllocateAligned { size: usize, alignment: usize },
    /// The allocation ends up at a multiple of `align`, or keeps the alignment that it has.
    Reallocate { pointer: usize, size: usize, align: Option<usize> },
    Free { pointer: usize },
}

/// An interface to a heap that keeps its own metadata: each operation tells what is asked of the
/// heap, and `complete` turns the address that the heap gives, zero standing for none, into the
/// result. An operation that fails leaves all allocations as they are.
pub trait AllocationAPI {
    /// Sizes that are accepted.
    type Size;

    fn allocate(&self, size: Self::Size) -> HeapRequest;

    fn allocate_aligned(&self, size: Self::Size, alignment: usize) -> Result<
        HeapRequest,
        AllocationError,
    >;

    fn allocate_zeroed(&self, size: Self::Size) -> HeapRequest;

    /// The usable bytes that the heap told, zero standing for an address that it does not own.
    fn usable_size(&self, told: usize) -> Result<usize, AllocationError>;

    fn deallocate(&self, pointer: usize) -> HeapRequest;

    /// A size of zero is not supported: the allocation stays.
    fn reallocate(&self, pointer: usize, new_size: Self::Size) -> Result<
        HeapRequest,
        AllocationError,
    >;

    fn complete(&self, address: usize) -> Result<usize, AllocationError>;
}

/// Different errors are told differently.
pub proof fn law_messages_tell_errors_apart(a: AllocationError, b: AllocationError, told: Seq<char>)
    requires
        a.spec_message(told) == b.spec_message(told),
    ensures
        a == b,
{
    reveal_strlit("allocator could not satisfy the allocation request");
    reveal_strlit("invalid or unsupported allocation alignment");
    reveal_strlit("allocation size overflowed usize");
    reveal_strlit("pointer is not owned by the allocator");
    reveal_strlit("allocation operation is not supported");
    reveal_strlit("operating system error ");
    reveal_strlit(": ");
    let x = a.spec_message(told);
    assert(a is OutOfMemory ==> x[0] == 'a' && x[9] == ' ');
    assert(a is InvalidAlignment ==> x[0] == 'i');
    assert(a is SizeOverflow ==> x[0] == 'a' && x[9] == 'n' && x[11] == 's');
    assert(a is NotOwned ==> x[0] == 'p');
    assert(a is NotSupported ==> x[0] == 'a' && x[9] == 'n' && x[11] == 'o');
    assert(a is OsError ==> x[0] == 'o');
    assert(b is OutOfMemory ==> x[0] == 'a' && x[9] == ' ');
    assert(b is InvalidAlignment ==> x[0] == 'i');
    assert(b is SizeOverflow ==> x[0] == 'a' && x[9] == 'n' && x[11] == 's');
    assert(b is NotOwned ==> x[0] == 'p');
    assert(b is NotSupported ==> x[0] == 'a' && x[9] == 'n' && x[11] == 'o');
    assert(b is OsError ==> x[0] == 'o');
    if a is OsError && b is OsError {
        let n = a->OsError_0 as int;
        let m = b->OsError_0 as int;
        let head = "operating system error "@;
        let s = text::signed(n);
        let t = text::signed(m);
        assert(x == head + s + ": "@ + told);
        assert(x == head + t + ": "@ + told);
        assert(x.len() == head.len() + s.len() + 2 + told.len());
        assert(x.len() == head.len() + t.len() + 2 + told.len());
        assert forall|i: int| 0 <= i < s.len() implies s[i] == t[i] by {
            assert(x[head.len() + i] == s[i]);
            assert(x[head.len() + i] == t[i]);
        }
        assert(s =~= t);
        text::law_signed(n);
        text::law_signed(m);
    }
}

/// The message of an error of the operating system holds its number and what the system says of it.
pub proof fn law_system_errors_are_told(number: i32, told: Seq<char>)
    ensures
        ({
            let x = AllocationError::OsError(number).spec_message(told);
            let s = text::signed(number as int);
            &&& told.len() + s.len() <= x.len()
            &&& x.skip(x.len() - told.len()) == told
            &&& x.skip(x.len() - told.len() - s.len() - 2).take(s.len() as int) == s
        }),
{
    reveal_strlit("operating system error ");
    reveal_strlit(": ");
    let x = AllocationError::OsError(number).spec_message(told);
    let s = text::signed(number as int);
    assert(x.skip(x.len() - told.len()) =~= told);
    assert(x.skip(x.len() - told.len() - s.len() - 2).take(s.len() as int) =~= s);
}

} // verus!
