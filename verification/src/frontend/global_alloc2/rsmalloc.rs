//! The global allocator.

use crate::frontend::global_alloc2::allocation_api::AllocationAPI;
use crate::frontend::global_alloc2::allocation_api::AllocationError;
use crate::frontend::global_alloc2::allocation_api::AllocationSize;
use crate::frontend::global_alloc2::allocation_api::HeapRequest;
use crate::frontend::global_alloc2::config;
use crate::frontend::global_alloc2::config::Config;
use crate::inner::align;
use crate::inner::align::is_power_of_two;
use crate::inner::align::NATURAL_ALIGNMENT;
use crate::inner::realloc;
use crate::inner::realloc::Resize;
use vstd::prelude::*;

verus! {

/// Trimming, sizes and set-up: what an allocator offers besides allocating. Each operation takes
/// what the heap said as arguments.
pub trait RSMallocCoreAPI {
    type TrimIn;

    type TrimOut;

    /// Bytes that the buddy allocator is asked to give back first, zero standing for all.
    fn trim_request(&self, size: &Self::TrimIn) -> usize;

    /// Bytes that the small caches are asked to give back once the buddy allocator gave `freed`.
    fn trim_rest(&self, size: &Self::TrimIn, freed: usize) -> Option<usize>;

    /// The result once the buddy allocator gave `freed` bytes and the small caches `small`.
    fn trim(&self, size: Self::TrimIn, freed: usize, small: usize) -> Self::TrimOut;

    /// The usable bytes that the heap told, zero standing for an address that it does not own.
    fn rs_usable_size(&self, told: usize) -> Option<usize>;
}

/// The global allocator.
pub struct RSMalloc {
    config: Config,
}

/// A number of bytes that is not zero.
#[derive(Clone, Copy, Debug, PartialEq, Eq, Structural)]
pub struct NonZeroBytes {
    count: usize,
}

impl NonZeroBytes {
    pub closed spec fn spec_get(self) -> usize {
        self.count
    }

    #[verifier::type_invariant]
    spec fn nonzero(self) -> bool {
        self.count != 0
    }

    /// So many bytes, unless there are none.
    pub fn new(count: usize) -> (r: Option<Self>)
        ensures
            r is Some <==> count != 0,
            r matches Some(bytes) ==> bytes.spec_get() == count,
    {
        if count == 0 {
            None
        } else {
            Some(NonZeroBytes { count })
        }
    }

    pub fn get(self) -> (r: usize)
        ensures
            r == self.spec_get(),
            r != 0,
    {
        proof {
            use_type_invariant(&self);
        }
        self.count
    }
}

/// How much to give back.
#[derive(Clone, Copy, Debug, PartialEq, Eq, Structural)]
pub enum SimpleTrimSize {
    All,
    Bytes(NonZeroBytes),
}

impl SimpleTrimSize {
    pub open spec fn spec_size(&self) -> usize {
        match *self {
            SimpleTrimSize::All => 0,
            SimpleTrimSize::Bytes(bytes) => bytes.spec_get(),
        }
    }

    fn get_size(&self) -> (r: usize)
        ensures
            r == self.spec_size(),
            r == 0 <==> *self is All,
    {
        match self {
            SimpleTrimSize::All => 0,
            SimpleTrimSize::Bytes(bytes) => bytes.get(),
        }
    }
}

impl RSMalloc {
    pub closed spec fn spec_config(&self) -> Config {
        self.config
    }

    /// An allocator with this configuration. The configuration of the first allocator that
    /// initializes is used by all.
    pub fn new(config: Config) -> (r: Self)
        ensures
            r.spec_config() == config,
    {
        RSMalloc { config }
    }

    pub fn new_default() -> (r: Self)
        ensures
            config::is_default(r.spec_config().spec_tuning()),
            r.spec_config().security() == (config::SecurityState {
                randomize_magic: true,
                abort_on_foreign_pointer: true,
            }),
    {
        RSMalloc { config: Config::default() }
    }

    /// What the allocator is configured with.
    pub fn config(&self) -> (r: Config)
        ensures
            r == self.spec_config(),
    {
        self.config
    }

    /// What a layout asks of the heap.
    pub fn layout_request(&self, size: usize, alignment: usize, zeroed: bool) -> (r: HeapRequest)
        ensures
            r == (if alignment > NATURAL_ALIGNMENT {
                HeapRequest::AllocateAligned { size, alignment }
            } else if zeroed {
                HeapRequest::AllocateZeroed { size }
            } else {
                HeapRequest::Allocate { size }
            }),
    {
        if alignment > NATURAL_ALIGNMENT {
            HeapRequest::AllocateAligned { size, alignment }
        } else if zeroed {
            HeapRequest::AllocateZeroed { size }
        } else {
            HeapRequest::Allocate { size }
        }
    }

    /// Bytes to clear at the start of the payload that a layout got: a request for cleared bytes
    /// at an alignment that payloads do not have by themselves gets them uncleared.
    pub fn layout_cleared(&self, size: usize, alignment: usize, zeroed: bool) -> (r: usize)
        ensures
            r == (if zeroed && alignment > NATURAL_ALIGNMENT {
                size
            } else {
                0
            }),
    {
        if zeroed && alignment > NATURAL_ALIGNMENT {
            size
        } else {
            0
        }
    }

    /// What resizing to a layout asks of the heap: never for no bytes at all.
    pub fn resize_request(&self, pointer: usize, new_size: usize, alignment: usize) -> (r:
        HeapRequest)
        ensures
            r == (HeapRequest::Reallocate {
                pointer,
                size: if new_size == 0 {
                    1
                } else {
                    new_size
                },
                align: Some(alignment),
            }),
    {
        HeapRequest::Reallocate {
            pointer,
            size: if new_size == 0 {
                1
            } else {
                new_size
            },
            align: Some(alignment),
        }
    }

    /// The bytes to clear, as an offset and a length, after a payload grew.
    pub fn grown_cleared(&self, old_size: usize, new_size: usize) -> (r: (usize, usize))
        requires
            old_size <= new_size,
        ensures
            r.0 == old_size,
            r.1 == new_size - old_size,
    {
        (old_size, new_size - old_size)
    }
}

/// What resizing an allocation asks of the heap: the alignment that it has is kept.
pub open spec fn resize_asked(pointer: usize, size: usize) -> Result<
    HeapRequest,
    AllocationError,
> {
    if size == 0 {
        Err(AllocationError::NotSupported)
    } else {
        Ok(HeapRequest::Reallocate { pointer, size, align: None })
    }
}

/// The result for the address that the heap gives.
pub open spec fn completed(address: usize) -> Result<usize, AllocationError> {
    if address == 0 {
        Err(AllocationError::OutOfMemory)
    } else {
        Ok(address)
    }
}

impl AllocationAPI for RSMalloc {
    type Size = AllocationSize;

    fn allocate(&self, size: AllocationSize) -> (r: HeapRequest)
        ensures
            r == (HeapRequest::Allocate { size: size.spec_bytes() }),
    {
        HeapRequest::Allocate { size: size.bytes() }
    }

    fn allocate_aligned(&self, size: AllocationSize, alignment: usize) -> (r: Result<
        HeapRequest,
        AllocationError,
    >)
        ensures
            r == (if align::is_power(alignment as int) {
                Ok::<HeapRequest, AllocationError>(
                    HeapRequest::AllocateAligned { size: size.spec_bytes(), alignment },
                )
            } else {
                Err::<HeapRequest, AllocationError>(AllocationError::InvalidAlignment)
            }),
    {
        if !is_power_of_two(alignment) {
            return Err(AllocationError::InvalidAlignment);
        }
        Ok(HeapRequest::AllocateAligned { size: size.bytes(), alignment })
    }

    fn allocate_zeroed(&self, size: AllocationSize) -> (r: HeapRequest)
        ensures
            r == (HeapRequest::AllocateZeroed { size: size.spec_bytes() }),
    {
        HeapRequest::AllocateZeroed { size: size.bytes() }
    }

    fn usable_size(&self, told: usize) -> (r: Result<usize, AllocationError>)
        ensures
            r == (if told == 0 {
                Err::<usize, AllocationError>(AllocationError::NotOwned)
            } else {
                Ok::<usize, AllocationError>(told)
            }),
    {
        if told != 0 {
            return Ok(told);
        }
        Err(AllocationError::NotOwned)
    }

    fn deallocate(&self, pointer: usize) -> (r: HeapRequest)
        ensures
            r == (HeapRequest::Free { pointer }),
    {
        HeapRequest::Free { pointer }
    }

    fn reallocate(&self, pointer: usize, new_size: AllocationSize) -> (r: Result<
        HeapRequest,
        AllocationError,
    >)
        ensures
            r == resize_asked(pointer, new_size.spec_bytes()),
    {
        let size: usize = new_size.bytes();
        if size == 0 {
            return Err(AllocationError::NotSupported);
        }
        Ok(HeapRequest::Reallocate { pointer, size, align: None })
    }

    fn complete(&self, address: usize) -> (r: Result<usize, AllocationError>)
        ensures
            r == completed(address),
    {
        if address == 0 {
            Err(AllocationError::OutOfMemory)
        } else {
            Ok(address)
        }
    }
}

impl RSMallocCoreAPI for RSMalloc {
    type TrimIn = SimpleTrimSize;

    type TrimOut = Option<usize>;

    fn trim_request(&self, size: &SimpleTrimSize) -> (r: usize)
        ensures
            r == size.spec_size(),
    {
        size.get_size()
    }

    fn trim_rest(&self, size: &SimpleTrimSize, freed: usize) -> (r: Option<usize>)
        ensures
            r == (if freed < size.spec_size() {
                Some((size.spec_size() - freed) as usize)
            } else {
                None
            }),
    {
        let requested: usize = size.get_size();
        if freed < requested {
            Some(requested - freed)
        } else {
            None
        }
    }

    fn trim(&self, size: SimpleTrimSize, freed: usize, small: usize) -> (r: Option<usize>)
        ensures
            r == (if freed < size.spec_size() && small > 0 {
                Some(
                    (if freed + small > usize::MAX {
                        usize::MAX as int
                    } else {
                        freed + small
                    }) as usize,
                )
            } else {
                None
            }),
    {
        if freed < size.get_size() && small > 0 {
            Some(freed.saturating_add(small))
        } else {
            None
        }
    }

    fn rs_usable_size(&self, told: usize) -> (r: Option<usize>)
        ensures
            r == (if told != 0 {
                Some(told)
            } else {
                None
            }),
    {
        if told != 0 {
            Some(told)
        } else {
            None
        }
    }
}

/// Resizing an allocation of `usable` bytes: a size of zero is refused before the heap is asked;
/// every error leaves memory as it was; every success has as much of the start of the allocation as
/// both sizes have in common, and all bytes of the new size.
pub proof fn law_reallocate(
    resize: Resize,
    mem: Map<int, u8>,
    pointer: usize,
    usable: usize,
    room: usize,
    size: usize,
    header: usize,
)
    requires
        pointer != 0,
        resize.possible(mem, true, pointer, usable, room, size, header),
        realloc::accessible(mem, pointer as int, usable as int),
        realloc::accessible(mem, pointer as int, room as int),
    ensures
        resize_asked(pointer, size) is Err <==> size == 0,
        resize_asked(pointer, size) matches Ok(_) ==> match completed(resize.answer()) {
            Err(_) => resize.memory(mem, pointer, usable) == mem,
            Ok(q) => {
                &&& q != 0
                &&& q == resize.answer()
                &&& forall|i: int|
                    0 <= i < usable && i < size ==> #[trigger] resize.memory(
                        mem,
                        pointer,
                        usable,
                    )[q + i] == mem[pointer + i]
                &&& realloc::accessible(
                    resize.memory(mem, pointer, usable),
                    q as int,
                    size as int,
                )
            },
        },
        resize_asked(pointer, size) matches Ok(request) ==> request == (HeapRequest::Reallocate {
            pointer,
            size,
            align: None,
        }),
{
    realloc::law_resize(resize, mem, true, pointer, usable, room, size, header);
}

/// Zero stands for everything, and bytes for themselves.
pub proof fn law_trim_sizes(size: SimpleTrimSize)
    ensures
        size == SimpleTrimSize::All ==> size.spec_size() == 0,
        size matches SimpleTrimSize::Bytes(n) ==> size.spec_size() == n.spec_get(),
{
}

/// An address is a success, and only null is a failure.
pub proof fn law_completion(address: usize)
    ensures
        address == 0 ==> completed(address) == Err::<usize, AllocationError>(
            AllocationError::OutOfMemory,
        ),
        address != 0 ==> completed(address) == Ok::<usize, AllocationError>(address),
{
}

} // verus!
