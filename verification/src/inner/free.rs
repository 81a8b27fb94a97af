//! Giving payloads back.

use crate::inner::align;
use crate::internals::l3_main_radix;
use crate::internals::l3_main_radix::RadixTree;
use crate::Header;
use crate::Magic;
use crate::RSMallocError;
use vstd::prelude::*;

verus! {

/// What becomes of addresses that another allocator owns.
#[derive(Clone, Copy, Debug, PartialEq, Eq, Structural)]
pub enum ForeignHandling {
    /// The next allocator gets them.
    Fallback,
    Abort,
    Ignore,
}

/// What a return starts with.
#[derive(Clone, Copy, Debug, PartialEq, Eq, Structural)]
pub enum FreeStart {
    Nothing,
    /// The next allocator frees the address.
    Fallback,
    Abort(RSMallocError),
    /// What lies at the address decides.
    Inspect,
}

/// What a return ends with.
#[derive(Clone, Copy, Debug, PartialEq, Eq, Structural)]
pub enum FreeEnd {
    Nothing,
    /// The block goes to the cache of its class.
    Push(u8),
    /// A large allocation is given back.
    Big,
    Abort(RSMallocError),
}

/// The address belongs to the allocator.
pub open spec fn owned(radix: &RadixTree, addr: int) -> bool {
    l3_main_radix::spec_valid_user_addr(addr) && radix.owns(l3_main_radix::page_of(addr))
}

/// What the return of `ptr` starts with. No metadata is read unless the address is owned.
pub fn rs_free(radix: &RadixTree, ptr: usize, foreign: ForeignHandling) -> (r: FreeStart)
    requires
        radix.wf(),
    ensures
        r == (if ptr == 0 {
            FreeStart::Nothing
        } else if owned(radix, ptr as int) {
            FreeStart::Inspect
        } else {
            match foreign {
                ForeignHandling::Fallback => FreeStart::Fallback,
                ForeignHandling::Abort => FreeStart::Abort(RSMallocError::ForeignPointer),
                ForeignHandling::Ignore => FreeStart::Nothing,
            }
        }),
{
    if ptr == 0 {
        return FreeStart::Nothing;
    }
    if !radix.is_owned(ptr) {
        return match foreign {
            ForeignHandling::Fallback => FreeStart::Fallback,
            ForeignHandling::Abort => FreeStart::Abort(RSMallocError::ForeignPointer),
            ForeignHandling::Ignore => FreeStart::Nothing,
        };
    }
    FreeStart::Inspect
}

/// The payload that the allocation of `ptr` starts with, from the words `tag` and `recovered` in
/// front of `ptr`.
pub open spec fn original(
    radix: &RadixTree,
    ptr: usize,
    align_tag: usize,
    tag: usize,
    recovered: usize,
) -> Result<usize, RSMallocError> {
    if tag != align_tag {
        Ok(ptr)
    } else if owned(radix, recovered as int) {
        Ok(recovered)
    } else {
        Err(RSMallocError::AttackOrCorruption)
    }
}

/// Finds the payload that the allocation of `ptr` starts with. The address in front of an aligned
/// payload is only believed when it is owned.
pub fn find_original_ptr(
    radix: &RadixTree,
    ptr: usize,
    align_tag: usize,
    tag: usize,
    recovered: usize,
) -> (r: Result<usize, RSMallocError>)
    requires
        radix.wf(),
    ensures
        r == original(radix, ptr, align_tag, tag, recovered),
{
    if tag == align_tag {
        if !radix.is_owned(recovered) {
            return Err(RSMallocError::AttackOrCorruption);
        }
        return Ok(recovered);
    }
    Ok(ptr)
}

/// The end of the return of a block with the given header.
pub open spec fn freed(header: Header, magic: Magic, checked: bool) -> FreeEnd {
    if header.magic == magic.main {
        FreeEnd::Push(header.class)
    } else if header.magic == magic.big {
        FreeEnd::Big
    } else if !checked {
        FreeEnd::Nothing
    } else if header.magic == magic.freed {
        FreeEnd::Abort(RSMallocError::DoubleFree)
    } else {
        FreeEnd::Abort(RSMallocError::AttackOrCorruption)
    }
}

/// The header of a block after its return: a small block in use is stamped and marked as freed.
pub open spec fn freed_header(header: Header, magic: Magic, stamp: u32) -> Header {
    if header.magic == magic.main {
        Header { magic: magic.freed, life_time: stamp, ..header }
    } else {
        header
    }
}

/// Decides by its header what becomes of a block that comes back.
pub fn free_block(header: &mut Header, magic: Magic, stamp: u32, checked: bool) -> (r: FreeEnd)
    ensures
        r == freed(*old(header), magic, checked),
        *final(header) == freed_header(*old(header), magic, stamp),
{
    if header.magic == magic.main {
        header.life_time = stamp;
        header.magic = magic.freed;
        return FreeEnd::Push(header.class);
    }
    if header.magic == magic.big {
        return FreeEnd::Big;
    }
    if !checked {
        return FreeEnd::Nothing;
    }
    if header.magic == magic.freed {
        return FreeEnd::Abort(RSMallocError::DoubleFree);
    }
    FreeEnd::Abort(RSMallocError::AttackOrCorruption)
}

/// Bytes that are cleared when a block of the given class is given back: all of the payload in the
/// four smallest classes, nothing in the others.
pub fn zero_small_payload(class: usize, class_size: usize) -> (r: usize)
    ensures
        r == (if class < 4 {
            class_size
        } else {
            0
        }),
{
    if class < 4 {
        class_size
    } else {
        0
    }
}

/// A small block that is given back twice is found out the second time.
pub proof fn law_double_free_is_found(header: Header, magic: Magic, stamp: u32)
    requires
        magic.distinct(),
        freed(header, magic, true) is Push,
    ensures
        freed(freed_header(header, magic, stamp), magic, true) == FreeEnd::Abort(
            RSMallocError::DoubleFree,
        ),
{
}

/// Words of memory after what stands in front of an aligned payload was written.
pub open spec fn tagged(mem: Map<int, usize>, p: align::Placed, align_tag: usize) -> Map<
    int,
    usize,
> {
    mem.insert(p.tag_at as int, align_tag).insert(p.original_at as int, p.original)
}

/// From an aligned payload the allocation that it lies in is found again.
pub proof fn law_original_is_found(
    radix: &RadixTree,
    mem: Map<int, usize>,
    raw: int,
    alignment: int,
    align_tag: usize,
)
    requires
        0 < raw,
        alignment >= crate::OFFSET_SIZE,
        raw + alignment + crate::TAG_SIZE <= usize::MAX,
        owned(radix, raw),
    ensures
        ({
            let p = align::place(raw, alignment);
            let after = tagged(mem, p, align_tag);
            original(
                radix,
                p.aligned,
                align_tag,
                after[p.aligned - crate::TAG_SIZE],
                after[p.aligned - crate::OFFSET_SIZE],
            ) == Ok::<usize, RSMallocError>(raw as usize)
        }),
{
    align::law_aligned_payload_fits(raw, alignment, 0);
}

/// A block is put into the cache of its own class exactly where its mark is that of a block in use,
/// and is given back as a large one exactly where its mark is that of a large one; any other mark
/// never gives memory back.
pub proof fn law_marks_decide(header: Header, magic: Magic, checked: bool)
    requires
        magic.distinct(),
    ensures
        freed(header, magic, checked) is Push <==> header.magic == magic.main,
        freed(header, magic, checked) matches FreeEnd::Push(class) ==> class == header.class,
        freed(header, magic, checked) is Big <==> header.magic == magic.big,
        freed(header, magic, checked) is Abort ==> checked,
        checked && header.magic != magic.main && header.magic != magic.big ==> freed(
            header,
            magic,
            checked,
        ) is Abort,
        checked && header.magic != magic.main && header.magic != magic.big && header.magic
            != magic.freed ==> freed(header, magic, checked) == FreeEnd::Abort(
            RSMallocError::AttackOrCorruption,
        ),
{
}

/// A small block that comes back is marked as freed at that time and keeps its class and content
/// flags; any other header is left alone.
pub proof fn law_freed_blocks_are_marked(header: Header, magic: Magic, stamp: u32)
    ensures
        header.magic == magic.main ==> freed_header(header, magic, stamp).magic == magic.freed
            && freed_header(header, magic, stamp).life_time == stamp,
        header.magic != magic.main ==> freed_header(header, magic, stamp) == header,
        freed_header(header, magic, stamp).class == header.class,
        freed_header(header, magic, stamp).flags == header.flags,
{
}

/// An address without a tag in front of it is the start of its allocation; with one, what stands
/// there is believed only where the allocator owns it.
pub proof fn law_recovered_addresses_are_owned(
    radix: &RadixTree,
    ptr: usize,
    align_tag: usize,
    tag: usize,
    recovered: usize,
)
    ensures
        tag != align_tag ==> original(radix, ptr, align_tag, tag, recovered) == Ok::<
            usize,
            RSMallocError,
        >(ptr),
        tag == align_tag && owned(radix, recovered as int) ==> original(
            radix,
            ptr,
            align_tag,
            tag,
            recovered,
        ) == Ok::<usize, RSMallocError>(recovered),
        tag == align_tag && !owned(radix, recovered as int) ==> original(
            radix,
            ptr,
            align_tag,
            tag,
            recovered,
        ) == Err::<usize, RSMallocError>(RSMallocError::AttackOrCorruption),
{
}

/// An address is owned exactly where it can be registered and its page is.
pub proof fn law_owned_addresses(radix: &RadixTree, addr: int, other: int)
    requires
        0 <= addr,
        0 <= other,
    ensures
        owned(radix, addr) ==> addr < l3_main_radix::MAX_ADDR,
        addr / (l3_main_radix::CHUNK_SIZE as int) == other / (l3_main_radix::CHUNK_SIZE as int)
            && addr < l3_main_radix::MAX_ADDR && other < l3_main_radix::MAX_ADDR ==> owned(
            radix,
            addr,
        ) == owned(radix, other),
        owned(radix, addr) ==> radix.owns(addr / (l3_main_radix::CHUNK_SIZE as int)),
        addr < l3_main_radix::MAX_ADDR && radix.owns(addr / (l3_main_radix::CHUNK_SIZE as int))
            ==> owned(radix, addr),
{
}

} // verus!
