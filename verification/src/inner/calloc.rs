//! Payloads that read as zero.

use crate::Flags;
use vstd::prelude::*;

verus! {

/// Bytes of a payload for `count` elements of `size` bytes, at least one; `None` when there cannot
/// be such a payload.
pub open spec fn spec_calloc_size(size: int, count: int) -> Option<int> {
    if size > isize::MAX || count * size > usize::MAX {
        None
    } else if count * size == 0 {
        Some(1)
    } else {
        Some(count * size)
    }
}

/// Bytes of a payload for `count` elements of `size` bytes.
pub fn calloc_size(size: usize, count: usize) -> (r: Option<usize>)
    ensures
        r is Some <==> spec_calloc_size(size as int, count as int) is Some,
        r matches Some(n) ==> spec_calloc_size(size as int, count as int) == Some(n as int),
        r matches Some(n) ==> n >= 1 && n >= count * size,
{
    if size > isize::MAX as usize {
        return None;
    }
    match count.checked_mul(size) {
        None => None,
        Some(total) => {
            if total == 0 {
                Some(1)
            } else {
                Some(total)
            }
        },
    }
}

/// A block with this content may read as something else than zero. Pages that are given back
/// lazily may keep their content.
pub open spec fn may_be_dirty(flags: Flags, lazy_trim: bool) -> bool {
    flags == Flags::Allocated || flags == Flags::BigAlloc || (flags == Flags::Trimmed && lazy_trim)
}

/// Bytes to clear at the start of a payload of `actual` bytes of which `effective` were asked for.
pub fn rs_calloc(flags: Flags, actual: usize, effective: usize, lazy_trim: bool) -> (r: usize)
    ensures
        r == (if !may_be_dirty(flags, lazy_trim) {
            0
        } else if actual < effective {
            actual as int
        } else {
            effective as int
        }),
{
    let dirty = match flags {
        Flags::Allocated => true,
        Flags::BigAlloc => true,
        Flags::Trimmed => lazy_trim,
        Flags::NotAllocated => false,
    };
    if !dirty {
        return 0;
    }
    if actual < effective {
        actual
    } else {
        effective
    }
}

/// Bytes after the first `n` were cleared.
pub open spec fn cleared(bytes: Seq<u8>, n: int) -> Seq<u8> {
    Seq::new(
        bytes.len(),
        |i: int|
            if i < n {
                0u8
            } else {
                bytes[i]
            },
    )
}

/// All bytes that were asked for read as zero, given that blocks which cannot be dirty do.
pub proof fn law_calloc_is_zero(bytes: Seq<u8>, flags: Flags, effective: int, lazy_trim: bool)
    requires
        0 <= effective <= bytes.len(),
        !may_be_dirty(flags, lazy_trim) ==> forall|i: int| 0 <= i < bytes.len() ==> bytes[i] == 0,
    ensures
        ({
            let n = if may_be_dirty(flags, lazy_trim) {
                effective
            } else {
                0
            };
            forall|i: int| 0 <= i < effective ==> #[trigger] cleared(bytes, n)[i] == 0
        }),
{
}

/// A payload for an array has at least one byte and room for every element, and no more than that.
/// There is none only where the bytes cannot be counted, or an element is larger than half of all
/// addresses.
pub proof fn law_every_element_has_room(size: int, count: int)
    requires
        0 <= size,
        0 <= count,
    ensures
        spec_calloc_size(size, count) matches Some(n) ==> {
            &&& 1 <= n <= usize::MAX
            &&& n <= 1 || n == count * size
            &&& forall|i: int| 0 <= i < count ==> #[trigger] (i * size) + size <= n
            &&& count * size <= n
        },
        spec_calloc_size(size, count) is None <==> size > isize::MAX || count * size > usize::MAX,
{
    assert(count * size >= 0) by (nonlinear_arith)
        requires
            0 <= size,
            0 <= count,
    ;
    assert forall|i: int| 0 <= i < count implies #[trigger] (i * size) + size <= count * size by {
        assert(i * size + size <= count * size) by (nonlinear_arith)
            requires
                0 <= i,
                i + 1 <= count,
                0 <= size,
        ;
    }
}

/// Blocks that held data since the system gave their pages may be dirty, and only pages that were
/// never handed out, or that were given back at once, are known to read as zero.
pub proof fn law_used_blocks_may_be_dirty(flags: Flags, lazy_trim: bool)
    ensures
        flags == Flags::Allocated ==> may_be_dirty(flags, lazy_trim),
        flags == Flags::BigAlloc ==> may_be_dirty(flags, lazy_trim),
        flags == Flags::NotAllocated ==> !may_be_dirty(flags, lazy_trim),
        flags == Flags::Trimmed ==> (may_be_dirty(flags, lazy_trim) <==> lazy_trim),
{
}

/// Clearing makes the first bytes zero and leaves all others as they were.
pub proof fn law_clearing(bytes: Seq<u8>, n: int, i: int)
    requires
        0 <= i < bytes.len(),
    ensures
        cleared(bytes, n).len() == bytes.len(),
        i < n ==> cleared(bytes, n)[i] == 0,
        i >= n ==> cleared(bytes, n)[i] == bytes[i],
{
}

} // verus!
