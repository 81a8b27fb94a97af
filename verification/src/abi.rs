//! Requests of the C interface.

use crate::inner::align;
use crate::inner::align::is_power_of_two;
use crate::inner::libc_int::invalid_argument;
use crate::inner::libc_int::no_memory;
use crate::utility;
use crate::utility::PAGE_SIZE;
use vstd::arithmetic::power2;
use vstd::prelude::*;

verus! {

/// Whether `aligned_alloc` serves an alignment.
pub fn aligned_alloc(alignment: usize) -> (r: bool)
    ensures
        r == align::is_power(alignment as int),
{
    is_power_of_two(alignment)
}

/// Whether `aligned_alloc` serves an alignment and a size, of which the size has to be a multiple
/// of the alignment; otherwise the error number is that of an invalid argument.
pub fn aligned_alloc_strict(alignment: usize, size: usize) -> (r: Result<(), i32>)
    ensures
        r == (if align::is_power(alignment as int) && size as int % alignment as int == 0 {
            Ok(())
        } else {
            Err(22i32)
        }),
{
    proof {
        if align::is_power(alignment as int) {
            let e = choose|e: nat| alignment == #[trigger] power2::pow2(e);
            power2::lemma_pow2_pos(e);
        }
    }
    if alignment != 0 && is_power_of_two(alignment) && size % alignment == 0 {
        Ok(())
    } else {
        Err(invalid_argument())
    }
}

/// Bytes that `pvalloc` asks for: whole pages, at least one; `None` when they do not fit.
pub fn pvalloc(size: usize) -> (r: Option<usize>)
    ensures
        r == (if size == 0 {
            Some(PAGE_SIZE)
        } else if size + PAGE_SIZE - 1 > usize::MAX {
            None
        } else {
            Some(utility::round_up(size as int, PAGE_SIZE as int) as usize)
        }),
{
    if size == 0 {
        return Some(PAGE_SIZE);
    }
    match size.checked_add(PAGE_SIZE - 1) {
        Some(_) => Some(utility::align_to(size, PAGE_SIZE)),
        None => None,
    }
}

/// Bytes of an array, when they fit.
pub open spec fn array_size(count: int, size: int) -> Option<usize> {
    if count * size <= usize::MAX {
        Some((count * size) as usize)
    } else {
        None
    }
}

/// Bytes that `reallocarray` asks for; where they do not fit, the error number says that there is
/// no memory.
pub fn reallocarray(count: usize, size: usize) -> (r: Result<usize, i32>)
    ensures
        r == (match array_size(count as int, size as int) {
            Some(bytes) => Ok(bytes),
            None => Err(12i32),
        }),
{
    match count.checked_mul(size) {
        Some(bytes) => Ok(bytes),
        None => Err(no_memory()),
    }
}

/// What `recallocarray` does.
#[derive(Clone, Copy, Debug, PartialEq, Eq, Structural)]
pub enum Recalloc {
    /// The size does not fit; this is the error number.
    Failed(i32),
    /// A new array of cleared elements.
    Fresh,
    /// Resizing, then clearing so many bytes from an offset on, if there is a result.
    Resize { size: usize, clear_from: usize, clear: usize },
}

/// What `recallocarray` does with an array of `old_count` elements of `size` bytes, none when there
/// is no array. Elements that are new are cleared; an old size that does not fit counts as none.
pub fn recallocarray(is_null: bool, old_count: usize, new_count: usize, size: usize) -> (r:
    Recalloc)
    ensures
        r == (if is_null {
            Recalloc::Fresh
        } else {
            match array_size(new_count as int, size as int) {
                None => Recalloc::Failed(12),
                Some(new_size) => {
                    let old_size = match array_size(old_count as int, size as int) {
                        Some(n) => n,
                        None => 0,
                    };
                    if new_size <= old_size {
                        Recalloc::Resize { size: new_size, clear_from: new_size, clear: 0 }
                    } else {
                        Recalloc::Resize {
                            size: new_size,
                            clear_from: old_size,
                            clear: (new_size - old_size) as usize,
                        }
                    }
                },
            }
        }),
{
    if is_null {
        return Recalloc::Fresh;
    }
    let new_size: usize = match new_count.checked_mul(size) {
        Some(n) => n,
        None => {
            return Recalloc::Failed(no_memory());
        },
    };
    let old_size: usize = match old_count.checked_mul(size) {
        Some(n) => n,
        None => 0,
    };
    if new_size <= old_size {
        return Recalloc::Resize { size: new_size, clear_from: new_size, clear: 0 };
    }
    Recalloc::Resize { size: new_size, clear_from: old_size, clear: new_size - old_size }
}

/// A sum that stops at the largest number.
pub open spec fn total_of(a: usize, b: usize) -> int {
    if a + b > usize::MAX {
        usize::MAX as int
    } else {
        a + b
    }
}

/// Bytes that the small caches are asked to give back once the buddy allocator gave `buddy`, zero
/// standing for all; `None` when nothing more is wanted.
pub fn malloc_trim_rest(requested: usize, buddy: usize) -> (r: Option<usize>)
    ensures
        r == (if requested == 0 {
            Some(0)
        } else if buddy >= requested {
            None
        } else {
            Some((requested - buddy) as usize)
        }),
{
    if requested == 0 {
        return Some(0);
    }
    if buddy >= requested {
        return None;
    }
    Some(requested - buddy)
}

/// Whether `malloc_trim` reached what was asked for: all that was requested, or anything.
pub fn malloc_trim(requested: usize, buddy: usize, small: usize) -> (r: i32)
    ensures
        r == (if requested == 0 {
            if total_of(buddy, small) > 0 {
                1int
            } else {
                0
            }
        } else if buddy >= requested || total_of(buddy, small) >= requested {
            1
        } else {
            0
        }),
{
    if requested != 0 && buddy >= requested {
        return 1;
    }
    let total: usize = buddy.saturating_add(small);
    let reached: bool = if requested == 0 {
        total > 0
    } else {
        total >= requested
    };
    if reached {
        1
    } else {
        0
    }
}

/// Whether `malloc_trim` gave anything back.
pub fn malloc_trim_any(buddy: usize, small: usize) -> (r: i32)
    ensures
        r == (if buddy == 0 && small == 0 {
            0int
        } else {
            1
        }),
{
    if buddy.saturating_add(small) != 0 {
        1
    } else {
        0
    }
}

/// An array has as many bytes as its elements together, and none where those cannot be counted.
pub proof fn law_array_holds_its_elements(count: int, size: int, i: int)
    requires
        0 <= i < count,
        0 <= size,
    ensures
        array_size(count, size) matches Some(n) ==> n == count * size && i * size + size <= n,
        array_size(count, size) is None <==> count * size > usize::MAX,
{
    assert(0 <= count * size && i * size + size <= count * size) by (nonlinear_arith)
        requires
            0 <= i,
            i + 1 <= count,
            0 <= size,
    ;
}

/// A sum is exact as long as it fits.
pub proof fn law_totals(a: usize, b: usize)
    ensures
        a + b <= usize::MAX ==> total_of(a, b) == a + b,
        a + b > usize::MAX ==> total_of(a, b) == usize::MAX,
{
}

} // verus!
