//! Payloads at aligned addresses.

use crate::inner::libc_int;
use crate::utility;
use crate::OFFSET_SIZE;
use crate::TAG_SIZE;
use vstd::arithmetic::power2;
use vstd::prelude::*;

verus! {

/// Alignment that every payload has.
pub const NATURAL_ALIGNMENT: usize = 16;

/// What a request for an aligned payload starts with.
#[derive(Clone, Copy, Debug, PartialEq, Eq, Structural)]
pub enum AlignStart {
    /// The request fails with this error number.
    Failed(i32),
    /// So many bytes have to be allocated.
    Allocate(usize),
}

/// Where an aligned payload lies and what stands in front of it.
#[derive(Clone, Copy, Debug, PartialEq, Eq, Structural)]
pub struct Placed {
    pub aligned: usize,
    /// The tag is written here.
    pub tag_at: usize,
    /// The address of the allocation is written here.
    pub original_at: usize,
    pub original: usize,
}

/// `n` is a power of two.
pub open spec fn is_power(n: int) -> bool {
    exists|e: nat| n == #[trigger] power2::pow2(e)
}

/// Whether `n` is a power of two.
pub fn is_power_of_two(n: usize) -> (r: bool)
    ensures
        r == is_power(n as int),
{
    let next = utility::checked_next_power_of_two(n);
    proof {
        if let Some(p) = next {
            let e = choose|e: nat| p == power2::pow2(e) && #[trigger] utility::ceil_log2(n as int, e);
            if is_power(n as int) {
                let x = choose|x: nat| n == #[trigger] power2::pow2(x);
                if x < e {
                    if x < e - 1 {
                        power2::lemma_pow2_strictly_increases(x, (e - 1) as nat);
                    }
                } else if x > e {
                    power2::lemma_pow2_strictly_increases(e, x);
                }
            }
        } else if is_power(n as int) {
            let x = choose|x: nat| n == #[trigger] power2::pow2(x);
            assert(power2::pow2(x) <= usize::MAX);
        }
    }
    match next {
        Some(p) => p == n,
        None => false,
    }
}

/// The answer to a request for `size` bytes at a multiple of `alignment`; `no_place` tells that
/// there is no place for the result.
pub open spec fn align_answer(no_place: bool, alignment: int, size: int) -> AlignStart {
    if no_place || alignment < OFFSET_SIZE || !is_power(alignment) {
        AlignStart::Failed(22)
    } else if size + alignment + TAG_SIZE > usize::MAX {
        AlignStart::Failed(12)
    } else {
        AlignStart::Allocate((size + alignment + TAG_SIZE) as usize)
    }
}

/// Checks a request for `size` bytes at a multiple of `alignment`.
pub fn posix_align_inner(no_place: bool, alignment: usize, size: usize) -> (r: AlignStart)
    ensures
        r == align_answer(no_place, alignment as int, size as int),
{
    if no_place {
        return AlignStart::Failed(libc_int::invalid_argument());
    }
    if alignment < OFFSET_SIZE || !is_power_of_two(alignment) {
        return AlignStart::Failed(libc_int::invalid_argument());
    }
    match size.checked_add(alignment) {
        None => AlignStart::Failed(libc_int::no_memory()),
        Some(sum) => match sum.checked_add(TAG_SIZE) {
            None => AlignStart::Failed(libc_int::no_memory()),
            Some(total) => AlignStart::Allocate(total),
        },
    }
}

/// Checks a request like `posix_align_inner`, after raising the alignment to the size of an
/// address. Without `skip_checks` an alignment that is no power of two is refused at once.
pub fn memalign_inner(alignment: usize, size: usize, skip_checks: bool) -> (r: AlignStart)
    ensures
        r == align_answer(
            false,
            if alignment < OFFSET_SIZE {
                OFFSET_SIZE as int
            } else {
                alignment as int
            },
            size as int,
        ),
{
    let adjusted: usize = if alignment < OFFSET_SIZE {
        OFFSET_SIZE
    } else {
        alignment
    };
    if !skip_checks && !is_power_of_two(adjusted) {
        return AlignStart::Failed(libc_int::invalid_argument());
    }
    posix_align_inner(false, adjusted, size)
}

/// The place of the aligned payload in an allocation at `raw`.
pub open spec fn place(raw: int, alignment: int) -> Placed {
    let aligned = utility::round_up(raw + TAG_SIZE, alignment);
    Placed {
        aligned: aligned as usize,
        tag_at: (aligned - TAG_SIZE) as usize,
        original_at: (aligned - OFFSET_SIZE) as usize,
        original: raw as usize,
    }
}

/// Continues after the bytes were allocated at `raw`, zero standing for a failure.
pub fn place_aligned(raw: usize, alignment: usize) -> (r: Result<Placed, i32>)
    requires
        alignment > 0,
        raw + alignment + TAG_SIZE <= usize::MAX,
    ensures
        raw == 0 ==> r == Err::<Placed, i32>(12),
        raw != 0 ==> r == Ok::<Placed, i32>(place(raw as int, alignment as int)),
{
    if raw == 0 {
        return Err(libc_int::no_memory());
    }
    let aligned: usize = utility::align_to(raw + TAG_SIZE, alignment);
    proof {
        utility::lemma_round_up(raw + TAG_SIZE, alignment as int);
    }
    Ok(
        Placed {
            aligned,
            tag_at: aligned - TAG_SIZE,
            original_at: aligned - OFFSET_SIZE,
            original: raw,
        },
    )
}

/// An aligned payload is aligned, it lies with its tag inside the allocation that was asked for,
/// and what stands in front of it does not overlap.
pub proof fn law_aligned_payload_fits(raw: int, alignment: int, size: int)
    requires
        raw > 0,
        alignment >= OFFSET_SIZE,
        size >= 0,
        raw + size + alignment + TAG_SIZE <= usize::MAX,
    ensures
        ({
            let p = place(raw, alignment);
            &&& p.aligned as int % alignment == 0
            &&& raw <= p.tag_at
            &&& p.tag_at + OFFSET_SIZE == p.original_at
            &&& p.original_at + OFFSET_SIZE == p.aligned
            &&& p.aligned + size <= raw + (size + alignment + TAG_SIZE)
        }),
{
    utility::lemma_round_up(raw + TAG_SIZE, alignment);
}

/// A request that is answered with a number of bytes fits into any allocation of so many: the tag
/// and the whole payload lie inside it, at a multiple of the alignment. It is refused only where
/// the alignment is no power of two, or less than an address, or where those bytes cannot be
/// counted.
pub proof fn law_aligned_request_has_room(no_place: bool, alignment: int, size: int, raw: int)
    requires
        0 <= size,
    ensures
        align_answer(no_place, alignment, size) matches AlignStart::Allocate(n) ==> {
            &&& !no_place && alignment >= OFFSET_SIZE && is_power(alignment)
            &&& size + alignment <= n
            &&& n <= size + alignment + TAG_SIZE
            &&& raw > 0 && raw + n <= usize::MAX ==> {
                let p = place(raw, alignment);
                &&& p.aligned as int % alignment == 0
                &&& raw <= p.tag_at
                &&& p.tag_at + OFFSET_SIZE == p.original_at
                &&& p.original_at + OFFSET_SIZE == p.aligned
                &&& p.aligned + size <= raw + n
                &&& p.original == raw
            }
        },
        align_answer(no_place, alignment, size) matches AlignStart::Failed(errno) ==> {
            &&& errno == 22 || errno == 12
            &&& errno == 22 <==> no_place || alignment < OFFSET_SIZE || !is_power(alignment)
            &&& errno == 12 ==> size + alignment + TAG_SIZE > usize::MAX
        },
        align_answer(no_place, alignment, size) is Allocate <==> !no_place && alignment
            >= OFFSET_SIZE && is_power(alignment) && size + alignment + TAG_SIZE <= usize::MAX,
{
    if alignment >= OFFSET_SIZE {
        utility::lemma_round_up(raw + TAG_SIZE, alignment);
    }
}

/// The aligned payload is the first one behind the tag: no multiple of the alignment lies between.
pub proof fn law_aligned_payload_is_the_first(raw: int, alignment: int, other: int)
    requires
        raw > 0,
        alignment >= OFFSET_SIZE,
        raw + alignment + TAG_SIZE <= usize::MAX,
        other % alignment == 0,
        other >= raw + TAG_SIZE,
    ensures
        place(raw, alignment).aligned <= other,
{
    utility::law_round_up_is_least(raw + TAG_SIZE, alignment, other);
}

/// A power of two is one or twice a power of two.
pub proof fn law_powers_of_two(n: int)
    requires
        n >= 1,
    ensures
        is_power(1),
        is_power(n) <==> is_power(2 * n),
        n > 1 && n % 2 == 1 ==> !is_power(n),
        !is_power(0),
{
    power2::lemma2_to64();
    assert(is_power(1)) by {
        assert(power2::pow2(0) == 1);
    }
    if is_power(n) {
        let e = choose|e: nat| n == #[trigger] power2::pow2(e);
        power2::lemma_pow2_unfold(e + 1);
        assert(2 * n == power2::pow2(e + 1));
        if e > 0 {
            power2::lemma_pow2_unfold(e);
        }
    }
    if is_power(2 * n) {
        let e = choose|e: nat| 2 * n == #[trigger] power2::pow2(e);
        if e > 0 {
            power2::lemma_pow2_unfold(e);
            assert(n == power2::pow2((e - 1) as nat));
        }
    }
    if is_power(0) {
        let e = choose|e: nat| 0 == #[trigger] power2::pow2(e);
        power2::lemma_pow2_pos(e);
    }
}

} // verus!
