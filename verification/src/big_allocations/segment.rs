//! Sixteen-slot segments of the buddy allocator.
//!
//! All state of a segment is one word: which slots are busy, which were written since their pages
//! were last given back, and which were ever handed out. Each operation is a step from the word
//! that was observed to the word that should replace it.

use crate::internals::mask;
use crate::Flags;
use vstd::prelude::*;

verus! {

pub const BIG_BUDDY_MIN_ORDER: usize = 22;

pub const BIG_BUDDY_MAX_ORDER: usize = 26;

/// Block sizes that a segment can hand out.
pub const BUDDY_NUM_ORDERS: usize = 5;

pub const SLOTS: usize = 16;

pub const SLOT_BYTES: usize = 0x40_0000;

pub const SEGMENT_BYTES: usize = 0x400_0000;

/// Slots of a block of the given order.
pub open spec fn span(order: int) -> int {
    if order <= 0 {
        1
    } else if order == 1 {
        2
    } else if order == 2 {
        4
    } else if order == 3 {
        8
    } else {
        16
    }
}

/// Slot `i` is part of the block of the given order at `start`.
pub open spec fn in_block(i: int, start: int, order: int) -> bool {
    start <= i < start + span(order)
}

/// Slot `i` is handed out or being trimmed.
pub open spec fn busy(word: u64, i: int) -> bool {
    mask::bit(word as u16, i)
}

/// Slot `i` may hold data that was written since its pages were last given back.
pub open spec fn dirty(word: u64, i: int) -> bool {
    mask::bit((word >> 16u32) as u16, i)
}

/// Slot `i` was handed out at least once.
pub open spec fn used(word: u64, i: int) -> bool {
    mask::bit((word >> 32u32) as u16, i)
}

/// A block of the given order at `start` is aligned to its size, lies inside a segment and has
/// only slots that are not members of `taken`.
pub open spec fn fits(taken: u16, order: int, start: int) -> bool {
    &&& 0 <= start
    &&& start % span(order) == 0
    &&& start + span(order) <= 16
    &&& forall|i: int| in_block(i, start, order) ==> !#[trigger] mask::bit(taken, i)
}

/// The lowest place where a block of the given order fits.
pub open spec fn first_fit(taken: u16, order: int, start: int) -> bool {
    &&& fits(taken, order, start)
    &&& forall|s: int| #[trigger] fits(taken, order, s) ==> start <= s
}

/// What is known about the content of the slots of `m`.
pub open spec fn content(word: u64, m: u16) -> Flags {
    if exists|i: int| mask::bit(m, i) && #[trigger] dirty(word, i) {
        Flags::Allocated
    } else if exists|i: int| mask::bit(m, i) && #[trigger] used(word, i) {
        Flags::Trimmed
    } else {
        Flags::NotAllocated
    }
}

/// What is known about the content of the block of the given order at `start`.
pub open spec fn block_content(word: u64, start: int, order: int) -> Flags {
    if exists|i: int| in_block(i, start, order) && #[trigger] dirty(word, i) {
        Flags::Allocated
    } else if exists|i: int| in_block(i, start, order) && #[trigger] used(word, i) {
        Flags::Trimmed
    } else {
        Flags::NotAllocated
    }
}

/// The block of the given order at `start` was handed out: its slots are busy, dirty and used
/// afterwards, and no other slot changed.
pub open spec fn block_taken(word: u64, next: u64, start: int, order: int) -> bool {
    &&& forall|i: int| #[trigger] busy(next, i) <==> busy(word, i) || in_block(i, start, order)
    &&& forall|i: int| #[trigger] dirty(next, i) <==> dirty(word, i) || in_block(i, start, order)
    &&& forall|i: int| #[trigger] used(next, i) <==> used(word, i) || in_block(i, start, order)
}

/// Nothing but the busy slots may differ.
pub open spec fn only_busy_changed(word: u64, next: u64) -> bool {
    &&& forall|i: int| #[trigger] dirty(next, i) == dirty(word, i)
    &&& forall|i: int| #[trigger] used(next, i) == used(word, i)
}

proof fn lemma_spans()
    by (bit_vector)
    ensures
        1u32 << 0u32 == 1,
        1u32 << 1u32 == 2,
        1u32 << 2u32 == 4,
        1u32 << 3u32 == 8,
        1u32 << 4u32 == 16,
{
}

proof fn lemma_ones(n: u32)
    by (bit_vector)
    requires
        n <= 16,
    ensures
        1u32 << n >= 1u32,
{
}

proof fn lemma_block_mask(start: u32, n: u32, i: u16)
    by (bit_vector)
    requires
        start < 16,
        i < 16,
        n <= 16,
    ensures
        (((((((1u32 << n) - 1) as u32) << start) as u16) >> i) & 1u16 == 1u16) <==> (start <= i && i
            < start + n),
{
}

/// Mask of `count` slots from `start` on.
pub fn range_mask(start: usize, count: usize) -> (r: u16)
    requires
        start < SLOTS,
        count <= SLOTS,
    ensures
        forall|i: int| #[trigger] mask::bit(r, i) <==> i < 16 && start <= i < start + count,
{
    let n: u32 = count as u32;
    proof {
        lemma_ones(n);
    }
    let ones: u32 = (1u32 << n) - 1;
    let r: u16 = (ones << (start as u32)) as u16;
    assert forall|i: int| #[trigger] mask::bit(r, i) <==> i < 16 && start <= i < start + count by {
        if 0 <= i < 16 {
            lemma_block_mask(start as u32, n, i as u16);
        }
    }
    r
}

/// Mask of the slots of the block of the given order at `start`.
pub fn slot_mask(start: usize, order: usize) -> (r: u16)
    requires
        start < SLOTS,
        order < BUDDY_NUM_ORDERS,
    ensures
        forall|i: int| #[trigger]
            mask::bit(r, i) <==> i < 16 && in_block(i, start as int, order as int),
{
    proof {
        lemma_spans();
    }
    let n: u32 = 1u32 << (order as u32);
    range_mask(start, n as usize)
}

proof fn lemma_candidates(taken: u16, s: u16)
    by (bit_vector)
    requires
        s < 16,
    ensures
        ({
            let f0 = !taken;
            let f1 = f0 & (f0 >> 1u16);
            let f2 = f1 & (f1 >> 2u16);
            let f3 = f2 & (f2 >> 4u16);
            let f4 = f3 & (f3 >> 8u16);
            &&& ((f0 & 0xffffu16) >> s) & 1u16 == 1u16 <==> taken & (1u16 << s) == 0
            &&& ((f1 & 0x5555u16) >> s) & 1u16 == 1u16 <==> s % 2 == 0 && taken & (3u16 << s) == 0
            &&& ((f2 & 0x1111u16) >> s) & 1u16 == 1u16 <==> s % 4 == 0 && taken & (15u16 << s) == 0
            &&& ((f3 & 0x0101u16) >> s) & 1u16 == 1u16 <==> s % 8 == 0 && taken & (255u16 << s) == 0
            &&& ((f4 & 0x0001u16) >> s) & 1u16 == 1u16 <==> s % 16 == 0 && taken & (0xffffu16 << s)
                == 0
        }),
{
}

proof fn lemma_run(taken: u16, s: u16)
    by (bit_vector)
    requires
        s < 16,
    ensures
        taken & (1u16 << s) == 0 <==> (taken >> s) & 1u16 == 0,
        s % 2 == 0 ==> (taken & (3u16 << s) == 0 <==> (taken >> s) & 1u16 == 0 && (taken >> ((s
            + 1) as u16)) & 1u16 == 0),
        s % 4 == 0 ==> (taken & (15u16 << s) == 0 <==> taken & (3u16 << s) == 0 && taken & (3u16
            << ((s + 2) as u16)) == 0),
        s % 8 == 0 ==> (taken & (255u16 << s) == 0 <==> taken & (15u16 << s) == 0 && taken & (15u16
            << ((s + 4) as u16)) == 0),
        s % 16 == 0 ==> (taken & (0xffffu16 << s) == 0 <==> taken & (255u16 << s) == 0 && taken & (
        255u16 << ((s + 8) as u16)) == 0),
        (taken >> s) & 1u16 == 0 || (taken >> s) & 1u16 == 1,
{
}

proof fn lemma_fits_0(taken: u16, s: u16)
    requires
        s < 16,
    ensures
        fits(taken, 0, s as int) <==> taken & (1u16 << s) == 0,
{
    lemma_run(taken, s);
    assert(in_block(s as int, s as int, 0));
    assert(forall|i: int| in_block(i, s as int, 0) ==> i == s);
    assert(s % 1 == 0);
    assert(mask::bit(taken, s as int) <==> (taken >> s) & 1u16 == 1);
}

proof fn lemma_fits_1(taken: u16, s: u16)
    requires
        s < 16,
        s % 2 == 0,
    ensures
        fits(taken, 1, s as int) <==> taken & (3u16 << s) == 0,
{
    lemma_run(taken, s);
    lemma_run(taken, (s + 1) as u16);
    assert(in_block(s as int, s as int, 1) && in_block(s + 1, s as int, 1));
    if taken & (3u16 << s) == 0 {
        assert(forall|i: int| in_block(i, s as int, 1) ==> i == s || i == s + 1);
    } else {
        assert(mask::bit(taken, s as int) || mask::bit(taken, s + 1));
    }
}

proof fn lemma_fits_2(taken: u16, s: u16)
    requires
        s < 16,
        s % 4 == 0,
    ensures
        fits(taken, 2, s as int) <==> taken & (15u16 << s) == 0,
{
    let t = (s + 2) as u16;
    lemma_run(taken, s);
    lemma_fits_1(taken, s);
    lemma_fits_1(taken, t);
    lemma_halves(taken, 1, s as int);
}

proof fn lemma_fits_3(taken: u16, s: u16)
    requires
        s < 16,
        s % 8 == 0,
    ensures
        fits(taken, 3, s as int) <==> taken & (255u16 << s) == 0,
{
    let t = (s + 4) as u16;
    lemma_run(taken, s);
    lemma_fits_2(taken, s);
    lemma_fits_2(taken, t);
    lemma_halves(taken, 2, s as int);
}

proof fn lemma_fits_4(taken: u16, s: u16)
    requires
        s < 16,
        s % 16 == 0,
    ensures
        fits(taken, 4, s as int) <==> taken & (0xffffu16 << s) == 0,
{
    let t = (s + 8) as u16;
    lemma_run(taken, s);
    lemma_fits_3(taken, s);
    lemma_fits_3(taken, t);
    lemma_halves(taken, 3, s as int);
}

/// A block fits exactly where both its halves fit.
proof fn lemma_halves(taken: u16, order: int, s: int)
    requires
        0 <= order < 4,
        0 <= s < 16,
        s % span(order + 1) == 0,
    ensures
        fits(taken, order + 1, s) <==> fits(taken, order, s) && fits(
            taken,
            order,
            s + span(order),
        ),
{
    if order == 0 {
        assert(s % 1 == 0 && (s + 1) % 1 == 0);
    } else if order == 1 {
        assert(s % 2 == 0 && (s + 2) % 2 == 0);
    } else if order == 2 {
        assert(s % 4 == 0 && (s + 4) % 4 == 0);
    } else {
        assert(s % 8 == 0 && (s + 8) % 8 == 0);
    }
    if fits(taken, order + 1, s) {
        assert forall|i: int| in_block(i, s, order) implies !#[trigger] mask::bit(taken, i) by {
            assert(in_block(i, s, order + 1));
        }
        assert forall|i: int| in_block(i, s + span(order), order) implies !#[trigger] mask::bit(
            taken,
            i,
        ) by {
            assert(in_block(i, s, order + 1));
        }
    }
    if fits(taken, order, s) && fits(taken, order, s + span(order)) {
        assert forall|i: int| in_block(i, s, order + 1) implies !#[trigger] mask::bit(taken, i) by {
            assert(in_block(i, s, order) || in_block(i, s + span(order), order));
        }
    }
}

/// Mask of the slots where a block of the given order fits.
pub fn candidates(taken: u16, order: usize) -> (r: u16)
    requires
        order < BUDDY_NUM_ORDERS,
    ensures
        forall|s: int| #[trigger] mask::bit(r, s) <==> s < 16 && fits(taken, order as int, s),
{
    let mut free: u16 = !taken;
    let mut aligned: u16 = 0xffff;
    if order >= 1 {
        free = free & (free >> 1u16);
        aligned = 0x5555;
    }
    if order >= 2 {
        free = free & (free >> 2u16);
        aligned = 0x1111;
    }
    if order >= 3 {
        free = free & (free >> 4u16);
        aligned = 0x0101;
    }
    if order >= 4 {
        free = free & (free >> 8u16);
        aligned = 0x0001;
    }
    let r: u16 = free & aligned;
    assert forall|s: int| #[trigger] mask::bit(r, s) <==> s < 16 && fits(
        taken,
        order as int,
        s,
    ) by {
        if 0 <= s < 16 {
            let t = s as u16;
            lemma_candidates(taken, t);
            lemma_run(taken, t);
            if order == 0 {
                lemma_fits_0(taken, t);
            } else if order == 1 {
                if t % 2 == 0 {
                    lemma_fits_1(taken, t);
                }
            } else if order == 2 {
                if t % 4 == 0 {
                    lemma_fits_2(taken, t);
                }
            } else if order == 3 {
                if t % 8 == 0 {
                    lemma_fits_3(taken, t);
                }
            } else {
                if t % 16 == 0 {
                    lemma_fits_4(taken, t);
                }
            }
        }
    }
    r
}

proof fn lemma_word(word: u64, m: u16)
    by (bit_vector)
    ensures
        ({
            let w = m as u64;
            let all = word | w | (w << 16u32) | (w << 32u32);
            let low = word | w;
            let cut = word & !w;
            let clean = word & !(w | (w << 16u32));
            &&& all as u16 == (word as u16) | m
            &&& (all >> 16u32) as u16 == ((word >> 16u32) as u16) | m
            &&& (all >> 32u32) as u16 == ((word >> 32u32) as u16) | m
            &&& low as u16 == (word as u16) | m
            &&& (low >> 16u32) as u16 == (word >> 16u32) as u16
            &&& (low >> 32u32) as u16 == (word >> 32u32) as u16
            &&& cut as u16 == (word as u16) & !m
            &&& (cut >> 16u32) as u16 == (word >> 16u32) as u16
            &&& (cut >> 32u32) as u16 == (word >> 32u32) as u16
            &&& clean as u16 == (word as u16) & !m
            &&& (clean >> 16u32) as u16 == ((word >> 16u32) as u16) & !m
            &&& (clean >> 32u32) as u16 == (word >> 32u32) as u16
            &&& word & !(w | 0u64) == cut
        }),
{
}

/// All slots are free, clean and unused in the empty word.
pub proof fn lemma_empty_word()
    ensures
        0u64 as u16 == 0,
        forall|i: int| !#[trigger] busy(0, i),
        forall|i: int| !#[trigger] dirty(0, i),
        forall|i: int| !#[trigger] used(0, i),
{
    broadcast use mask::group_bits;

    lemma_zero_halves();
}

proof fn lemma_zero_halves()
    by (bit_vector)
    ensures
        0u64 as u16 == 0u16,
        (0u64 >> 16u32) as u16 == 0u16,
        (0u64 >> 32u32) as u16 == 0u16,
{
}

/// A mask that shares no member with another shares no bit with it.
proof fn lemma_disjoint(a: u16, b: u16)
    ensures
        a & b == 0 <==> forall|i: int| !(mask::bit(a, i) && #[trigger] mask::bit(b, i)),
{
    broadcast use mask::group_bits;

    if forall|i: int| !(mask::bit(a, i) && #[trigger] mask::bit(b, i)) {
        mask::lemma_same_bits(a & b, 0);
    } else {
        let i = choose|i: int| mask::bit(a, i) && #[trigger] mask::bit(b, i);
        assert(mask::bit(a & b, i));
    }
}

/// Tells what is known about the content of the slots of `m`.
pub fn classify(word: u64, m: u16) -> (r: Flags)
    ensures
        r == content(word, m),
{
    proof {
        lemma_disjoint((word >> 16u32) as u16, m);
        lemma_disjoint((word >> 32u32) as u16, m);
    }
    if ((word >> 16u32) as u16) & m != 0 {
        proof {
            let i = choose|i: int|
                mask::bit((word >> 16u32) as u16, i) && #[trigger] mask::bit(m, i);
            assert(dirty(word, i));
        }
        Flags::Allocated
    } else if ((word >> 32u32) as u16) & m != 0 {
        assert(forall|i: int| mask::bit(m, i) ==> !#[trigger] dirty(word, i));
        proof {
            let i = choose|i: int|
                mask::bit((word >> 32u32) as u16, i) && #[trigger] mask::bit(m, i);
            assert(used(word, i));
        }
        Flags::Trimmed
    } else {
        assert(forall|i: int| mask::bit(m, i) ==> !#[trigger] dirty(word, i));
        assert(forall|i: int| mask::bit(m, i) ==> !#[trigger] used(word, i));
        Flags::NotAllocated
    }
}

/// Marks the slots of `m` as handed out.
fn take(word: u64, m: u16) -> (next: u64)
    ensures
        forall|i: int| #[trigger] busy(next, i) <==> busy(word, i) || mask::bit(m, i),
        forall|i: int| #[trigger] dirty(next, i) <==> dirty(word, i) || mask::bit(m, i),
        forall|i: int| #[trigger] used(next, i) <==> used(word, i) || mask::bit(m, i),
{
    broadcast use mask::group_bits;

    proof {
        lemma_word(word, m);
    }
    let w: u64 = m as u64;
    word | w | (w << 16u32) | (w << 32u32)
}

/// Takes a block of the given order at the lowest place where it fits. Gives its first slot, the
/// word that replaces `word`, and what is known about the content of the block.
pub fn alloc_step(word: u64, order: usize) -> (r: Option<(usize, u64, Flags)>)
    requires
        order < BUDDY_NUM_ORDERS,
    ensures
        r is None <==> forall|s: int| !#[trigger] fits(word as u16, order as int, s),
        r matches Some((start, next, flags)) ==> {
            &&& first_fit(word as u16, order as int, start as int)
            &&& block_taken(word, next, start as int, order as int)
            &&& flags == block_content(word, start as int, order as int)
        },
{
    broadcast use mask::group_bits;

    let available: u16 = candidates(word as u16, order);
    if available == 0 {
        assert forall|s: int| !#[trigger] fits(word as u16, order as int, s) by {
            assert(!mask::bit(available, s));
        }
        return None;
    }
    let start: usize = mask::lowest(available);
    let m: u16 = slot_mask(start, order);
    assert forall|s: int| #[trigger] fits(word as u16, order as int, s) implies start <= s by {
        assert(mask::bit(available, s));
    }
    assert(forall|i: int| in_block(i, start as int, order as int) ==> #[trigger] mask::bit(m, i));
    proof {
        lemma_block_content(word, m, start as int, order as int);
    }
    Some((start, take(word, m), classify(word, m)))
}

/// A mask of the slots of a block tells the same of its content as the block.
pub proof fn lemma_block_content(word: u64, m: u16, start: int, order: int)
    requires
        forall|i: int| #[trigger] mask::bit(m, i) <==> i < 16 && in_block(i, start, order),
    ensures
        content(word, m) == block_content(word, start, order),
{
    assert(forall|i: int| #[trigger] dirty(word, i) ==> 0 <= i < 16);
    assert(forall|i: int| #[trigger] used(word, i) ==> 0 <= i < 16);
    assert((exists|i: int| mask::bit(m, i) && #[trigger] dirty(word, i)) <==> (exists|i: int|
        in_block(i, start, order) && #[trigger] dirty(word, i)));
    assert((exists|i: int| mask::bit(m, i) && #[trigger] used(word, i)) <==> (exists|i: int|
        in_block(i, start, order) && #[trigger] used(word, i)));
}

/// Gives the slots of `m` back.
pub fn free_step(word: u64, m: u16) -> (next: u64)
    ensures
        forall|i: int| #[trigger] busy(next, i) <==> busy(word, i) && !mask::bit(m, i),
        only_busy_changed(word, next),
{
    broadcast use mask::group_bits;

    proof {
        lemma_word(word, m);
    }
    word & !(m as u64)
}

/// Extends the block `left` to the block `whole` when exactly the slots of `left` are busy in it.
pub fn grow_step(word: u64, left: u16, whole: u16) -> (r: Option<u64>)
    requires
        forall|i: int| mask::bit(left, i) ==> #[trigger] mask::bit(whole, i),
    ensures
        r is Some <==> forall|i: int|
            mask::bit(whole, i) ==> (#[trigger] busy(word, i) <==> mask::bit(left, i)),
        r matches Some(next) ==> {
            &&& forall|i: int| #[trigger]
                busy(next, i) <==> busy(word, i) || mask::bit(whole, i)
            &&& forall|i: int| #[trigger]
                dirty(next, i) <==> dirty(word, i) || (mask::bit(whole, i) && !mask::bit(left, i))
            &&& forall|i: int| #[trigger]
                used(next, i) <==> used(word, i) || (mask::bit(whole, i) && !mask::bit(left, i))
        },
{
    broadcast use mask::group_bits;

    let seen: u16 = (word as u16) & whole;
    if seen != left {
        proof {
            if forall|i: int|
                mask::bit(whole, i) ==> (#[trigger] busy(word, i) <==> mask::bit(left, i)) {
                assert forall|i: int| 0 <= i < 16 implies mask::bit(seen, i) == #[trigger] mask::bit(
                    left,
                    i,
                ) by {
                    assert(mask::bit(whole, i) ==> (busy(word, i) <==> mask::bit(left, i)));
                }
                mask::lemma_same_bits(seen, left);
            }
        }
        return None;
    }
    assert forall|i: int| mask::bit(whole, i) implies (#[trigger] busy(word, i) <==> mask::bit(
        left,
        i,
    )) by {
        assert(mask::bit(seen, i) == mask::bit(left, i));
    }
    Some(take(word, whole ^ left))
}

/// Slots that are free but may still hold pages.
pub open spec fn reclaimable(word: u64, i: int) -> bool {
    dirty(word, i) && !busy(word, i)
}

/// Mask of the slots that are free but may still hold pages.
pub open spec fn reclaimable_mask(word: u64) -> u16 {
    !(word as u16) & ((word >> 16u32) as u16)
}

/// Mask of the slots that are free but may still hold pages.
pub fn dirty_free(word: u64) -> (r: u16)
    ensures
        r == reclaimable_mask(word),
        forall|i: int| #[trigger] mask::bit(r, i) <==> reclaimable(word, i),
{
    broadcast use mask::group_bits;

    !(word as u16) & ((word >> 16u32) as u16)
}

/// Takes the slots of `m` for trimming when all of them are reclaimable.
pub fn claim_step(word: u64, m: u16) -> (r: Option<u64>)
    ensures
        r is Some <==> m != 0 && forall|i: int| #[trigger]
            mask::bit(m, i) ==> reclaimable(word, i),
        r matches Some(next) ==> {
            &&& forall|i: int| #[trigger] busy(next, i) <==> busy(word, i) || mask::bit(m, i)
            &&& only_busy_changed(word, next)
        },
{
    broadcast use mask::group_bits;

    let free: u16 = dirty_free(word);
    if m == 0 || free & m != m {
        proof {
            if forall|i: int| #[trigger] mask::bit(m, i) ==> reclaimable(word, i) {
                assert forall|i: int| 0 <= i < 16 implies mask::bit(free & m, i)
                    == #[trigger] mask::bit(m, i) by {
                    assert(mask::bit(free, i) <==> reclaimable(word, i));
                }
                mask::lemma_same_bits(free & m, m);
            }
        }
        return None;
    }
    assert forall|i: int| #[trigger] mask::bit(m, i) implies reclaimable(word, i) by {
        assert(mask::bit(free & m, i));
        assert(mask::bit(free, i));
    }
    proof {
        lemma_word(word, m);
    }
    Some(word | (m as u64))
}

/// Gives the slots of `m` back after trimming; they are clean when their pages are gone.
pub fn finish_step(word: u64, m: u16, success: bool) -> (next: u64)
    ensures
        forall|i: int| #[trigger] busy(next, i) <==> busy(word, i) && !mask::bit(m, i),
        forall|i: int| #[trigger]
            dirty(next, i) <==> dirty(word, i) && !(success && mask::bit(m, i)),
        forall|i: int| #[trigger] used(next, i) == used(word, i),
{
    broadcast use mask::group_bits;

    proof {
        lemma_word(word, m);
    }
    let w: u64 = m as u64;
    let clear: u64 = w | if success {
        w << 16u32
    } else {
        0
    };
    word & !clear
}

/// Bytes of a block of the given order.
pub open spec fn block_bytes(order: int) -> int {
    span(order) * SLOT_BYTES
}

/// `addr` is where a block of the given order may start in the segment at `base`.
pub open spec fn block_at(base: int, addr: int, order: int) -> bool {
    &&& 0 <= order < BUDDY_NUM_ORDERS
    &&& base <= addr < base + SEGMENT_BYTES
    &&& (addr - base) % block_bytes(order) == 0
}

/// Slot that starts at `addr` in the segment at `base`.
pub open spec fn slot_of(base: int, addr: int) -> int {
    (addr - base) / (SLOT_BYTES as int)
}

proof fn lemma_slot_of(base: int, addr: int, order: int)
    requires
        block_at(base, addr, order),
    ensures
        0 <= slot_of(base, addr) < 16,
        slot_of(base, addr) % span(order) == 0,
        slot_of(base, addr) + span(order) <= 16,
        addr == base + slot_of(base, addr) * SLOT_BYTES,
{
    let offset = addr - base;
    if order == 0 {
        assert(offset % 0x40_0000 == 0);
    } else if order == 1 {
        assert(offset % 0x80_0000 == 0);
    } else if order == 2 {
        assert(offset % 0x100_0000 == 0);
    } else if order == 3 {
        assert(offset % 0x200_0000 == 0);
    } else {
        assert(offset % 0x400_0000 == 0);
    }
}

/// A block lies within its segment.
pub proof fn law_block_in_segment(base: int, addr: int, order: int)
    requires
        block_at(base, addr, order),
    ensures
        base <= addr,
        addr + block_bytes(order) <= base + SEGMENT_BYTES,
{
    lemma_slot_of(base, addr, order);
    let s = slot_of(base, addr);
    assert(s + span(order) <= 16);
    assert(block_bytes(order) == span(order) * SLOT_BYTES);
}

/// Sixteen slots of equal size, handed out in aligned blocks of one to sixteen slots.
pub struct Segment {
    word: u64,
    base: usize,
    freed_at: [u32; 16],
}

impl Segment {
    /// State of the slots.
    pub closed spec fn word(&self) -> u64 {
        self.word
    }

    /// Address of the first slot.
    pub closed spec fn start(&self) -> usize {
        self.base
    }

    /// When each slot was last given back.
    pub closed spec fn stamps(&self) -> Seq<u32> {
        self.freed_at@
    }

    /// The slots lie within the address space.
    pub open spec fn wf(&self) -> bool {
        &&& self.start() + SEGMENT_BYTES <= usize::MAX
        &&& self.stamps().len() == 16
    }

    /// A segment at `base` with all slots free and never used.
    pub fn new(base: usize) -> (r: Self)
        requires
            base + SEGMENT_BYTES <= usize::MAX,
        ensures
            r.wf(),
            r.start() == base,
            r.word() == 0,
            forall|i: int| 0 <= i < 16 ==> r.stamps()[i] == 0,
    {
        Segment { word: 0, base, freed_at: [0; 16] }
    }

    pub fn base(&self) -> (r: usize)
        ensures
            r == self.start(),
    {
        self.base
    }

    pub fn snapshot(&self) -> (r: u64)
        ensures
            r == self.word(),
    {
        self.word
    }

    /// How long ago a slot was given back.
    pub fn age(&self, slot: usize, now: u32) -> (r: u32)
        requires
            self.wf(),
            slot < SLOTS,
        ensures
            r == slot_age(self.stamps()[slot as int], now),
    {
        now.saturating_sub(self.freed_at[slot])
    }

    /// Whether a block of the given order fits somewhere.
    pub fn has_room(&self, order: usize) -> (r: bool)
        requires
            order < BUDDY_NUM_ORDERS,
        ensures
            r <==> exists|s: int| #[trigger] fits(self.word() as u16, order as int, s),
    {
        match alloc_step(self.word, order) {
            None => false,
            Some((start, _, _)) => {
                assert(fits(self.word() as u16, order as int, start as int));
                true
            },
        }
    }

    /// Hands out a block of the given order at the lowest place where it fits, together with what
    /// is known about its content.
    pub fn allocate(&mut self, order: usize) -> (r: Option<(usize, Flags)>)
        requires
            old(self).wf(),
            order < BUDDY_NUM_ORDERS,
        ensures
            final(self).wf(),
            final(self).start() == old(self).start(),
            final(self).stamps() == old(self).stamps(),
            r is None <==> forall|s: int|
                !#[trigger] fits(old(self).word() as u16, order as int, s),
            r is None ==> *final(self) == *old(self),
            r matches Some((addr, flags)) ==> {
                let start = slot_of(old(self).start() as int, addr as int);
                &&& addr == old(self).start() + start * SLOT_BYTES
                &&& first_fit(old(self).word() as u16, order as int, start)
                &&& block_taken(old(self).word(), final(self).word(), start, order as int)
                &&& flags == block_content(old(self).word(), start, order as int)
            },
    {
        match alloc_step(self.word, order) {
            None => None,
            Some((start, next, flags)) => {
                self.word = next;
                Some((self.base + start * SLOT_BYTES, flags))
            },
        }
    }

    /// Mask of the block of the given order at `addr`.
    fn allocation_mask(&self, addr: usize, order: usize) -> (r: Option<u16>)
        requires
            self.wf(),
        ensures
            r is Some <==> block_at(self.start() as int, addr as int, order as int),
            r matches Some(m) ==> forall|i: int| #[trigger]
                mask::bit(m, i) <==> in_block(
                    i,
                    slot_of(self.start() as int, addr as int),
                    order as int,
                ),
    {
        if order >= BUDDY_NUM_ORDERS || addr < self.base {
            return None;
        }
        let offset: usize = addr - self.base;
        let size: usize = match order {
            0 => 0x40_0000,
            1 => 0x80_0000,
            2 => 0x100_0000,
            3 => 0x200_0000,
            _ => 0x400_0000,
        };
        assert(size == block_bytes(order as int));
        if offset >= SEGMENT_BYTES || offset % size != 0 {
            return None;
        }
        proof {
            lemma_slot_of(self.base as int, addr as int, order as int);
        }
        Some(slot_mask(offset / SLOT_BYTES, order))
    }

    /// Gives a block back; anything that cannot be a block of this segment is ignored.
    pub fn free(&mut self, addr: usize, order: usize, stamp: u32)
        requires
            old(self).wf(),
        ensures
            final(self).wf(),
            final(self).start() == old(self).start(),
            only_busy_changed(old(self).word(), final(self).word()),
            !block_at(old(self).start() as int, addr as int, order as int) ==> *final(self)
                == *old(self),
            block_at(old(self).start() as int, addr as int, order as int) ==> {
                let start = slot_of(old(self).start() as int, addr as int);
                &&& forall|i: int| #[trigger]
                    busy(final(self).word(), i) <==> busy(old(self).word(), i) && !in_block(
                        i,
                        start,
                        order as int,
                    )
                &&& forall|i: int| 0 <= i < 16 ==> #[trigger]
                    final(self).stamps()[i] == if in_block(i, start, order as int) {
                        stamp
                    } else {
                        old(self).stamps()[i]
                    }
            },
    {
        let m: u16 = match self.allocation_mask(addr, order) {
            None => {
                return;
            },
            Some(m) => m,
        };
        self.stamp_slots(m, stamp);
        self.word = free_step(self.word, m);
    }

    /// Records `stamp` for the slots of `m`.
    fn stamp_slots(&mut self, m: u16, stamp: u32)
        requires
            old(self).wf(),
        ensures
            final(self).wf(),
            final(self).start() == old(self).start(),
            final(self).word() == old(self).word(),
            forall|i: int| 0 <= i < 16 ==> #[trigger]
                final(self).stamps()[i] == if mask::bit(m, i) {
                    stamp
                } else {
                    old(self).stamps()[i]
                },
    {
        broadcast use mask::group_bits;

        let mut slots: u16 = m;
        let ghost mut done: int = 0;
        while slots != 0
            invariant
                self.wf(),
                self.start() == old(self).start(),
                self.word() == old(self).word(),
                0 <= done <= 16,
                forall|i: int| #[trigger] mask::bit(slots, i) <==> mask::bit(m, i) && i >= done,
                forall|i: int| 0 <= i < 16 ==> #[trigger]
                    self.stamps()[i] == if mask::bit(m, i) && i < done {
                        stamp
                    } else {
                        old(self).stamps()[i]
                    },
            decreases 16 - done,
        {
            broadcast use mask::group_bits;

            let ghost before = slots;
            let slot: usize = mask::lowest(slots);
            let one: u16 = slot_mask(slot, 0);
            self.freed_at[slot] = stamp;
            slots = slots & !one;
            proof {
                assert forall|i: int| done <= i < slot implies !#[trigger] mask::bit(m, i) by {
                    assert(!mask::bit(before, i));
                }
                assert forall|i: int| #[trigger]
                    mask::bit(slots, i) <==> mask::bit(m, i) && i >= slot + 1 by {
                    assert(mask::bit(before, i) <==> mask::bit(m, i) && i >= done);
                    assert(mask::bit(one, i) <==> i == slot);
                    assert(i < slot ==> !mask::bit(before, i));
                }
                done = slot + 1;
            }
        }
        assert forall|i: int| #[trigger] mask::bit(m, i) implies i < done by {
            assert(!mask::bit(slots, i));
        }
    }

    /// Doubles a block in place when the slots behind it are free.
    pub fn grow(&mut self, addr: usize, order: usize) -> (r: bool)
        requires
            old(self).wf(),
        ensures
            final(self).wf(),
            final(self).start() == old(self).start(),
            final(self).stamps() == old(self).stamps(),
            r <==> can_grow(old(self).word(), old(self).start() as int, addr as int, order as int),
            !r ==> final(self).word() == old(self).word(),
            r ==> block_taken(
                old(self).word(),
                final(self).word(),
                slot_of(old(self).start() as int, addr as int) + span(order as int),
                order as int,
            ),
    {
        if order >= BUDDY_NUM_ORDERS - 1 {
            return false;
        }
        let whole: u16 = match self.allocation_mask(addr, order + 1) {
            None => {
                return false;
            },
            Some(m) => m,
        };
        let ghost start = slot_of(self.base as int, addr as int);
        proof {
            lemma_smaller_block(self.base as int, addr as int, order as int);
        }
        let left: u16 = match self.allocation_mask(addr, order) {
            None => {
                return false;
            },
            Some(m) => m,
        };
        assert forall|i: int| mask::bit(left, i) implies #[trigger] mask::bit(whole, i) by {}
        match grow_step(self.word, left, whole) {
            None => {
                assert(!can_grow(self.word, self.base as int, addr as int, order as int)) by {
                    let i = choose|i: int|
                        mask::bit(whole, i) && (#[trigger] busy(self.word, i) != mask::bit(left, i));
                    assert(in_block(i, start, order + 1));
                }
                false
            },
            Some(next) => {
                assert forall|i: int| in_block(i, start, order + 1) implies (#[trigger] busy(
                    self.word,
                    i,
                ) <==> in_block(i, start, order as int)) by {
                    assert(mask::bit(whole, i));
                }
                assert forall|i: int| #[trigger] busy(next, i) <==> busy(self.word, i) || in_block(
                    i,
                    start + span(order as int),
                    order as int,
                ) by {
                    assert(mask::bit(whole, i) <==> in_block(i, start, order + 1));
                }
                self.word = next;
                true
            },
        }
    }

    /// Takes the slots of `m` for trimming when all of them are reclaimable.
    pub fn claim_trim(&mut self, m: u16) -> (r: bool)
        requires
            old(self).wf(),
        ensures
            final(self).wf(),
            final(self).start() == old(self).start(),
            final(self).stamps() == old(self).stamps(),
            r <==> m != 0 && forall|i: int| #[trigger]
                mask::bit(m, i) ==> reclaimable(old(self).word(), i),
            !r ==> final(self).word() == old(self).word(),
            only_busy_changed(old(self).word(), final(self).word()),
            forall|i: int| #[trigger]
                busy(final(self).word(), i) <==> busy(old(self).word(), i) || (r && mask::bit(
                    m,
                    i,
                )),
    {
        match claim_step(self.word, m) {
            None => false,
            Some(next) => {
                self.word = next;
                true
            },
        }
    }

    /// Gives the slots of `m` back after trimming, clean when their pages are gone, and records
    /// `stamp` for them when there is one.
    pub fn finish_trim(&mut self, m: u16, success: bool, stamp: Option<u32>)
        requires
            old(self).wf(),
        ensures
            final(self).wf(),
            final(self).start() == old(self).start(),
            forall|i: int| #[trigger]
                busy(final(self).word(), i) <==> busy(old(self).word(), i) && !mask::bit(m, i),
            forall|i: int| #[trigger]
                dirty(final(self).word(), i) <==> dirty(old(self).word(), i) && !(success
                    && mask::bit(m, i)),
            forall|i: int| #[trigger] used(final(self).word(), i) == used(old(self).word(), i),
            forall|i: int| 0 <= i < 16 ==> #[trigger]
                final(self).stamps()[i] == if stamp is Some && mask::bit(m, i) {
                    stamp->0
                } else {
                    old(self).stamps()[i]
                },
    {
        broadcast use mask::group_bits;

        if m == 0 {
            return;
        }
        if let Some(stamp) = stamp {
            self.stamp_slots(m, stamp);
        }
        self.word = finish_step(self.word, m, success);
    }
}

/// The block of the given order at `addr` is the only busy part of the block of twice its size.
pub open spec fn can_grow(word: u64, base: int, addr: int, order: int) -> bool {
    let start = slot_of(base, addr);
    &&& order + 1 < BUDDY_NUM_ORDERS
    &&& block_at(base, addr, order + 1)
    &&& forall|i: int|
        in_block(i, start, order + 1) ==> (#[trigger] busy(word, i) <==> in_block(i, start, order))
}

proof fn lemma_smaller_block(base: int, addr: int, order: int)
    requires
        0 <= order,
        block_at(base, addr, order + 1),
    ensures
        block_at(base, addr, order),
{
    let offset = addr - base;
    if order == 0 {
        assert(offset % 0x80_0000 == 0 ==> offset % 0x40_0000 == 0);
    } else if order == 1 {
        assert(offset % 0x100_0000 == 0 ==> offset % 0x80_0000 == 0);
    } else if order == 2 {
        assert(offset % 0x200_0000 == 0 ==> offset % 0x100_0000 == 0);
    } else {
        assert(offset % 0x400_0000 == 0 ==> offset % 0x200_0000 == 0);
    }
}

/// Time from `stamp` to `now`, or nothing when `now` is earlier.
pub open spec fn slot_age(stamp: u32, now: u32) -> int {
    if now >= stamp {
        now - stamp
    } else {
        0
    }
}

/// `next` is `word` after the block of the given order at `start` was given back.
pub open spec fn block_freed(word: u64, next: u64, start: int, order: int) -> bool {
    &&& forall|i: int| #[trigger] busy(next, i) <==> busy(word, i) && !in_block(i, start, order)
    &&& only_busy_changed(word, next)
}

/// Giving a block back right after it was handed out leaves the same slots busy as before, and
/// the block fits there again.
pub proof fn law_free_undoes_alloc(word: u64, held: u64, after: u64, start: int, order: int)
    requires
        fits(word as u16, order, start),
        block_taken(word, held, start, order),
        block_freed(held, after, start, order),
    ensures
        forall|i: int| #[trigger] busy(after, i) == busy(word, i),
        fits(after as u16, order, start),
{
    assert forall|i: int| #[trigger] busy(after, i) == busy(word, i) by {
        assert(busy(held, i) <==> busy(word, i) || in_block(i, start, order));
        if in_block(i, start, order) {
            assert(!mask::bit(word as u16, i));
        }
    }
    assert forall|i: int| in_block(i, start, order) implies !#[trigger] mask::bit(
        after as u16,
        i,
    ) by {
        assert(!busy(after, i));
    }
}

/// A block that is handed out while another one is held shares no slot with it.
pub proof fn law_blocks_are_disjoint(
    word: u64,
    held: u64,
    start: int,
    order: int,
    other: int,
    other_order: int,
)
    requires
        block_taken(word, held, start, order),
        fits(held as u16, other_order, other),
    ensures
        forall|i: int| #[trigger] in_block(i, start, order) ==> !in_block(i, other, other_order),
{
    assert forall|i: int| #[trigger] in_block(i, start, order) implies !in_block(
        i,
        other,
        other_order,
    ) by {
        assert(busy(held, i));
    }
}

/// A block that grew in place is the aligned block of twice its size, and only its new half
/// changed hands.
pub proof fn law_grow_doubles(word: u64, grown: u64, base: int, addr: int, order: int)
    requires
        0 <= order,
        can_grow(word, base, addr, order),
        block_taken(word, grown, slot_of(base, addr) + span(order), order),
    ensures
        block_at(base, addr, order + 1),
        forall|i: int| #[trigger]
            busy(grown, i) <==> busy(word, i) || in_block(i, slot_of(base, addr), order + 1),
        forall|i: int|
            !in_block(i, slot_of(base, addr) + span(order), order) ==> #[trigger] dirty(grown, i)
                == dirty(word, i),
{
    let start = slot_of(base, addr);
    assert forall|i: int| #[trigger] busy(grown, i) <==> busy(word, i) || in_block(
        i,
        start,
        order + 1,
    ) by {
        if in_block(i, start, order + 1) {
            assert(busy(word, i) <==> in_block(i, start, order));
        }
    }
}

/// A block that was handed out reads as possibly dirty when it comes back.
pub proof fn law_freed_block_is_dirty(word: u64, held: u64, after: u64, start: int, order: int)
    requires
        block_taken(word, held, start, order),
        block_freed(held, after, start, order),
    ensures
        block_content(after, start, order) == Flags::Allocated,
{
    assert(in_block(start, start, order) && dirty(held, start));
    assert(dirty(after, start));
}

/// Once all its slots were trimmed, a block that was handed out before reads as trimmed.
pub proof fn law_trimmed_block(word: u64, after: u64, m: u16, start: int, order: int)
    requires
        forall|i: int| in_block(i, start, order) ==> #[trigger] mask::bit(m, i),
        forall|i: int| in_block(i, start, order) ==> #[trigger] used(word, i),
        forall|i: int| #[trigger] dirty(after, i) <==> dirty(word, i) && !mask::bit(m, i),
        forall|i: int| #[trigger] used(after, i) == used(word, i),
    ensures
        block_content(after, start, order) == Flags::Trimmed,
{
    assert(in_block(start, start, order) && used(word, start));
    assert(used(after, start));
    assert forall|i: int| in_block(i, start, order) implies !#[trigger] dirty(after, i) by {
        assert(mask::bit(m, i));
    }
}

/// Each order has twice the slots of the one below; the lowest is one slot, the highest a segment.
pub proof fn law_orders_double(order: int)
    requires
        0 <= order < BUDDY_NUM_ORDERS,
    ensures
        span(0) == 1,
        order + 1 < BUDDY_NUM_ORDERS ==> span(order + 1) == 2 * span(order),
        order + 1 < BUDDY_NUM_ORDERS ==> block_bytes(order + 1) == 2 * block_bytes(order),
        order + 1 == BUDDY_NUM_ORDERS ==> block_bytes(order) == SEGMENT_BYTES,
        block_bytes(0) == SLOT_BYTES,
{
}

/// The three states of a slot are kept apart: they are the bits of three masks next to each other.
pub proof fn law_states_are_apart(busy_slots: u16, dirty_slots: u16, used_slots: u16, i: int)
    ensures
        ({
            let word = (busy_slots as u64) | ((dirty_slots as u64) << 16u64) | ((used_slots as u64)
                << 32u64);
            &&& busy(word, i) == mask::bit(busy_slots, i)
            &&& dirty(word, i) == mask::bit(dirty_slots, i)
            &&& used(word, i) == mask::bit(used_slots, i)
        }),
{
    let word = (busy_slots as u64) | ((dirty_slots as u64) << 16u64) | ((used_slots as u64)
        << 32u64);
    assert(word as u16 == busy_slots && (word >> 16u32) as u16 == dirty_slots && (word >> 32u32)
        as u16 == used_slots) by (bit_vector)
        requires
            word == (busy_slots as u64) | ((dirty_slots as u64) << 16u64) | ((used_slots as u64)
                << 32u64),
    ;
}

/// A block reads as written while a slot of it may hold data, as fresh while no slot of it was ever
/// handed out, and as trimmed otherwise.
pub proof fn law_block_content(word: u64, start: int, order: int, i: int)
    requires
        in_block(i, start, order),
    ensures
        dirty(word, i) ==> block_content(word, start, order) == Flags::Allocated,
        used(word, i) ==> block_content(word, start, order) != Flags::NotAllocated,
        (forall|j: int|
            in_block(j, start, order) ==> !#[trigger] dirty(word, j) && !used(word, j))
            ==> block_content(word, start, order) == Flags::NotAllocated,
        (forall|j: int| in_block(j, start, order) ==> !#[trigger] dirty(word, j)) && used(word, i)
            ==> block_content(word, start, order) == Flags::Trimmed,
        block_content(0, start, order) == Flags::NotAllocated,
{
    lemma_empty_word();
    if forall|j: int| in_block(j, start, order) ==> !#[trigger] dirty(word, j) && !used(word, j) {
        assert forall|j: int| in_block(j, start, order) implies !#[trigger] used(word, j) by {
            assert(!dirty(word, j));
        }
    }
}

/// A slot is as old as the time since it was given back, and never younger than nothing.
pub proof fn law_slot_age(stamp: u32, now: u32)
    ensures
        stamp <= now ==> stamp + slot_age(stamp, now) == now,
        stamp > now ==> slot_age(stamp, now) == 0,
{
}

} // verus!
