//! Statistics about the free blocks of segments.

use crate::big_allocations::segment;
use crate::big_allocations::segment::{BUDDY_NUM_ORDERS, SEGMENT_BYTES, SLOT_BYTES};
use crate::internals::mask;
use crate::Flags;
use vstd::prelude::*;

verus! {

/// A free block that is not part of a larger free block.
pub open spec fn maximal(taken: u16, order: int, start: int) -> bool {
    &&& segment::fits(taken, order, start)
    &&& order < 4 ==> !segment::fits(
        taken,
        order + 1,
        start - start % segment::span(order + 1),
    )
}

/// Maximal free blocks of the given order that start below `hi`.
pub open spec fn blocks_below(word: u64, order: int, hi: int) -> int
    decreases hi,
{
    if hi <= 0 {
        0
    } else {
        blocks_below(word, order, hi - 1) + if maximal(word as u16, order, hi - 1) {
            1int
        } else {
            0
        }
    }
}

/// Maximal free blocks of the given order and content that start below `hi`.
pub open spec fn kinds_below(word: u64, order: int, kind: Flags, hi: int) -> int
    decreases hi,
{
    if hi <= 0 {
        0
    } else {
        kinds_below(word, order, kind, hi - 1) + if maximal(word as u16, order, hi - 1)
            && segment::block_content(word, hi - 1, order) == kind {
            1int
        } else {
            0
        }
    }
}

/// No free block reaches across `cut`.
spec fn clean_cut(taken: u16, cut: int) -> bool {
    forall|q: int, s: int|
        0 <= q < 5 && #[trigger] segment::fits(taken, q, s) && s < cut ==> s + segment::span(q)
            <= cut
}

/// `order` is the largest order of a free block at `start`.
spec fn largest(taken: u16, order: int, start: int) -> bool {
    &&& 0 <= order < 5
    &&& segment::fits(taken, order, start)
    &&& forall|q: int| order < q < 5 ==> !#[trigger] segment::fits(taken, q, start)
}

/// Part of a free block that is aligned to its own size is free too.
proof fn lemma_part(taken: u16, order: int, start: int, q: int, s: int)
    requires
        0 <= q <= order < 5,
        segment::fits(taken, order, start),
        start <= s,
        s + segment::span(q) <= start + segment::span(order),
        s % segment::span(q) == 0,
    ensures
        segment::fits(taken, q, s),
{
    assert forall|i: int| segment::in_block(i, s, q) implies !#[trigger] mask::bit(taken, i) by {
        assert(segment::in_block(i, start, order));
    }
}

/// Aligned blocks of different sizes are nested or apart.
proof fn lemma_nested(order: int, start: int, q: int, s: int)
    requires
        0 <= q < 5,
        0 <= order < 5,
        0 <= start < 16,
        start % segment::span(order) == 0,
        0 <= s < 16,
        s % segment::span(q) == 0,
        start < s < start + segment::span(order),
    ensures
        q < order,
        s + segment::span(q) <= start + segment::span(order),
        start <= s - s % segment::span(q + 1),
        s - s % segment::span(q + 1) + segment::span(q + 1) <= start + segment::span(order),
        (s - s % segment::span(q + 1)) % segment::span(q + 1) == 0,
{
    let t = segment::span(q);
    let u = segment::span(q + 1);
    let end = start + segment::span(order);
    if q >= order {
        assert(s % segment::span(order) == 0) by {
            lemma_coarser(s, q, order);
        }
        lemma_apart(start, segment::span(order), s);
    } else {
        lemma_coarser(start, order, q);
        lemma_coarser(start, order, q + 1);
        assert(end % t == 0 && end % u == 0);
        lemma_apart(s, t, end);
        let e = s - s % u;
        assert(e % u == 0);
        assert(e < end);
        lemma_apart(e, u, end);
        if e < start {
            lemma_apart(e, u, start);
        }
    }
}

/// A multiple of a large span is a multiple of each smaller one, and so is the next multiple.
proof fn lemma_coarser(s: int, order: int, q: int)
    requires
        0 <= q <= order < 5,
        s % segment::span(order) == 0,
    ensures
        s % segment::span(q) == 0,
        (s + segment::span(order)) % segment::span(q) == 0,
{
    let small = segment::span(q);
    let big = segment::span(order);
    let k = segment::span(order - q);
    assert(small * k == big) by {
        if q == 0 {
            assert(1 * k == k);
        } else if q == 1 {
            assert(2 * k == big);
        } else if q == 2 {
            assert(4 * k == big);
        } else if q == 3 {
            assert(8 * k == big);
        } else {
            assert(16 * k == big);
        }
    }
    vstd::arithmetic::div_mod::lemma_mod_add_multiples_vanish(s, big);
    vstd::arithmetic::div_mod::lemma_mod_mod(s, small, k);
    vstd::arithmetic::div_mod::lemma_mod_mod(big + s, small, k);
    vstd::arithmetic::div_mod::lemma_small_mod(0, small as nat);
}

/// Two different multiples of `t` are at least `t` apart.
proof fn lemma_apart(a: int, t: int, b: int)
    requires
        t > 0,
        a % t == 0,
        b % t == 0,
        a < b,
    ensures
        a + t <= b,
{
    vstd::arithmetic::div_mod::lemma_fundamental_div_mod(a, t);
    vstd::arithmetic::div_mod::lemma_fundamental_div_mod(b, t);
    let x = a / t;
    let y = b / t;
    assert(a + t <= b) by (nonlinear_arith)
        requires
            a == t * x,
            b == t * y,
            a < b,
            t > 0,
    ;
}

/// Where the maximal free blocks start between `floor`, which no free block reaches across, and the
/// end of the free block at `start`, which is the lowest free slot from `floor` on.
proof fn lemma_step(taken: u16, floor: int, start: int, order: int)
    requires
        0 <= floor <= start < 16,
        clean_cut(taken, floor),
        forall|i: int| floor <= i < start ==> #[trigger] mask::bit(taken, i),
        largest(taken, order, start),
    ensures
        clean_cut(taken, start + segment::span(order)),
        forall|q: int, s: int|
            0 <= q < 5 && floor <= s < start + segment::span(order) ==> (#[trigger] maximal(
                taken,
                q,
                s,
            ) <==> s == start && q == order),
{
    assert forall|q: int, s: int|
        0 <= q < 5 && floor <= s < start implies !#[trigger] segment::fits(taken, q, s) by {
        assert(segment::in_block(s, s, q));
        assert(mask::bit(taken, s));
    }
    assert forall|q: int, s: int|
        0 <= q < 5 && #[trigger] segment::fits(taken, q, s) && s < start implies s + segment::span(
        q,
    ) <= start by {
        if s >= floor {
            assert(!segment::fits(taken, q, s));
        }
    }
    // The block at `start` is maximal, and no other block there is.
    assert(maximal(taken, order, start)) by {
        if order < 4 {
            let e = start - start % segment::span(order + 1);
            if segment::fits(taken, order + 1, e) {
                if e < start {
                    assert(e + segment::span(order + 1) <= start);
                    assert(start % segment::span(order + 1) < segment::span(order + 1));
                } else {
                    assert(e == start);
                }
            }
        }
    }
    assert forall|q: int| 0 <= q < 5 && q != order implies !#[trigger] maximal(taken, q, start) by {
        if q < order {
            lemma_coarser(start, order, q + 1);
            lemma_spans(order, q + 1);
            lemma_part(taken, order, start, q + 1, start);
            assert(start % segment::span(q + 1) == 0);
        }
    }
    // Free blocks that start inside it are part of it.
    assert forall|q: int, s: int|
        0 <= q < 5 && start < s < start + segment::span(order) && #[trigger] segment::fits(
            taken,
            q,
            s,
        ) implies s + segment::span(q) <= start + segment::span(order) && !maximal(
        taken,
        q,
        s,
    ) by {
        lemma_nested(order, start, q, s);
        lemma_part(taken, order, start, q + 1, s - s % segment::span(q + 1));
    }
    assert forall|q: int, s: int|
        0 <= q < 5 && #[trigger] segment::fits(taken, q, s) && s < start + segment::span(
            order,
        ) implies s + segment::span(q) <= start + segment::span(order) by {
        if s == start {
            if q > order {
                assert(!segment::fits(taken, q, start));
            }
            lemma_spans(order, q);
        }
    }
    assert forall|q: int, s: int|
        0 <= q < 5 && floor <= s < start + segment::span(order) implies (#[trigger] maximal(
        taken,
        q,
        s,
    ) <==> s == start && q == order) by {
        if s < start {
            assert(!segment::fits(taken, q, s));
        }
    }
}

/// Larger orders have larger spans.
proof fn lemma_spans(order: int, q: int)
    requires
        0 <= order < 5,
        0 <= q,
    ensures
        q <= order ==> segment::span(q) <= segment::span(order),
{
}

/// What one step adds to the numbers of blocks.
proof fn lemma_counts(word: u64, q: int, floor: int, start: int, order: int, hi: int)
    requires
        0 <= floor <= hi <= start + segment::span(order),
        0 <= q < 5,
        forall|s: int|
            floor <= s < start + segment::span(order) ==> (#[trigger] maximal(
                word as u16,
                q,
                s,
            ) <==> s == start && q == order),
    ensures
        blocks_below(word, q, hi) == blocks_below(word, q, floor) + if q == order && floor <= start
            < hi {
            1int
        } else {
            0
        },
        forall|kind: Flags| #[trigger]
            kinds_below(word, q, kind, hi) == kinds_below(word, q, kind, floor) + if q == order
                && floor <= start < hi && segment::block_content(word, start, order) == kind {
                1int
            } else {
                0
            },
    decreases hi - floor,
{
    if hi > floor {
        lemma_counts(word, q, floor, start, order, hi - 1);
        assert(maximal(word as u16, q, hi - 1) <==> hi - 1 == start && q == order);
        assert forall|kind: Flags| #[trigger]
            kinds_below(word, q, kind, hi) == kinds_below(word, q, kind, floor) + if q == order
                && floor <= start < hi && segment::block_content(word, start, order) == kind {
                1int
            } else {
                0
            } by {
            assert(kinds_below(word, q, kind, hi - 1) == kinds_below(word, q, kind, floor)
                + if q == order && floor <= start < hi - 1 && segment::block_content(
                word,
                start,
                order,
            ) == kind {
                1int
            } else {
                0
            });
        }
    }
}

/// Behind the last free slot nothing starts.
proof fn lemma_counts_rest(word: u64, q: int, floor: int, hi: int)
    requires
        0 <= floor <= hi <= 16,
        0 <= q < 5,
        forall|i: int| floor <= i < 16 ==> #[trigger] mask::bit(word as u16, i),
    ensures
        blocks_below(word, q, hi) == blocks_below(word, q, floor),
        forall|kind: Flags| #[trigger]
            kinds_below(word, q, kind, hi) == kinds_below(word, q, kind, floor),
    decreases hi - floor,
{
    if hi > floor {
        lemma_counts_rest(word, q, floor, hi - 1);
        assert(segment::in_block(hi - 1, hi - 1, q));
        assert(mask::bit(word as u16, hi - 1));
        assert(!maximal(word as u16, q, hi - 1));
        assert forall|kind: Flags| #[trigger]
            kinds_below(word, q, kind, hi) == kinds_below(word, q, kind, floor) by {
            assert(kinds_below(word, q, kind, hi - 1) == kinds_below(word, q, kind, floor));
        }
    }
}

/// What the statistics count.
pub enum Measure {
    /// Maximal free blocks of an order.
    Blocks(usize),
    /// Those of them with the given content.
    Kind(usize, Flags),
    /// Maximal free blocks of all orders with the given content.
    KindTotal(Flags),
    /// Bytes of all maximal free blocks.
    Bytes,
}

impl Measure {
    /// The statistics hold this number.
    pub open spec fn counted(&self) -> bool {
        match *self {
            Measure::Blocks(q) => q < 5,
            Measure::Kind(q, kind) => q < 5 && kind != Flags::BigAlloc,
            Measure::KindTotal(kind) => kind != Flags::BigAlloc,
            Measure::Bytes => true,
        }
    }

    /// What the blocks of a segment that start below `hi` contribute.
    pub open spec fn below(&self, word: u64, hi: int) -> int {
        match *self {
            Measure::Blocks(q) => blocks_below(word, q as int, hi),
            Measure::Kind(q, kind) => kinds_below(word, q as int, kind, hi),
            Measure::KindTotal(kind) => kinds_below(word, 0, kind, hi) + kinds_below(
                word,
                1,
                kind,
                hi,
            ) + kinds_below(word, 2, kind, hi) + kinds_below(word, 3, kind, hi) + kinds_below(
                word,
                4,
                kind,
                hi,
            ),
            Measure::Bytes => SLOT_BYTES * (blocks_below(word, 0, hi) + 2 * blocks_below(
                word,
                1,
                hi,
            ) + 4 * blocks_below(word, 2, hi) + 8 * blocks_below(word, 3, hi) + 16 * blocks_below(
                word,
                4,
                hi,
            )),
        }
    }

    /// No segment contributes more.
    pub open spec fn room(&self) -> int {
        if *self is Bytes {
            SEGMENT_BYTES as int
        } else {
            16
        }
    }
}

/// Free blocks of the buddy allocator, by size and by what is known about their content.
#[derive(Clone, Copy)]
pub struct BuddyBackendReport {
    pub regions: usize,
    pub total_region_bytes: usize,
    pub free_bytes: usize,
    pub free_blocks: [usize; 5],
    pub never_allocated_blocks: usize,
    pub reused_blocks: usize,
    pub trimmed_blocks: usize,
    pub never_allocated_by_order: [usize; 5],
    pub reused_by_order: [usize; 5],
    pub trimmed_by_order: [usize; 5],
    pub grow_order: usize,
    pub thp: bool,
}

/// Whether a block of the given order at `slot` has only slots of `free`.
fn is_free_block(free: u16, slot: usize, order: usize) -> (r: bool)
    requires
        slot < 16,
        order < BUDDY_NUM_ORDERS,
    ensures
        r <==> segment::fits(!free, order as int, slot as int),
{
    broadcast use mask::group_bits;

    let all: u16 = segment::candidates(!free, order);
    let one: u16 = segment::slot_mask(slot, 0);
    assert(forall|i: int| #[trigger] mask::bit(one, i) <==> i == slot);
    let hit: u16 = all & one;
    proof {
        assert(mask::bit(hit, slot as int) <==> mask::bit(all, slot as int));
        if hit != 0 {
            let i = mask::lemma_member(hit);
            assert(i == slot);
        }
    }
    hit != 0
}

/// The largest order of a free block at `slot`.
fn largest_order(free: u16, slot: usize) -> (order: usize)
    requires
        slot < 16,
        mask::bit(free, slot as int),
    ensures
        largest(!free, order as int, slot as int),
{
    broadcast use mask::group_bits;

    let mut order: usize = 4;
    while order > 0 && !is_free_block(free, slot, order)
        invariant
            order < 5,
            slot < 16,
            forall|q: int| order < q < 5 ==> !#[trigger] segment::fits(!free, q, slot as int),
        decreases order,
    {
        order = order - 1;
    }
    assert(order == 0 ==> segment::fits(!free, 0, slot as int)) by {
        assert(slot as int % 1 == 0);
    }
    order
}

impl BuddyBackendReport {
    /// The number that stands in the report for a measure.
    pub open spec fn read(&self, m: Measure) -> int {
        match m {
            Measure::Blocks(q) => self.free_blocks@[q as int] as int,
            Measure::Kind(q, kind) => match kind {
                Flags::NotAllocated => self.never_allocated_by_order@[q as int] as int,
                Flags::Trimmed => self.trimmed_by_order@[q as int] as int,
                _ => self.reused_by_order@[q as int] as int,
            },
            Measure::KindTotal(kind) => match kind {
                Flags::NotAllocated => self.never_allocated_blocks as int,
                Flags::Trimmed => self.trimmed_blocks as int,
                _ => self.reused_blocks as int,
            },
            Measure::Bytes => self.free_bytes as int,
        }
    }

    /// Adds one block.
    fn add_block(&mut self, order: usize, kind: Flags)
        requires
            order < 5,
            kind != Flags::BigAlloc,
            forall|m: Measure| #[trigger] m.counted() ==> old(self).read(m) + (if m is Bytes {
                segment::block_bytes(order as int)
            } else {
                1
            }) <= usize::MAX,
        ensures
            final(self).regions == old(self).regions,
            final(self).total_region_bytes == old(self).total_region_bytes,
            final(self).grow_order == old(self).grow_order,
            final(self).thp == old(self).thp,
            forall|m: Measure| #[trigger] m.counted() ==> final(self).read(m) == old(self).read(m)
                + match m {
                Measure::Blocks(q) => if q == order {
                    1int
                } else {
                    0
                },
                Measure::Kind(q, k) => if q == order && k == kind {
                    1int
                } else {
                    0
                },
                Measure::KindTotal(k) => if k == kind {
                    1int
                } else {
                    0
                },
                Measure::Bytes => segment::block_bytes(order as int),
            },
    {
        let bytes: usize = match order {
            0 => 0x40_0000,
            1 => 0x80_0000,
            2 => 0x100_0000,
            3 => 0x200_0000,
            _ => 0x400_0000,
        };
        proof {
            assert(Measure::Blocks(order).counted());
            assert(Measure::Kind(order, kind).counted());
            assert(Measure::KindTotal(kind).counted());
            assert(Measure::Bytes.counted());
            assert(bytes == segment::block_bytes(order as int));
        }
        self.free_blocks[order] = self.free_blocks[order] + 1;
        self.free_bytes = self.free_bytes + bytes;
        match kind {
            Flags::NotAllocated => {
                self.never_allocated_blocks = self.never_allocated_blocks + 1;
                self.never_allocated_by_order[order] = self.never_allocated_by_order[order] + 1;
            },
            Flags::Trimmed => {
                self.trimmed_blocks = self.trimmed_blocks + 1;
                self.trimmed_by_order[order] = self.trimmed_by_order[order] + 1;
            },
            _ => {
                self.reused_blocks = self.reused_blocks + 1;
                self.reused_by_order[order] = self.reused_by_order[order] + 1;
            },
        }
    }

    /// Adds the free blocks of a segment whose state is `word`.
    pub fn add_segment(&mut self, word: u64)
        requires
            forall|m: Measure| #[trigger] m.counted() ==> old(self).read(m) + m.room()
                <= usize::MAX,
        ensures
            final(self).regions == old(self).regions,
            final(self).total_region_bytes == old(self).total_region_bytes,
            final(self).grow_order == old(self).grow_order,
            final(self).thp == old(self).thp,
            forall|m: Measure| #[trigger] m.counted() ==> final(self).read(m) == old(self).read(m)
                + m.below(word, 16),
            forall|m: Measure| #[trigger] m.counted() ==> final(self).read(m) <= old(self).read(m)
                + m.room(),
    {
        broadcast use mask::group_bits;

        let mut free: u16 = !(word as u16);
        let ghost taken = word as u16;
        let ghost mut floor: int = 0;
        proof {
            assert forall|m: Measure| #[trigger] m.counted() implies m.below(word, 0) == 0 by {}
            assert(clean_cut(taken, 0)) by {
                assert forall|q: int, s: int|
                    0 <= q < 5 && #[trigger] segment::fits(taken, q, s) && s < 0 implies s
                    + segment::span(q) <= 0 by {}
            }
        }
        while free != 0
            invariant
                0 <= floor <= 16,
                taken == word as u16,
                clean_cut(taken, floor),
                forall|i: int| #[trigger] mask::bit(free, i) <==> floor <= i < 16 && !mask::bit(
                    taken,
                    i,
                ),
                self.regions == old(self).regions,
                self.total_region_bytes == old(self).total_region_bytes,
                self.grow_order == old(self).grow_order,
                self.thp == old(self).thp,
                forall|m: Measure| #[trigger] m.counted() ==> self.read(m) == old(self).read(m)
                    + m.below(word, floor),
                forall|m: Measure| #[trigger] m.counted() ==> m.below(word, floor) <= (
                if m is Bytes {
                    floor * SLOT_BYTES
                } else {
                    floor
                }),
                forall|m: Measure| #[trigger] m.counted() ==> old(self).read(m) + m.room()
                    <= usize::MAX,
            decreases 16 - floor,
        {
            broadcast use mask::group_bits;

            let slot: usize = mask::lowest(free);
            let order: usize = largest_order(free, slot);
            let m: u16 = segment::slot_mask(slot, order);
            let kind: Flags = segment::classify(word, m);
            proof {
                lemma_largest_in_rest(taken, free, floor, slot as int, order as int);
                assert forall|i: int| floor <= i < slot implies #[trigger] mask::bit(taken, i) by {
                    assert(!mask::bit(free, i));
                }
                lemma_step(taken, floor, slot as int, order as int);
                segment::lemma_block_content(word, m, slot as int, order as int);
                assert(kind != Flags::BigAlloc);
                lemma_all_counts(word, floor, slot as int, order as int);
            }
            self.add_block(order, kind);
            let ghost before = free;
            free = free & !m;
            proof {
                let end = slot + segment::span(order as int);
                assert forall|i: int| #[trigger] mask::bit(free, i) <==> end <= i < 16
                    && !mask::bit(taken, i) by {
                    assert(mask::bit(before, i) <==> floor <= i < 16 && !mask::bit(taken, i));
                    assert(mask::bit(m, i) <==> i < 16 && segment::in_block(
                        i,
                        slot as int,
                        order as int,
                    ));
                    assert(0 <= i < slot ==> !mask::bit(before, i));
                }
                floor = end;
            }
        }
        proof {
            assert forall|i: int| floor <= i < 16 implies #[trigger] mask::bit(taken, i) by {
                assert(!mask::bit(free, i));
            }
            assert forall|m: Measure| #[trigger] m.counted() implies m.below(word, 16) == m.below(
                word,
                floor,
            ) by {
                lemma_counts_rest(word, 0, floor, 16);
                lemma_counts_rest(word, 1, floor, 16);
                lemma_counts_rest(word, 2, floor, 16);
                lemma_counts_rest(word, 3, floor, 16);
                lemma_counts_rest(word, 4, floor, 16);
                if let Measure::Blocks(q) = m {
                    lemma_counts_rest(word, q as int, floor, 16);
                }
                if let Measure::Kind(q, _) = m {
                    lemma_counts_rest(word, q as int, floor, 16);
                }
            }
        }
    }
}

/// The largest free block among the slots from `floor` on is the largest one of all.
proof fn lemma_largest_in_rest(taken: u16, free: u16, floor: int, start: int, order: int)
    requires
        0 <= floor <= start < 16,
        forall|i: int| #[trigger] mask::bit(free, i) <==> floor <= i < 16 && !mask::bit(taken, i),
        largest(!free, order, start),
    ensures
        largest(taken, order, start),
{
    broadcast use mask::group_bits;

    assert forall|q: int| 0 <= q < 5 implies (#[trigger] segment::fits(!free, q, start)
        <==> segment::fits(taken, q, start)) by {
        if segment::fits(!free, q, start) {
            assert forall|i: int| segment::in_block(i, start, q) implies !#[trigger] mask::bit(
                taken,
                i,
            ) by {
                assert(!mask::bit(!free, i));
            }
        }
        if segment::fits(taken, q, start) {
            assert forall|i: int| segment::in_block(i, start, q) implies !#[trigger] mask::bit(
                !free,
                i,
            ) by {
                assert(!mask::bit(taken, i));
            }
        }
    }
    assert forall|q: int| order < q < 5 implies !#[trigger] segment::fits(taken, q, start) by {
        assert(!segment::fits(!free, q, start));
    }
}

/// What one step adds to every measure.
proof fn lemma_all_counts(word: u64, floor: int, start: int, order: int)
    requires
        0 <= floor <= start < 16,
        0 <= order < 5,
        start + segment::span(order) <= 16,
        segment::block_content(word, start, order) != Flags::BigAlloc,
        forall|q: int, s: int|
            0 <= q < 5 && floor <= s < start + segment::span(order) ==> (#[trigger] maximal(
                word as u16,
                q,
                s,
            ) <==> s == start && q == order),
    ensures
        forall|m: Measure| #[trigger] m.counted() ==> m.below(word, start + segment::span(order))
            == m.below(word, floor) + match m {
            Measure::Blocks(q) => if q == order {
                1int
            } else {
                0
            },
            Measure::Kind(q, k) => if q == order && k == segment::block_content(
                word,
                start,
                order,
            ) {
                1int
            } else {
                0
            },
            Measure::KindTotal(k) => if k == segment::block_content(word, start, order) {
                1int
            } else {
                0
            },
            Measure::Bytes => segment::block_bytes(order),
        },
{
    let hi = start + segment::span(order);
    lemma_counts(word, 0, floor, start, order, hi);
    lemma_counts(word, 1, floor, start, order, hi);
    lemma_counts(word, 2, floor, start, order, hi);
    lemma_counts(word, 3, floor, start, order, hi);
    lemma_counts(word, 4, floor, start, order, hi);
    assert forall|m: Measure| #[trigger] m.counted() implies m.below(word, hi) == m.below(
        word,
        floor,
    ) + match m {
        Measure::Blocks(q) => if q == order {
            1int
        } else {
            0
        },
        Measure::Kind(q, k) => if q == order && k == segment::block_content(word, start, order) {
            1int
        } else {
            0
        },
        Measure::KindTotal(k) => if k == segment::block_content(word, start, order) {
            1int
        } else {
            0
        },
        Measure::Bytes => segment::block_bytes(order),
    } by {
        match m {
            Measure::Blocks(q) => {
                lemma_counts(word, q as int, floor, start, order, hi);
            },
            Measure::Kind(q, k) => {
                lemma_counts(word, q as int, floor, start, order, hi);
                assert(kinds_below(word, q as int, k, hi) >= kinds_below(
                    word,
                    q as int,
                    k,
                    floor,
                ));
            },
            Measure::KindTotal(k) => {
                assert(kinds_below(word, 0, k, hi) >= kinds_below(word, 0, k, floor));
                assert(kinds_below(word, 1, k, hi) >= kinds_below(word, 1, k, floor));
                assert(kinds_below(word, 2, k, hi) >= kinds_below(word, 2, k, floor));
                assert(kinds_below(word, 3, k, hi) >= kinds_below(word, 3, k, floor));
                assert(kinds_below(word, 4, k, hi) >= kinds_below(word, 4, k, floor));
            },
            Measure::Bytes => {
                assert(segment::block_bytes(order) == SLOT_BYTES * segment::span(order));
            },
        }
    }
}

/// Every free slot is part of a free block that is not part of a larger one.
pub proof fn law_free_slots_are_in_maximal_blocks(taken: u16, i: int)
    requires
        0 <= i < 16,
        !mask::bit(taken, i),
    ensures
        exists|order: int, start: int|
            0 <= order < BUDDY_NUM_ORDERS && #[trigger] maximal(taken, order, start)
                && segment::in_block(i, start, order),
{
    assert(segment::fits(taken, 0, i));
    let s1 = i - i % 2;
    let s2 = i - i % 4;
    let s3 = i - i % 8;
    if !segment::fits(taken, 1, s1) {
        assert(maximal(taken, 0, i));
        assert(segment::in_block(i, i, 0));
    } else if !segment::fits(taken, 2, s2) {
        assert(s1 - s1 % 4 == s2);
        assert(maximal(taken, 1, s1));
        assert(segment::in_block(i, s1, 1));
    } else if !segment::fits(taken, 3, s3) {
        assert(s2 - s2 % 8 == s3);
        assert(maximal(taken, 2, s2));
        assert(segment::in_block(i, s2, 2));
    } else if !segment::fits(taken, 4, 0) {
        assert(s3 - s3 % 16 == 0);
        assert(maximal(taken, 3, s3));
        assert(segment::in_block(i, s3, 3));
    } else {
        assert(maximal(taken, 4, 0));
        assert(segment::in_block(i, 0, 4));
    }
}

/// No slot is part of two of them, and none is busy.
pub proof fn law_maximal_blocks_are_apart(
    taken: u16,
    order: int,
    start: int,
    other: int,
    place: int,
    i: int,
)
    requires
        0 <= order <= other < BUDDY_NUM_ORDERS,
        maximal(taken, order, start),
        maximal(taken, other, place),
        segment::in_block(i, start, order),
        segment::in_block(i, place, other),
    ensures
        order == other,
        start == place,
        !mask::bit(taken, i),
{
    let t = segment::span(order);
    if order == other {
        if start < place {
            lemma_apart(start, t, place);
        } else if place < start {
            lemma_apart(place, t, start);
        }
    } else {
        lemma_coarser(place, other, order);
        if start < place {
            lemma_apart(start, t, place);
        }
        let up = start - start % segment::span(order + 1);
        if start > place {
            lemma_nested(other, place, order, start);
        } else {
            lemma_coarser(place, other, order + 1);
            assert(up == start);
        }
        lemma_part(taken, other, place, order + 1, up);
    }
}

/// Blocks are counted once each, and those of the three kinds add up to all of them.
pub proof fn law_free_blocks_are_counted(word: u64, order: int, hi: int)
    requires
        0 <= hi,
    ensures
        blocks_below(word, order, hi) == vstd::set_lib::set_int_range(0, hi).filter(
            |s: int| maximal(word as u16, order, s),
        ).len(),
        vstd::set_lib::set_int_range(0, hi).filter(
            |s: int| maximal(word as u16, order, s),
        ).finite(),
        blocks_below(word, order, hi) == kinds_below(word, order, Flags::NotAllocated, hi)
            + kinds_below(word, order, Flags::Allocated, hi) + kinds_below(
            word,
            order,
            Flags::Trimmed,
            hi,
        ),
    decreases hi,
{
    let f = |s: int| maximal(word as u16, order, s);
    let all = vstd::set_lib::set_int_range(0, hi).filter(f);
    if hi == 0 {
        assert(all =~= Set::<int>::empty());
    } else {
        law_free_blocks_are_counted(word, order, hi - 1);
        let below = vstd::set_lib::set_int_range(0, hi - 1).filter(f);
        if f(hi - 1) {
            assert(all =~= below.insert(hi - 1));
        } else {
            assert(all =~= below);
        }
    }
}

/// Blocks of a kind are counted once each.
pub proof fn law_kinds_are_counted(word: u64, order: int, kind: Flags, hi: int)
    requires
        0 <= hi,
    ensures
        kinds_below(word, order, kind, hi) == vstd::set_lib::set_int_range(0, hi).filter(
            |s: int|
                maximal(word as u16, order, s) && segment::block_content(word, s, order) == kind,
        ).len(),
        vstd::set_lib::set_int_range(0, hi).filter(
            |s: int|
                maximal(word as u16, order, s) && segment::block_content(word, s, order) == kind,
        ).finite(),
    decreases hi,
{
    let f = |s: int|
        maximal(word as u16, order, s) && segment::block_content(word, s, order) == kind;
    let all = vstd::set_lib::set_int_range(0, hi).filter(f);
    if hi == 0 {
        assert(all =~= Set::<int>::empty());
    } else {
        law_kinds_are_counted(word, order, kind, hi - 1);
        let below = vstd::set_lib::set_int_range(0, hi - 1).filter(f);
        if f(hi - 1) {
            assert(all =~= below.insert(hi - 1));
        } else {
            assert(all =~= below);
        }
    }
}

/// Free bytes are those of the free blocks, and the blocks of a kind are those of every order; the
/// three kinds add up to the blocks of all orders.
pub proof fn law_measures_of_a_segment(word: u64, kind: Flags, hi: int)
    requires
        0 <= hi,
    ensures
        Measure::Bytes.below(word, hi) == segment::block_bytes(0) * blocks_below(word, 0, hi)
            + segment::block_bytes(1) * blocks_below(word, 1, hi) + segment::block_bytes(2)
            * blocks_below(word, 2, hi) + segment::block_bytes(3) * blocks_below(word, 3, hi)
            + segment::block_bytes(4) * blocks_below(word, 4, hi),
        Measure::KindTotal(kind).below(word, hi) == Measure::Kind(0, kind).below(word, hi)
            + Measure::Kind(1, kind).below(word, hi) + Measure::Kind(2, kind).below(word, hi)
            + Measure::Kind(3, kind).below(word, hi) + Measure::Kind(4, kind).below(word, hi),
        Measure::KindTotal(Flags::NotAllocated).below(word, hi) + Measure::KindTotal(
            Flags::Allocated,
        ).below(word, hi) + Measure::KindTotal(Flags::Trimmed).below(word, hi) == Measure::Blocks(
            0,
        ).below(word, hi) + Measure::Blocks(1).below(word, hi) + Measure::Blocks(2).below(word, hi)
            + Measure::Blocks(3).below(word, hi) + Measure::Blocks(4).below(word, hi),
{
    assert(segment::block_bytes(0) == 0x40_0000);
    assert(segment::block_bytes(1) == 0x80_0000);
    assert(segment::block_bytes(2) == 0x100_0000);
    assert(segment::block_bytes(3) == 0x200_0000);
    assert(segment::block_bytes(4) == 0x400_0000);
    law_free_blocks_are_counted(word, 0, hi);
    law_free_blocks_are_counted(word, 1, hi);
    law_free_blocks_are_counted(word, 2, hi);
    law_free_blocks_are_counted(word, 3, hi);
    law_free_blocks_are_counted(word, 4, hi);
}

} // verus!
