//! Live large allocations never share a byte.

use crate::big_allocations::big_allocation;
use crate::big_allocations::big_allocation::BigHeap;
use crate::big_allocations::buddy;
use crate::big_allocations::buddy::Allocation;
use crate::big_allocations::buddy::BuddyAllocator;
use crate::big_allocations::buddy::BuddyOutcome;
use crate::big_allocations::buddy::Growth;
use crate::big_allocations::buddy::Region;
use crate::big_allocations::segment;
use crate::big_allocations::segment::Segment;
use crate::big_allocations::segment::BIG_BUDDY_MAX_ORDER;
use crate::big_allocations::segment::BIG_BUDDY_MIN_ORDER;
use crate::big_allocations::segment::BUDDY_NUM_ORDERS;
use crate::big_allocations::segment::SEGMENT_BYTES;
use crate::big_allocations::segment::SLOT_BYTES;
use crate::big_allocations::segment_trim;
use crate::big_allocations::segment_trim::TrimPolicy;
use crate::big_allocations::segment_trim::TrimStats;
use crate::inner::realloc;
use crate::inner::realloc::ReallocStep;
use crate::utility::PAGE_SIZE;
use crate::BigAllocMeta;
use vstd::prelude::*;

verus! {

/// Two ranges share no byte.
pub open spec fn ranges_apart(a: int, a_len: int, b: int, b_len: int) -> bool {
    a + a_len <= b || b + b_len <= a
}

/// The live large allocations and the allocator that holds most of them.
pub struct LiveView {
    pub map: Map<usize, BigAllocMeta>,
    pub buddy: BuddyAllocator,
    pub header: usize,
    pub disable_thp: bool,
}

/// What is live in a heap.
pub open spec fn live_in(h: &BigHeap) -> LiveView {
    LiveView { map: h.map@, buddy: h.buddy, header: h.header, disable_thp: h.disable_thp }
}

/// Bytes under the payload at `p`, its header included.
pub open spec fn live_len(h: LiveView, p: usize) -> int {
    let meta = h.map[p];
    if meta.buddy_region != 0 {
        segment::block_bytes(meta.order - BIG_BUDDY_MIN_ORDER)
    } else {
        big_allocation::mapping_size(meta.size + h.header, h.disable_thp)
    }
}

/// Where the bytes under the payload at `p` start.
pub open spec fn live_start(h: LiveView, p: usize) -> int {
    p - h.header
}

/// All slots of the block of the given order at `addr` are taken in a segment.
pub open spec fn holds(s: Segment, addr: int, order: int) -> bool {
    &&& segment::block_at(s.start() as int, addr, order)
    &&& forall|i: int|
        segment::in_block(i, segment::slot_of(s.start() as int, addr), order) ==> #[trigger]
            segment::busy(s.word(), i)
}

/// The block at `addr` belongs to segment `k` of region `r` of node `n`.
pub open spec fn backs(
    b: &BuddyAllocator,
    n: int,
    r: int,
    k: int,
    region: int,
    addr: int,
    order: int,
) -> bool {
    &&& b.has(n, r, k)
    &&& b.at(n, r, k).start() == region
    &&& holds(b.at(n, r, k), addr, order)
}

/// The block of the given order at `addr` is taken in a segment at `region`.
pub open spec fn backed_at(b: &BuddyAllocator, region: int, addr: int, order: int) -> bool {
    exists|n: int, r: int, k: int| #[trigger] backs(b, n, r, k, region, addr, order)
}

/// The payload at `p` lies in a block that is taken in its segment.
pub open spec fn backed(h: LiveView, p: usize) -> bool {
    backed_at(
        &h.buddy,
        h.map[p].buddy_region as int,
        live_start(h, p),
        h.map[p].order - BIG_BUDDY_MIN_ORDER,
    )
}

/// What is live lies in taken blocks of the buddy allocator or outside of all its regions.
pub open spec fn placed(h: LiveView, p: usize) -> bool {
    if h.map[p].buddy_region != 0 {
        backed(h, p)
    } else {
        h.buddy.unmapped(live_start(h, p), live_len(h, p))
    }
}

/// The live allocations are where they should be, and no two of them share a byte.
pub open spec fn live_apart(h: LiveView) -> bool {
    &&& forall|p: usize| #[trigger] h.map.dom().contains(p) ==> placed(h, p)
    &&& forall|p: usize, q: usize|
        #![trigger h.map.dom().contains(p), h.map.dom().contains(q)]
        h.map.dom().contains(p) && h.map.dom().contains(q) && p != q ==> ranges_apart(
            live_start(h, p),
            live_len(h, p),
            live_start(h, q),
            live_len(h, q),
        )
}

/// The segments of `before` other than one are the same in `after`.
pub open spec fn others_kept(
    before: &BuddyAllocator,
    after: &BuddyAllocator,
    n: int,
    r: int,
    k: int,
) -> bool {
    forall|m: int, q: int, j: int|
        before.has(m, q, j) && !(m == n && q == r && j == k) ==> after.has(m, q, j)
            && #[trigger] after.at(m, q, j) == before.at(m, q, j)
}

/// A block inside a segment lies inside the region of the segment.
pub proof fn lemma_inside_region(b: &BuddyAllocator, n: int, r: int, k: int, addr: int, order: int)
    requires
        b.wf(),
        b.has(n, r, k),
        segment::block_at(b.at(n, r, k).start() as int, addr, order),
    ensures
        b.has_region(n, r),
        b.region(n, r).start() <= addr,
        addr + segment::block_bytes(order) <= b.region(n, r).start() + b.region(n, r).len(),
{
    segment::law_block_in_segment(b.at(n, r, k).start() as int, addr, order);
    assert(b.nodes()[n].wf());
    let region = b.nodes()[n].regions()[r];
    assert(region.wf());
    assert(region.segments()[k].start() == region.start() + k * SEGMENT_BYTES);
    assert((k + 1) * 0x400_0000 <= region.segments().len() * 0x400_0000);
}

/// Blocks of one segment with disjoint slots share no byte.
proof fn lemma_slots_apart(base: int, a: int, a_order: int, b: int, b_order: int)
    requires
        segment::block_at(base, a, a_order),
        segment::block_at(base, b, b_order),
        forall|i: int|
            segment::in_block(i, segment::slot_of(base, a), a_order) ==> !#[trigger]
                segment::in_block(i, segment::slot_of(base, b), b_order),
    ensures
        ranges_apart(a, segment::block_bytes(a_order), b, segment::block_bytes(b_order)),
{
    let s = segment::slot_of(base, a);
    let t = segment::slot_of(base, b);
    lemma_slot_address(base, a, a_order);
    lemma_slot_address(base, b, b_order);
    if s <= t {
        assert(!(segment::in_block(t, s, a_order) && segment::in_block(t, t, b_order)));
        assert(segment::in_block(t, t, b_order));
        if segment::in_block(t, s, a_order) {
            assert(!segment::in_block(t, t, b_order));
        }
    } else {
        assert(segment::in_block(s, s, a_order));
        assert(!segment::in_block(s, t, b_order));
    }
}

/// The address of a block follows from its slot.
proof fn lemma_slot_address(base: int, addr: int, order: int)
    requires
        segment::block_at(base, addr, order),
    ensures
        addr == base + segment::slot_of(base, addr) * SLOT_BYTES,
        segment::block_bytes(order) == segment::span(order) * SLOT_BYTES,
{
    let d = addr - base;
    if order == 0 {
        assert(d % 0x40_0000 == 0);
    } else if order == 1 {
        assert(d % 0x80_0000 == 0 ==> d % 0x40_0000 == 0);
    } else if order == 2 {
        assert(d % 0x100_0000 == 0 ==> d % 0x40_0000 == 0);
    } else if order == 3 {
        assert(d % 0x200_0000 == 0 ==> d % 0x40_0000 == 0);
    } else {
        assert(d % 0x400_0000 == 0 ==> d % 0x40_0000 == 0);
    }
}

/// Blocks that share no byte share no slot.
proof fn lemma_apart_slots(base: int, a: int, a_order: int, b: int, b_order: int, i: int)
    requires
        segment::block_at(base, a, a_order),
        segment::block_at(base, b, b_order),
        ranges_apart(a, segment::block_bytes(a_order), b, segment::block_bytes(b_order)),
        segment::in_block(i, segment::slot_of(base, a), a_order),
    ensures
        !segment::in_block(i, segment::slot_of(base, b), b_order),
{
    lemma_slot_address(base, a, a_order);
    lemma_slot_address(base, b, b_order);
}

/// A block that is taken from free slots keeps what is live apart.
proof fn lemma_block_added(
    before: LiveView,
    after: LiveView,
    n: int,
    r: int,
    k: int,
    seg: Segment,
    order: int,
    b: Allocation,
    size: usize,
    aligned: bool,
)
    requires
        before.buddy.wf(),
        after.buddy.wf(),
        before.header <= PAGE_SIZE,
        after.header == before.header,
        after.disable_thp == before.disable_thp,
        live_apart(before),
        0 <= order < BUDDY_NUM_ORDERS,
        b.sound(),
        seg.wf(),
        after.buddy.has(n, r, k),
        buddy::block_from(seg, after.buddy.at(n, r, k), order, b),
        (before.buddy.has(n, r, k) && before.buddy.at(n, r, k) == seg) || (!before.buddy.has(n, r, k)
            && forall|p: usize| #[trigger]
            before.map.dom().contains(p) ==> ranges_apart(
                live_start(before, p),
                live_len(before, p),
                seg.start() as int,
                SEGMENT_BYTES as int,
            )),
        others_kept(&before.buddy, &after.buddy, n, r, k),
        forall|p: usize| #[trigger]
            before.map.dom().contains(p) && before.map[p].buddy_region == 0
                ==> after.buddy.unmapped(live_start(before, p), live_len(before, p)),
        after.map == before.map.insert(
            (b.addr + before.header) as usize,
            BigAllocMeta { size, order: b.order, buddy_region: b.region, aligned },
        ),
    ensures
        live_apart(after),
{
    let payload = (b.addr + before.header) as usize;
    let meta = BigAllocMeta { size, order: b.order, buddy_region: b.region, aligned };
    assert(payload == b.addr + before.header);
    let now = after.buddy.at(n, r, k);
    buddy::law_served_block_can_be_freed(seg, now, order, b);
    assert(segment::block_at(now.start() as int, b.addr as int, order));
    assert(holds(now, b.addr as int, order));
    assert(after.map[payload] == meta);
    assert(live_start(after, payload) == b.addr);
    assert(live_len(after, payload) == segment::block_bytes(order));
    assert(backs(&after.buddy, n, r, k, b.region as int, b.addr as int, order));
    assert(placed(after, payload));
    segment::law_block_in_segment(seg.start() as int, b.addr as int, order);
    assert forall|q: usize| #[trigger] before.map.dom().contains(q) implies ranges_apart(
        b.addr as int,
        segment::block_bytes(order),
        live_start(before, q),
        live_len(before, q),
    ) by {
        assert(placed(before, q));
        if before.buddy.has(n, r, k) {
            let other = before.map[q];
            if other.buddy_region == 0 {
                lemma_inside_region(&after.buddy, n, r, k, b.addr as int, order);
                let region = after.buddy.region(n, r);
                assert(after.buddy.unmapped(live_start(before, q), live_len(before, q)));
            } else {
                let o = other.order - BIG_BUDDY_MIN_ORDER;
                let addr = live_start(before, q);
                let (m, s, j) = choose|m: int, s: int, j: int| #[trigger]
                    backs(&before.buddy, m, s, j, other.buddy_region as int, addr, o);
                if m == n && s == r && j == k {
                    let base = seg.start() as int;
                    assert forall|i: int|
                        segment::in_block(
                            i,
                            segment::slot_of(base, b.addr as int),
                            order,
                        ) implies !#[trigger] segment::in_block(
                        i,
                        segment::slot_of(base, addr),
                        o,
                    ) by {
                        assert(!segment::busy(seg.word(), i));
                    }
                    lemma_slots_apart(base, b.addr as int, order, addr, o);
                } else {
                    assert(segment::block_at(
                        before.buddy.at(n, r, k).start() as int,
                        b.addr as int,
                        order,
                    ));
                    buddy::law_blocks_of_segments_are_apart(
                        &before.buddy,
                        n,
                        r,
                        k,
                        b.addr as int,
                        order,
                        m,
                        s,
                        j,
                        addr,
                        o,
                    );
                }
            }
        }
    }
    assert forall|p: usize| #[trigger] after.map.dom().contains(p) implies placed(after, p) by {
        if p != payload {
            assert(before.map.dom().contains(p));
            assert(placed(before, p));
            assert(after.map[p] == before.map[p]);
            let other = before.map[p];
            if other.buddy_region != 0 {
                let o = other.order - BIG_BUDDY_MIN_ORDER;
                let addr = live_start(before, p);
                let (m, s, j) = choose|m: int, s: int, j: int| #[trigger]
                    backs(&before.buddy, m, s, j, other.buddy_region as int, addr, o);
                if !(m == n && s == r && j == k) {
                    assert(after.buddy.at(m, s, j) == before.buddy.at(m, s, j));
                } else {
                    assert forall|i: int|
                        segment::in_block(i, segment::slot_of(now.start() as int, addr), o) implies
                        #[trigger] segment::busy(now.word(), i) by {
                        assert(segment::busy(seg.word(), i));
                    }
                    assert(holds(now, addr, o));
                }
                assert(backs(&after.buddy, m, s, j, other.buddy_region as int, addr, o));
                assert(live_start(after, p) == addr);
                assert(backed(after, p));
            } else {
                assert(live_start(after, p) == live_start(before, p));
                assert(live_len(after, p) == live_len(before, p));
            }
        }
    }
    assert forall|p: usize, q: usize|
        #![trigger after.map.dom().contains(p), after.map.dom().contains(q)]
        after.map.dom().contains(p) && after.map.dom().contains(q) && p != q implies ranges_apart(
        live_start(after, p),
        live_len(after, p),
        live_start(after, q),
        live_len(after, q),
    ) by {
        if p != payload && q != payload {
            assert(before.map.dom().contains(p) && before.map.dom().contains(q));
        } else if p == payload {
            assert(before.map.dom().contains(q));
        } else {
            assert(before.map.dom().contains(p));
        }
    }
}

/// Regions of `after` are regions of `before`.
proof fn lemma_same_regions(before: &BuddyAllocator, after: &BuddyAllocator, n: int, r: int, k: int)
    requires
        before.same_but_node(after, n),
        0 <= n < before.nodes().len(),
        before.nodes()[n].same_but(&after.nodes()[n], r, k),
    ensures
        others_kept(before, after, n, r, k),
        forall|a: int, b: int|
            before.unmapped(a, b) ==> #[trigger] after.unmapped(a, b),
        forall|m: int, q: int, j: int|
            #![trigger after.has(m, q, j)]
            before.has(m, q, j) == after.has(m, q, j),
{
    assert forall|m: int, q: int, j: int|
        before.has(m, q, j) && !(m == n && q == r && j == k) implies after.has(m, q, j)
        && #[trigger] after.at(m, q, j) == before.at(m, q, j) by {
        if m == n {
            assert(after.nodes()[n].at(q, j) == before.nodes()[n].at(q, j));
            assert(after.nodes()[n].regions()[q].start() == before.nodes()[n].regions()[q].start());
        } else {
            assert(after.nodes()[m] == before.nodes()[m]);
        }
    }
    assert forall|m: int, q: int, j: int|
        #![trigger after.has(m, q, j)]
        before.has(m, q, j) == after.has(m, q, j) by {
        if m == n {
            if 0 <= q < before.nodes()[n].regions().len() {
                assert(after.nodes()[n].regions()[q].start()
                    == before.nodes()[n].regions()[q].start());
            }
        } else if 0 <= m < before.nodes().len() {
            assert(after.nodes()[m] == before.nodes()[m]);
        }
    }
    assert forall|a: int, b: int| before.unmapped(a, b) implies #[trigger] after.unmapped(a, b) by {
        assert forall|m: int, q: int| after.has_region(m, q) implies a + b <= (
        #[trigger] after.region(m, q)).start() || after.region(m, q).start() + after.region(
            m,
            q,
        ).len() <= a by {
            assert(before.has_region(m, q)) by {
                if m != n {
                    assert(after.nodes()[m] == before.nodes()[m]);
                }
            }
            if m == n {
                assert(after.nodes()[n].regions()[q].start()
                    == before.nodes()[n].regions()[q].start());
            } else {
                assert(after.nodes()[m] == before.nodes()[m]);
            }
            assert(a + b <= before.region(m, q).start() || before.region(m, q).start()
                + before.region(m, q).len() <= a);
        }
    }
}

/// A payload from the buddy allocator shares no byte with any other live one.
pub proof fn law_served_payload_is_apart(
    before: &BigHeap,
    after: &BigHeap,
    size: usize,
    aligned: bool,
    node_id: u16,
    cpu_id: usize,
    b: Allocation,
)
    requires
        before.wf(),
        after.wf(),
        live_apart(live_in(before)),
        before.same_settings(after),
        b.sound(),
        before.buddy.allocated(
            &after.buddy,
            before.total(size as int),
            node_id,
            cpu_id as int,
            BuddyOutcome::Served(b),
        ),
        before.recorded(after, size, aligned, b),
    ensures
        live_apart(live_in(after)),
{
    let n = before.buddy.home(node_id);
    let lane = cpu_id as int % before.buddy.lanes();
    let order = b.order - BIG_BUDDY_MIN_ORDER;
    lemma_served(before, after, n, lane, order, b, size, aligned);
}

proof fn lemma_served(
    before: &BigHeap,
    after: &BigHeap,
    n: int,
    lane: int,
    order: int,
    b: Allocation,
    size: usize,
    aligned: bool,
)
    requires
        before.wf(),
        after.wf(),
        live_apart(live_in(before)),
        before.same_settings(after),
        b.sound(),
        0 <= order < BUDDY_NUM_ORDERS,
        0 <= n < before.buddy.nodes().len(),
        before.buddy.same_but_node(&after.buddy, n),
        before.buddy.nodes()[n].served(&after.buddy.nodes()[n], order, lane, b),
        before.recorded(after, size, aligned, b),
    ensures
        live_apart(live_in(after)),
{
    let node = before.buddy.nodes()[n];
    let node_after = after.buddy.nodes()[n];
    let (r, k) = choose|r: int, k: int|
        {
            &&& #[trigger] node.serves(order, lane, r, k)
            &&& node.same_but(&node_after, r, k)
            &&& buddy::block_from(node.at(r, k), node_after.at(r, k), order, b)
            &&& node_after.hint(lane, order) == Some((r as usize, k as usize))
        };
    lemma_same_regions(&before.buddy, &after.buddy, n, r, k);
    assert(before.buddy.has(n, r, k));
    assert(after.buddy.has(n, r, k));
    assert(node.wf());
    assert(node.regions()[r].wf());
    assert(node.regions()[r].segments()[k].wf());
    assert forall|p: usize| #[trigger]
        before.map@.dom().contains(p) && before.map@[p].buddy_region
            == 0 implies after.buddy.unmapped(live_start(live_in(before), p), live_len(live_in(before), p)) by {
        assert(placed(live_in(before), p));
    }
    lemma_block_added(live_in(before), live_in(after), n, r, k, node.at(r, k), order, b, size, aligned);
}

/// A payload from a new region, or from another node, shares no byte with any other live one; the
/// region has to be new to what is live.
pub proof fn law_expanded_payload_is_apart(
    before: &BigHeap,
    after: &BigHeap,
    size: usize,
    aligned: bool,
    growth: Growth,
    data: Option<usize>,
    b: Allocation,
)
    requires
        before.wf(),
        after.wf(),
        live_apart(live_in(before)),
        before.same_settings(after),
        b.sound(),
        growth.node < before.buddy.nodes().len(),
        growth.order < BUDDY_NUM_ORDERS,
        before.buddy.expanded(&after.buddy, growth, data, Some(b)),
        data matches Some(base) ==> forall|p: usize| #[trigger]
            before.map@.dom().contains(p) ==> ranges_apart(
                live_start(live_in(before), p),
                live_len(live_in(before), p),
                base as int,
                SEGMENT_BYTES as int,
            ),
        before.recorded(after, size, aligned, b),
    ensures
        live_apart(live_in(after)),
{
    match data {
        None => {
            let i = choose|i: int|
                {
                    let n = before.buddy.active()[i] as int;
                    &&& 0 <= i < before.buddy.active().len()
                    &&& before.buddy.can_help(#[trigger] before.buddy.active()[i], growth)
                    &&& forall|j: int|
                        0 <= j < i ==> !before.buddy.can_help(
                            #[trigger] before.buddy.active()[j],
                            growth,
                        )
                    &&& before.buddy.same_but_node(&after.buddy, n)
                    &&& before.buddy.nodes()[n].served(
                        &after.buddy.nodes()[n],
                        growth.order as int,
                        growth.lane as int,
                        b,
                    )
                    &&& before.buddy.nodes()[n].hints_but(
                        &after.buddy.nodes()[n],
                        growth.lane as int,
                        growth.order as int,
                    )
                };
            let n = before.buddy.active()[i] as int;
            lemma_served(
                before,
                after,
                n,
                growth.lane as int,
                growth.order as int,
                b,
                size,
                aligned,
            );
        },
        Some(base) => {
            let n = growth.node as int;
            let node = before.buddy.nodes()[n];
            let node_after = after.buddy.nodes()[n];
            let region = choose|region: Region|
                {
                    &&& region.start() == base
                    &&& region.len() == SEGMENT_BYTES
                    &&& region.segments()[0].word() == 0
                    &&& #[trigger] node.extended(
                        &node_after,
                        region,
                        growth.order as int,
                        growth.lane as int,
                        b,
                    )
                };
            let last = node.regions().len() as int;
            let seg = region.segments()[0];
            assert(node_after.wf());
            let fresh = node_after.regions()[last];
            assert(fresh.wf());
            assert(fresh.segments()[0].wf());
            assert(fresh.segments()[0].start() == fresh.start() + 0 * SEGMENT_BYTES);
            assert(after.buddy.has(n, last, 0));
            assert(seg.start() == base);
            assert(seg.stamps() == fresh.segments()[0].stamps());
            assert forall|m: int, q: int, j: int|
                before.buddy.has(m, q, j) && !(m == n && q == last && j
                    == 0) implies after.buddy.has(m, q, j) && #[trigger] after.buddy.at(m, q, j)
                == before.buddy.at(m, q, j) by {
                if m == n {
                    assert(node_after.at(q, j) == node.at(q, j));
                    assert(node_after.regions()[q].start() == node.regions()[q].start());
                } else {
                    assert(after.buddy.nodes()[m] == before.buddy.nodes()[m]);
                }
            }
            assert forall|p: usize| #[trigger]
                before.map@.dom().contains(p) && before.map@[p].buddy_region
                    == 0 implies after.buddy.unmapped(
                live_start(live_in(before), p),
                live_len(live_in(before), p),
            ) by {
                assert(placed(live_in(before), p));
                let a = live_start(live_in(before), p);
                let len = live_len(live_in(before), p);
                assert forall|m: int, q: int| after.buddy.has_region(m, q) implies a + len <= (
                #[trigger] after.buddy.region(m, q)).start() || after.buddy.region(m, q).start()
                    + after.buddy.region(m, q).len() <= a by {
                    if m == n && q == last {
                    } else if m == n {
                        assert(node_after.regions()[q].start() == node.regions()[q].start());
                        assert(before.buddy.has_region(m, q));
                        assert(a + len <= before.buddy.region(m, q).start()
                            || before.buddy.region(m, q).start() + before.buddy.region(m, q).len()
                            <= a);
                    } else {
                        assert(after.buddy.nodes()[m] == before.buddy.nodes()[m]);
                        assert(before.buddy.has_region(m, q));
                        assert(a + len <= before.buddy.region(m, q).start()
                            || before.buddy.region(m, q).start() + before.buddy.region(m, q).len()
                            <= a);
                    }
                }
            }
            lemma_block_added(
                live_in(before),
                live_in(after),
                n,
                last,
                0,
                seg,
                growth.order as int,
                b,
                size,
                aligned,
            );
        },
    }
}

/// Everything that is taken in one segment is taken in the other, at the same place.
pub open spec fn slots_taken(before: Segment, after: Segment) -> bool {
    &&& after.start() == before.start()
    &&& forall|i: int|
        segment::busy(before.word(), i) ==> #[trigger] segment::busy(after.word(), i)
}

/// Everything that is taken in `before` is taken in `after`, at the same places.
pub open spec fn only_taken(before: &BuddyAllocator, after: &BuddyAllocator) -> bool {
    &&& forall|m: int, q: int, j: int| before.has(m, q, j) ==> #[trigger] after.has(m, q, j)
    &&& forall|m: int, q: int, j: int|
        before.has(m, q, j) ==> #[trigger] slots_taken(before.at(m, q, j), after.at(m, q, j))
    &&& forall|a: int, b: int| before.unmapped(a, b) ==> #[trigger] after.unmapped(a, b)
}

/// Taking more slots keeps what is live apart.
proof fn lemma_only_taken(before: LiveView, after: LiveView)
    requires
        live_apart(before),
        only_taken(&before.buddy, &after.buddy),
        after.map == before.map,
        after.header == before.header,
        after.disable_thp == before.disable_thp,
    ensures
        live_apart(after),
{
    assert forall|p: usize| #[trigger] after.map.dom().contains(p) implies placed(after, p) by {
        assert(before.map.dom().contains(p));
        lemma_still_placed(before, after, p);
    }
    assert forall|p: usize, q: usize|
        #![trigger after.map.dom().contains(p), after.map.dom().contains(q)]
        after.map.dom().contains(p) && after.map.dom().contains(q) && p != q implies ranges_apart(
        live_start(after, p),
        live_len(after, p),
        live_start(after, q),
        live_len(after, q),
    ) by {
        assert(before.map.dom().contains(p) && before.map.dom().contains(q));
    }
}

/// Segments that start at the same address are the same one.
proof fn lemma_one_segment(b: &BuddyAllocator, n: int, r: int, k: int, m: int, q: int, j: int)
    requires
        b.wf(),
        b.has(n, r, k),
        b.has(m, q, j),
        b.at(n, r, k).start() == b.at(m, q, j).start(),
    ensures
        n == m && r == q && k == j,
{
    if !(n == m && r == q && k == j) {
        buddy::law_segments_are_apart(b, n, r, k, m, q, j);
    }
}

/// A freed block leaves the other live allocations as they were.
proof fn lemma_block_freed(before: LiveView, after: LiveView, p: usize, stamp: u32)
    requires
        before.buddy.wf(),
        live_apart(before),
        before.map.dom().contains(p),
        before.map[p].buddy_region != 0,
        after.header == before.header,
        after.disable_thp == before.disable_thp,
        before.buddy.freed(
            &after.buddy,
            before.map[p].buddy_region as int,
            live_start(before, p),
            before.map[p].order as int,
            stamp,
        ),
        after.map == before.map.remove(p),
    ensures
        live_apart(after),
{
    let meta = before.map[p];
    let order = meta.order - BIG_BUDDY_MIN_ORDER;
    let addr = live_start(before, p);
    let region = meta.buddy_region as int;
    assert(placed(before, p));
    let (n, r, k) = choose|n: int, r: int, k: int| #[trigger]
        backs(&before.buddy, n, r, k, region, addr, order);
    assert(before.buddy.has_segment(region));
    let (n2, r2, k2) = choose|n: int, r: int, k: int|
        {
            &&& before.buddy.has(n, r, k)
            &&& before.buddy.at(n, r, k).start() == region
            &&& #[trigger] before.buddy.same_but(&after.buddy, n, r, k)
            &&& buddy::block_returned(
                before.buddy.at(n, r, k),
                after.buddy.at(n, r, k),
                addr,
                order,
                stamp,
            )
        };
    lemma_one_segment(&before.buddy, n, r, k, n2, r2, k2);
    lemma_same_regions(&before.buddy, &after.buddy, n, r, k);
    let seg = before.buddy.at(n, r, k);
    let now = after.buddy.at(n, r, k);
    assert forall|q: usize| #[trigger] after.map.dom().contains(q) implies placed(after, q) by {
        assert(before.map.dom().contains(q) && before.map.dom().contains(p));
        assert(placed(before, q));
        let other = before.map[q];
        if other.buddy_region != 0 {
            let o = other.order - BIG_BUDDY_MIN_ORDER;
            let a = live_start(before, q);
            let (m, s, j) = choose|m: int, s: int, j: int| #[trigger]
                backs(&before.buddy, m, s, j, other.buddy_region as int, a, o);
            assert(after.buddy.has(m, s, j));
            if !(m == n && s == r && j == k) {
                assert(after.buddy.at(m, s, j) == before.buddy.at(m, s, j));
            } else {
                assert forall|i: int|
                    segment::in_block(i, segment::slot_of(now.start() as int, a), o) implies
                    #[trigger] segment::busy(now.word(), i) by {
                    assert(segment::busy(seg.word(), i));
                    lemma_apart_slots(seg.start() as int, a, o, addr, order, i);
                }
                assert(holds(now, a, o));
            }
            assert(backs(&after.buddy, m, s, j, other.buddy_region as int, a, o));
            assert(live_start(after, q) == a);
            assert(backed(after, q));
        } else {
            assert(live_start(after, q) == live_start(before, q));
            assert(live_len(after, q) == live_len(before, q));
        }
    }
    assert forall|a: usize, q: usize|
        #![trigger after.map.dom().contains(a), after.map.dom().contains(q)]
        after.map.dom().contains(a) && after.map.dom().contains(q) && a != q implies ranges_apart(
        live_start(after, a),
        live_len(after, a),
        live_start(after, q),
        live_len(after, q),
    ) by {
        assert(before.map.dom().contains(a) && before.map.dom().contains(q));
    }
}

/// A live allocation is replaced by a mapping that nothing else uses; others stay as they were.
proof fn lemma_mapping_recorded(
    before: LiveView,
    after: LiveView,
    gone: usize,
    p: usize,
    meta: BigAllocMeta,
)
    requires
        live_apart(before),
        meta.buddy_region == 0,
        after.header == before.header,
        after.disable_thp == before.disable_thp,
        after.buddy == before.buddy,
        after.map == before.map.remove(gone).insert(p, meta),
        before.buddy.unmapped(
            p - before.header,
            big_allocation::mapping_size(meta.size + before.header, before.disable_thp),
        ),
        forall|q: usize| #[trigger]
            before.map.dom().contains(q) && q != gone ==> ranges_apart(
                p - before.header,
                big_allocation::mapping_size(meta.size + before.header, before.disable_thp),
                live_start(before, q),
                live_len(before, q),
            ),
    ensures
        live_apart(after),
{
    assert forall|q: usize| #[trigger] after.map.dom().contains(q) implies placed(after, q) by {
        if q != p {
            assert(before.map.dom().contains(q));
            assert(placed(before, q));
            assert(after.map[q] == before.map[q]);
            if before.map[q].buddy_region != 0 {
                assert(backed(before, q));
                assert(backed(after, q));
            } else {
                assert(live_start(after, q) == live_start(before, q));
                assert(live_len(after, q) == live_len(before, q));
            }
        }
    }
    assert forall|a: usize, q: usize|
        #![trigger after.map.dom().contains(a), after.map.dom().contains(q)]
        after.map.dom().contains(a) && after.map.dom().contains(q) && a != q implies ranges_apart(
        live_start(after, a),
        live_len(after, a),
        live_start(after, q),
        live_len(after, q),
    ) by {
        if a != p {
            assert(before.map.dom().contains(a));
        }
        if q != p {
            assert(before.map.dom().contains(q));
        }
    }
}

/// A block that doubled in place keeps what is live apart.
#[verifier::rlimit(30)]
proof fn lemma_block_grown(
    before: LiveView,
    after: LiveView,
    p: usize,
    res: Option<(usize, usize)>,
    size: usize,
)
    requires
        before.buddy.wf(),
        live_apart(before),
        before.map.dom().contains(p),
        before.map[p].buddy_region != 0,
        p >= before.header,
        after.header == before.header,
        after.disable_thp == before.disable_thp,
        before.buddy.grown(
            &after.buddy,
            before.map[p].buddy_region as int,
            (p - before.header) as usize,
            before.map[p].order,
            res,
        ),
        res is Some ==> after.map == before.map.insert(
            p,
            BigAllocMeta {
                size,
                order: (before.map[p].order + 1) as usize,
                buddy_region: before.map[p].buddy_region,
                aligned: before.map[p].aligned,
            },
        ),
    ensures
        only_taken(&before.buddy, &after.buddy),
        res is Some ==> live_apart(after),
        res is Some ==> before.map[p].order < BIG_BUDDY_MAX_ORDER,
{
    let meta = before.map[p];
    let order = meta.order - BIG_BUDDY_MIN_ORDER;
    let addr = live_start(before, p);
    let region = meta.buddy_region as int;
    assert(placed(before, p));
    let (n, r, k) = choose|n: int, r: int, k: int| #[trigger]
        backs(&before.buddy, n, r, k, region, addr, order);
    assert(before.buddy.has_segment(region));
    if meta.order >= BIG_BUDDY_MAX_ORDER {
        lemma_same_taken(&before.buddy, &after.buddy);
    } else {
        let (n2, r2, k2) = choose|n: int, r: int, k: int|
            {
                let small = meta.order - BIG_BUDDY_MIN_ORDER;
                &&& before.buddy.has(n, r, k)
                &&& before.buddy.at(n, r, k).start() == region
                &&& #[trigger] before.buddy.same_but(&after.buddy, n, r, k)
                &&& buddy::block_grown(
                    before.buddy.at(n, r, k),
                    after.buddy.at(n, r, k),
                    ((p - before.header) as usize) as int,
                    small,
                )
                &&& res == (if buddy::grows(
                    before.buddy.at(n, r, k),
                    ((p - before.header) as usize) as int,
                    small,
                ) {
                    Some(((p - before.header) as usize, (meta.order + 1) as usize))
                } else {
                    None
                })
            };
        lemma_one_segment(&before.buddy, n, r, k, n2, r2, k2);
        lemma_same_regions(&before.buddy, &after.buddy, n, r, k);
        let seg = before.buddy.at(n, r, k);
        let now = after.buddy.at(n, r, k);
        let base = seg.start() as int;
        assert forall|m: int, q: int, j: int| before.buddy.has(m, q, j) implies #[trigger]
        slots_taken(before.buddy.at(m, q, j), after.buddy.at(m, q, j)) by {
            assert(after.buddy.has(m, q, j));
            if !(m == n && q == r && j == k) {
                assert(after.buddy.at(m, q, j) == before.buddy.at(m, q, j));
            }
        }
        if res is Some {
            segment::law_grow_doubles(seg.word(), now.word(), base, addr, order);
            assert(holds(now, addr, order + 1));
            assert(backs(&after.buddy, n, r, k, region, addr, order + 1));
            assert(live_start(after, p) == addr);
            assert(backed(after, p));
            lemma_growth_apart(before, p, n, r, k);
            assert forall|q: usize| #[trigger] after.map.dom().contains(q) implies placed(
                after,
                q,
            ) by {
                if q != p {
                    assert(before.map.dom().contains(q));
                    assert(placed(before, q));
                    lemma_still_placed(before, after, q);
                }
            }
            assert forall|a: usize, q: usize|
                #![trigger after.map.dom().contains(a), after.map.dom().contains(q)]
                after.map.dom().contains(a) && after.map.dom().contains(q) && a
                    != q implies ranges_apart(
                live_start(after, a),
                live_len(after, a),
                live_start(after, q),
                live_len(after, q),
            ) by {
                assert(before.map.dom().contains(a) && before.map.dom().contains(q));
            }
        }
    }
}

/// The same allocator has the same slots taken.
proof fn lemma_same_taken(before: &BuddyAllocator, after: &BuddyAllocator)
    requires
        before.same(after),
    ensures
        only_taken(before, after),
{
    assert forall|m: int, q: int, j: int| before.has(m, q, j) implies #[trigger] after.has(
        m,
        q,
        j,
    ) by {
        assert(after.nodes()[m] == before.nodes()[m]);
    }
    assert forall|m: int, q: int, j: int| before.has(m, q, j) implies #[trigger] slots_taken(
        before.at(m, q, j),
        after.at(m, q, j),
    ) by {
        assert(after.nodes()[m] == before.nodes()[m]);
    }
    assert forall|a: int, b: int| before.unmapped(a, b) implies #[trigger] after.unmapped(a, b) by {
        assert forall|m: int, q: int| after.has_region(m, q) implies a + b <= (
        #[trigger] after.region(m, q)).start() || after.region(m, q).start() + after.region(
            m,
            q,
        ).len() <= a by {
            assert(after.nodes()[m] == before.nodes()[m]);
            assert(before.has_region(m, q));
            assert(a + b <= before.region(m, q).start() || before.region(m, q).start()
                + before.region(m, q).len() <= a);
        }
    }
}

/// Slots that are taken twice in turn are taken.
proof fn lemma_taken_twice(a: &BuddyAllocator, b: &BuddyAllocator, c: &BuddyAllocator)
    requires
        only_taken(a, b),
        only_taken(b, c),
    ensures
        only_taken(a, c),
{
    assert forall|m: int, q: int, j: int| a.has(m, q, j) implies #[trigger] c.has(m, q, j) by {
        assert(b.has(m, q, j));
    }
    assert forall|m: int, q: int, j: int| a.has(m, q, j) implies #[trigger] slots_taken(
        a.at(m, q, j),
        c.at(m, q, j),
    ) by {
        assert(b.has(m, q, j));
        assert(slots_taken(a.at(m, q, j), b.at(m, q, j)));
        assert(slots_taken(b.at(m, q, j), c.at(m, q, j)));
        assert forall|i: int| segment::busy(a.at(m, q, j).word(), i) implies #[trigger]
        segment::busy(c.at(m, q, j).word(), i) by {
            assert(segment::busy(b.at(m, q, j).word(), i));
        }
    }
    assert forall|x: int, y: int| a.unmapped(x, y) implies #[trigger] c.unmapped(x, y) by {
        assert(b.unmapped(x, y));
    }
}

/// Where more slots are taken, what was placed is still placed.
proof fn lemma_still_placed(before: LiveView, after: LiveView, q: usize)
    requires
        placed(before, q),
        only_taken(&before.buddy, &after.buddy),
        after.header == before.header,
        after.disable_thp == before.disable_thp,
        after.map[q] == before.map[q],
    ensures
        placed(after, q),
{
    let meta = before.map[q];
    if meta.buddy_region != 0 {
        let o = meta.order - BIG_BUDDY_MIN_ORDER;
        let addr = live_start(before, q);
        let (m, s, j) = choose|m: int, s: int, j: int| #[trigger]
            backs(&before.buddy, m, s, j, meta.buddy_region as int, addr, o);
        let now = after.buddy.at(m, s, j);
        assert(slots_taken(before.buddy.at(m, s, j), now) && after.buddy.has(m, s, j));
        assert forall|i: int|
            segment::in_block(i, segment::slot_of(now.start() as int, addr), o) implies #[trigger]
        segment::busy(now.word(), i) by {
            assert(segment::busy(before.buddy.at(m, s, j).word(), i));
        }
        assert(backs(&after.buddy, m, s, j, meta.buddy_region as int, addr, o));
    }
}

/// The doubled block shares no byte with the other live allocations.
proof fn lemma_growth_apart(before: LiveView, p: usize, n: int, r: int, k: int)
    requires
        before.buddy.wf(),
        live_apart(before),
        before.map.dom().contains(p),
        backs(
            &before.buddy,
            n,
            r,
            k,
            before.map[p].buddy_region as int,
            live_start(before, p),
            before.map[p].order - BIG_BUDDY_MIN_ORDER,
        ),
        segment::can_grow(
            before.buddy.at(n, r, k).word(),
            before.buddy.at(n, r, k).start() as int,
            live_start(before, p),
            before.map[p].order - BIG_BUDDY_MIN_ORDER,
        ),
        before.map[p].buddy_region != 0,
    ensures
        forall|q: usize| #[trigger]
            before.map.dom().contains(q) && q != p ==> ranges_apart(
                live_start(before, p),
                segment::block_bytes(before.map[p].order - BIG_BUDDY_MIN_ORDER + 1),
                live_start(before, q),
                live_len(before, q),
            ),
{
    let order = before.map[p].order - BIG_BUDDY_MIN_ORDER;
    let addr = live_start(before, p);
    let seg = before.buddy.at(n, r, k);
    let base = seg.start() as int;
    assert forall|q: usize| #[trigger]
        before.map.dom().contains(q) && q != p implies ranges_apart(
        addr,
        segment::block_bytes(order + 1),
        live_start(before, q),
        live_len(before, q),
    ) by {
        assert(before.map.dom().contains(p));
        assert(placed(before, q));
        let other = before.map[q];
        if other.buddy_region == 0 {
            lemma_inside_region(&before.buddy, n, r, k, addr, order + 1);
            let region = before.buddy.region(n, r);
        } else {
            let o = other.order - BIG_BUDDY_MIN_ORDER;
            let a = live_start(before, q);
            let (m, s, j) = choose|m: int, s: int, j: int| #[trigger]
                backs(&before.buddy, m, s, j, other.buddy_region as int, a, o);
            if m == n && s == r && j == k {
                assert forall|i: int|
                    segment::in_block(
                        i,
                        segment::slot_of(base, addr),
                        order + 1,
                    ) implies !#[trigger] segment::in_block(i, segment::slot_of(base, a), o) by {
                    if segment::in_block(i, segment::slot_of(base, a), o) {
                        assert(segment::busy(seg.word(), i));
                        lemma_apart_slots(base, addr, order, a, o, i);
                    }
                }
                lemma_slots_apart(base, addr, order + 1, a, o);
            } else {
                buddy::law_blocks_of_segments_are_apart(
                    &before.buddy,
                    n,
                    r,
                    k,
                    addr,
                    order + 1,
                    m,
                    s,
                    j,
                    a,
                    o,
                );
            }
        }
    }
}

/// Doubling a block as often as it takes keeps what is live apart, also where it stops early.
proof fn lemma_pool_grown(
    before: LiveView,
    pool: BuddyAllocator,
    p: usize,
    size: usize,
    target: int,
    reached: Option<usize>,
)
    requires
        before.buddy.wf(),
        live_apart(before),
        before.map.dom().contains(p),
        before.map[p].buddy_region != 0,
        p >= before.header,
        realloc::pool_grown(
            before.buddy,
            pool,
            before.map[p].buddy_region as int,
            (p - before.header) as usize,
            before.map[p].order,
            target,
            reached,
        ),
    ensures
        only_taken(&before.buddy, &pool),
        reached matches Some(order) ==> live_apart(
            LiveView {
                buddy: pool,
                map: before.map.insert(
                    p,
                    BigAllocMeta {
                        size,
                        order,
                        buddy_region: before.map[p].buddy_region,
                        aligned: before.map[p].aligned,
                    },
                ),
                ..before
            },
        ),
    decreases BIG_BUDDY_MAX_ORDER - before.map[p].order,
{
    let meta = before.map[p];
    let region = meta.buddy_region as int;
    let addr = (p - before.header) as usize;
    if meta.order >= BIG_BUDDY_MAX_ORDER || target > SEGMENT_BYTES {
        lemma_same_taken(&before.buddy, &pool);
    } else {
        let (mid, res) = choose|mid: BuddyAllocator, res: Option<(usize, usize)>|
            {
                &&& #[trigger] before.buddy.grown(&mid, region, addr, meta.order, res)
                &&& mid.wf()
                &&& match res {
                    None => reached is None && mid == pool,
                    Some(_) => if realloc::pooled_bytes(meta.order + 1) >= target {
                        reached == Some((meta.order + 1) as usize) && mid == pool
                    } else {
                        realloc::pool_grown(
                            mid,
                            pool,
                            region,
                            addr,
                            (meta.order + 1) as usize,
                            target,
                            reached,
                        )
                    },
                }
            };
        let grown = BigAllocMeta {
            size,
            order: (meta.order + 1) as usize,
            buddy_region: meta.buddy_region,
            aligned: meta.aligned,
        };
        let next = LiveView { buddy: mid, map: before.map.insert(p, grown), ..before };
        lemma_block_grown(before, next, p, res, size);
        if res is Some && realloc::pooled_bytes(meta.order + 1) < target {
            lemma_pool_grown(next, pool, p, size, target, reached);
            lemma_taken_twice(&before.buddy, &mid, &pool);
            if let Some(order) = reached {
                let last = BigAllocMeta {
                    size,
                    order,
                    buddy_region: meta.buddy_region,
                    aligned: meta.aligned,
                };
                assert(next.map.insert(p, last) =~= before.map.insert(p, last));
            }
        }
    }
}

/// In a heap without allocations nothing overlaps.
pub proof fn law_empty_heap_is_apart(h: &BigHeap)
    requires
        h.map@ == Map::<usize, BigAllocMeta>::empty(),
    ensures
        live_apart(live_in(h)),
{
}

/// A mapping that nothing else uses adds a payload that shares no byte with any other live one.
pub proof fn law_mapped_payload_is_apart(
    before: &BigHeap,
    after: &BigHeap,
    base: usize,
    meta: BigAllocMeta,
)
    requires
        live_apart(live_in(before)),
        before.same_settings(after),
        after.buddy == before.buddy,
        base + before.header <= usize::MAX,
        meta.buddy_region == 0,
        after.map@ == before.map@.insert((base + before.header) as usize, meta),
        before.buddy.unmapped(base as int, before.total(meta.size as int)),
        forall|q: usize| #[trigger]
            before.map@.dom().contains(q) ==> ranges_apart(
                base as int,
                before.total(meta.size as int),
                live_start(live_in(before), q),
                live_len(live_in(before), q),
            ),
    ensures
        live_apart(live_in(after)),
{
    let p = (base + before.header) as usize;
    assert(before.map@.remove(p).insert(p, meta) =~= before.map@.insert(p, meta));
    lemma_mapping_recorded(live_in(before), live_in(after), p, p, meta);
}

/// Giving a payload back takes no byte from any other live one.
pub proof fn law_freeing_keeps_others_apart(
    before: &BigHeap,
    after: &BigHeap,
    ptr: usize,
    stamp: u32,
)
    requires
        before.wf(),
        live_apart(live_in(before)),
        before.same_settings(after),
        before.map@.dom().contains(ptr),
        after.map@ == before.map@.remove(ptr),
        before.map@[ptr].buddy_region != 0 ==> before.buddy.freed(
            &after.buddy,
            before.map@[ptr].buddy_region as int,
            ptr - before.header,
            before.map@[ptr].order as int,
            stamp,
        ),
        before.map@[ptr].buddy_region == 0 ==> after.buddy == before.buddy,
    ensures
        live_apart(live_in(after)),
{
    let b = live_in(before);
    let a = live_in(after);
    if before.map@[ptr].buddy_region != 0 {
        lemma_block_freed(b, a, ptr, stamp);
    } else {
        assert forall|q: usize| #[trigger] a.map.dom().contains(q) implies placed(a, q) by {
            assert(b.map.dom().contains(q));
            assert(placed(b, q));
            if b.map[q].buddy_region != 0 {
                assert(backed(b, q));
                assert(backed(a, q));
            }
        }
        assert forall|p: usize, q: usize|
            #![trigger a.map.dom().contains(p), a.map.dom().contains(q)]
            a.map.dom().contains(p) && a.map.dom().contains(q) && p != q implies ranges_apart(
            live_start(a, p),
            live_len(a, p),
            live_start(a, q),
            live_len(a, q),
        ) by {
            assert(b.map.dom().contains(p) && b.map.dom().contains(q));
        }
    }
}

/// A payload that grows in place takes no byte from any other live one, also where the growth stops
/// before the wanted size.
pub proof fn law_grown_payload_is_apart(
    before: &BigHeap,
    after: &BigHeap,
    ptr: usize,
    new_size: usize,
    reached: Option<usize>,
    r: ReallocStep,
)
    requires
        before.wf(),
        live_apart(live_in(before)),
        before.same_settings(after),
        before.map@.dom().contains(ptr),
        before.map@[ptr].buddy_region != 0,
        realloc::pool_grown(
            before.buddy,
            after.buddy,
            before.map@[ptr].buddy_region as int,
            (ptr - before.header) as usize,
            before.map@[ptr].order,
            before.total(new_size as int),
            reached,
        ),
        realloc::pool_answer(before, after, ptr, new_size, reached, r),
    ensures
        live_apart(live_in(after)),
{
    assert(before.meta_ok(ptr, before.map@[ptr]));
    lemma_pool_grown(
        live_in(before),
        after.buddy,
        ptr,
        new_size,
        before.total(new_size as int),
        reached,
    );
    if reached is None {
        lemma_only_taken(live_in(before), live_in(after));
    }
}

/// A mapping that was resized to bytes that nothing else uses shares no byte with any other live
/// payload.
pub proof fn law_remapped_payload_is_apart(
    before: &BigHeap,
    after: &BigHeap,
    ptr: usize,
    base: usize,
    meta: BigAllocMeta,
)
    requires
        live_apart(live_in(before)),
        before.same_settings(after),
        after.buddy == before.buddy,
        base + before.header <= usize::MAX,
        meta.buddy_region == 0,
        after.map@ == before.map@.remove(ptr).insert((base + before.header) as usize, meta),
        before.buddy.unmapped(base as int, before.total(meta.size as int)),
        forall|q: usize| #[trigger]
            before.map@.dom().contains(q) && q != ptr ==> ranges_apart(
                base as int,
                before.total(meta.size as int),
                live_start(live_in(before), q),
                live_len(live_in(before), q),
            ),
    ensures
        live_apart(live_in(after)),
{
    lemma_mapping_recorded(
        live_in(before),
        live_in(after),
        ptr,
        (base + before.header) as usize,
        meta,
    );
}

/// Where nothing was handed out, what is live stays apart.
pub proof fn law_refusal_keeps_live_apart(before: &BigHeap, after: &BigHeap)
    requires
        live_apart(live_in(before)),
        before.same_settings(after),
        after.map@ == before.map@,
        before.buddy.same(&after.buddy),
    ensures
        live_apart(live_in(after)),
{
    lemma_same_taken(&before.buddy, &after.buddy);
    lemma_only_taken(live_in(before), live_in(after));
}

/// A trim takes no block from a live allocation.
pub proof fn law_trim_keeps_live_apart<F: Fn(usize, usize) -> bool>(
    before: &BigHeap,
    after: &BigHeap,
    policy: TrimPolicy,
    advise: F,
    stats: TrimStats,
)
    requires
        live_apart(live_in(before)),
        before.same_settings(after),
        after.map@ == before.map@,
        before.buddy.trimmed(&after.buddy, policy, advise, stats),
    ensures
        live_apart(live_in(after)),
{
    let b = &before.buddy;
    let a = &after.buddy;
    assert forall|m: int, q: int, j: int| b.has(m, q, j) implies #[trigger] a.has(m, q, j) by {
        assert(buddy::node_trimmed(b.nodes(), a.nodes(), policy, advise, m));
        assert(buddy::region_trimmed(
            b.nodes()[m].regions(),
            a.nodes()[m].regions(),
            policy,
            advise,
            SLOT_BYTES * buddy::cleaned_nodes(b.nodes(), a.nodes(), m),
            q,
        ));
    }
    assert forall|m: int, q: int, j: int| b.has(m, q, j) implies #[trigger] slots_taken(
        b.at(m, q, j),
        a.at(m, q, j),
    ) by {
        assert(buddy::node_trimmed(b.nodes(), a.nodes(), policy, advise, m));
        assert(b.nodes()[m].has(q, j));
        assert(buddy::region_trimmed(
            b.nodes()[m].regions(),
            a.nodes()[m].regions(),
            policy,
            advise,
            SLOT_BYTES * buddy::cleaned_nodes(b.nodes(), a.nodes(), m),
            q,
        ));
        assert(segment_trim::kept(
            b.nodes()[m].regions()[q].segments()[j],
            a.nodes()[m].regions()[q].segments()[j],
        ));
    }
    assert forall|x: int, y: int| b.unmapped(x, y) implies #[trigger] a.unmapped(x, y) by {
        assert forall|m: int, q: int| a.has_region(m, q) implies x + y <= (#[trigger] a.region(
            m,
            q,
        )).start() || a.region(m, q).start() + a.region(m, q).len() <= x by {
            assert(buddy::node_trimmed(b.nodes(), a.nodes(), policy, advise, m));
            assert(b.has_region(m, q));
            assert(x + y <= b.region(m, q).start() || b.region(m, q).start() + b.region(
                m,
                q,
            ).len() <= x);
        }
    }
    lemma_only_taken(live_in(before), live_in(after));
}

/// The payload at `p` and what stands in front of it lie within the bytes under it.
pub open spec fn has_room(h: LiveView, p: usize) -> bool {
    &&& p >= h.header
    &&& p + h.map[p].size <= live_start(h, p) + live_len(h, p)
}

/// Every live payload has room for all the bytes that were asked for.
pub open spec fn all_have_room(h: LiveView) -> bool {
    forall|p: usize| #[trigger] h.map.dom().contains(p) ==> has_room(h, p)
}

/// In a heap without allocations every payload has room.
pub proof fn law_empty_heap_has_room(h: &BigHeap)
    requires
        h.map@ == Map::<usize, BigAllocMeta>::empty(),
    ensures
        all_have_room(live_in(h)),
{
}

/// A payload from the buddy allocator has room for all its bytes.
pub proof fn law_served_payload_has_room(
    before: &BigHeap,
    after: &BigHeap,
    size: usize,
    aligned: bool,
    node_id: u16,
    cpu_id: usize,
    b: Allocation,
)
    requires
        before.wf(),
        before.fits(size as int),
        all_have_room(live_in(before)),
        before.same_settings(after),
        b.sound(),
        before.buddy.allocated(
            &after.buddy,
            before.total(size as int),
            node_id,
            cpu_id as int,
            BuddyOutcome::Served(b),
        ),
        before.recorded(after, size, aligned, b),
    ensures
        all_have_room(live_in(after)),
        after.map@.dom().contains((b.addr + before.header) as usize),
        after.map@[(b.addr + before.header) as usize].size == size,
{
    lemma_block_recorded(before, after, size, aligned, b.order - BIG_BUDDY_MIN_ORDER, b);
}

/// A payload from a new region, or from another node, has room for all its bytes.
pub proof fn law_expanded_payload_has_room(
    before: &BigHeap,
    after: &BigHeap,
    size: usize,
    aligned: bool,
    growth: Growth,
    data: Option<usize>,
    b: Allocation,
)
    requires
        before.wf(),
        before.fits(size as int),
        all_have_room(live_in(before)),
        before.same_settings(after),
        b.sound(),
        buddy::is_order_for(before.total(size as int), growth.order as int),
        before.buddy.expanded(&after.buddy, growth, data, Some(b)),
        before.recorded(after, size, aligned, b),
    ensures
        all_have_room(live_in(after)),
        after.map@.dom().contains((b.addr + before.header) as usize),
        after.map@[(b.addr + before.header) as usize].size == size,
{
    lemma_block_recorded(before, after, size, aligned, growth.order as int, b);
}

proof fn lemma_block_recorded(
    before: &BigHeap,
    after: &BigHeap,
    size: usize,
    aligned: bool,
    order: int,
    b: Allocation,
)
    requires
        before.wf(),
        before.fits(size as int),
        all_have_room(live_in(before)),
        before.same_settings(after),
        b.sound(),
        b.order == order + BIG_BUDDY_MIN_ORDER,
        buddy::is_order_for(before.total(size as int), order),
        before.recorded(after, size, aligned, b),
    ensures
        all_have_room(live_in(after)),
        after.map@.dom().contains((b.addr + before.header) as usize),
        after.map@[(b.addr + before.header) as usize].size == size,
{
    lemma_mapping_holds(before, size as int);
    let payload = (b.addr + before.header) as usize;
    assert forall|q: usize| #[trigger] after.map@.dom().contains(q) implies has_room(
        live_in(after),
        q,
    ) by {
        if q != payload {
            assert(before.map@.dom().contains(q));
            assert(has_room(live_in(before), q));
        }
    }
}

proof fn lemma_mapping_holds(h: &BigHeap, size: int)
    requires
        h.fits(size),
        0 <= size,
    ensures
        size + h.header <= h.total(size),
{
    crate::utility::lemma_round_up(size + h.header, PAGE_SIZE as int);
    crate::utility::lemma_round_up(size + h.header, crate::big_allocation::TWO_MB as int);
}

/// A payload in a mapping of its own has room for all its bytes, after it was made as well as after
/// it was resized; `gone` is the payload that the mapping held before.
pub proof fn law_mapped_payload_has_room(
    before: &BigHeap,
    after: &BigHeap,
    gone: usize,
    base: usize,
    meta: BigAllocMeta,
)
    requires
        all_have_room(live_in(before)),
        before.same_settings(after),
        base + before.header <= usize::MAX,
        before.fits(meta.size as int),
        meta.buddy_region == 0,
        after.map@ == before.map@.remove(gone).insert((base + before.header) as usize, meta)
            || after.map@ == before.map@.insert((base + before.header) as usize, meta),
    ensures
        all_have_room(live_in(after)),
{
    lemma_mapping_holds(before, meta.size as int);
    assert forall|q: usize| #[trigger] after.map@.dom().contains(q) implies has_room(
        live_in(after),
        q,
    ) by {
        if q != (base + before.header) as usize {
            assert(before.map@.dom().contains(q));
            assert(has_room(live_in(before), q));
        }
    }
}

/// A payload that grows in place has room for all the bytes that it grew to.
pub proof fn law_grown_payload_has_room(
    before: &BigHeap,
    after: &BigHeap,
    ptr: usize,
    new_size: usize,
    reached: Option<usize>,
    r: ReallocStep,
)
    requires
        before.wf(),
        before.fits(new_size as int),
        all_have_room(live_in(before)),
        before.same_settings(after),
        before.map@.dom().contains(ptr),
        before.map@[ptr].buddy_region != 0,
        realloc::pool_grown(
            before.buddy,
            after.buddy,
            before.map@[ptr].buddy_region as int,
            (ptr - before.header) as usize,
            before.map@[ptr].order,
            before.total(new_size as int),
            reached,
        ),
        realloc::pool_answer(before, after, ptr, new_size, reached, r),
    ensures
        all_have_room(live_in(after)),
        r == ReallocStep::Done(ptr) ==> after.map@[ptr].size == new_size,
{
    assert(before.meta_ok(ptr, before.map@[ptr]));
    realloc::law_big_resize_in_place_has_room(before, after, ptr, new_size, false);
    assert forall|q: usize| #[trigger] after.map@.dom().contains(q) implies has_room(
        live_in(after),
        q,
    ) by {
        assert(before.map@.dom().contains(q));
        assert(has_room(live_in(before), q));
    }
}

/// Giving a payload back leaves all others their room.
pub proof fn law_freeing_keeps_room(before: &BigHeap, after: &BigHeap, ptr: usize)
    requires
        all_have_room(live_in(before)),
        before.same_settings(after),
        after.map@ == before.map@.remove(ptr),
    ensures
        all_have_room(live_in(after)),
{
    assert forall|q: usize| #[trigger] after.map@.dom().contains(q) implies has_room(
        live_in(after),
        q,
    ) by {
        assert(live_in(before).map.dom().contains(q));
        assert(has_room(live_in(before), q));
    }
}

} // verus!
