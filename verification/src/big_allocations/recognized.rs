//! Large payloads that were handed out are recognized when they come back.

use crate::big_allocation;
use crate::big_allocations::big_allocation as big;
use crate::big_allocations::big_allocation::BigHeap;
use crate::big_allocations::buddy;
use crate::big_allocations::buddy::Allocation;
use crate::big_allocations::buddy::BuddyAllocator;
use crate::big_allocations::buddy::BuddyOutcome;
use crate::big_allocations::buddy::Growth;
use crate::big_allocations::buddy::Region;
use crate::big_allocations::live;
use crate::big_allocations::segment;
use crate::big_allocations::segment::BIG_BUDDY_MAX_ORDER;
use crate::big_allocations::segment::BIG_BUDDY_MIN_ORDER;
use crate::big_allocations::segment::BUDDY_NUM_ORDERS;
use crate::big_allocations::segment::SEGMENT_BYTES;
use crate::inner::free;
use crate::inner::realloc;
use crate::inner::realloc::ReallocStep;
use crate::internals::l3_main_radix;
use crate::internals::l3_main_radix::RadixTree;
use crate::utility;
use crate::utility::PAGE_SIZE;
use crate::BigAllocMeta;
use vstd::prelude::*;

verus! {

/// All addresses of a range belong to the allocator.
pub open spec fn range_owned(radix: &RadixTree, start: int, len: int) -> bool {
    forall|x: int| start <= x < start + len ==> #[trigger] free::owned(radix, x)
}

/// A region starts at a page and belongs to the allocator.
pub open spec fn region_owned(radix: &RadixTree, region: Region) -> bool {
    &&& region.start() % PAGE_SIZE == 0
    &&& range_owned(radix, region.start() as int, region.len() as int)
}

/// The payload at `p` belongs to the allocator, and a mapping of its own starts at a page.
pub open spec fn payload_owned(h: &BigHeap, p: usize) -> bool {
    &&& free::owned(&h.radix, p as int)
    &&& h.map@[p].buddy_region == 0 ==> (p - h.header) % (PAGE_SIZE as int) == 0
}

/// All regions and all live payloads belong to the allocator: whatever comes back is recognized.
pub open spec fn recognized(h: &BigHeap) -> bool {
    &&& 0 < h.header < PAGE_SIZE
    &&& forall|n: int, r: int|
        h.buddy.has_region(n, r) ==> region_owned(&h.radix, #[trigger] h.buddy.region(n, r))
    &&& forall|p: usize| #[trigger] h.map@.dom().contains(p) ==> payload_owned(h, p)
}

/// Regions of `after` are regions of `before`.
pub open spec fn no_new_regions(before: &BuddyAllocator, after: &BuddyAllocator) -> bool {
    &&& forall|n: int, r: int| #[trigger] after.has_region(n, r) ==> before.has_region(n, r)
    &&& forall|n: int, r: int|
        after.has_region(n, r) ==> (#[trigger] after.region(n, r)).start() == before.region(
            n,
            r,
        ).start() && after.region(n, r).len() == before.region(n, r).len()
}

proof fn lemma_node_changed(before: &BuddyAllocator, after: &BuddyAllocator, n: int, r: int, k: int)
    requires
        before.same_but_node(after, n),
        0 <= n < before.nodes().len(),
        before.nodes()[n].same_but(&after.nodes()[n], r, k),
    ensures
        no_new_regions(before, after),
{
    assert forall|m: int, q: int| #[trigger] after.has_region(m, q) implies before.has_region(
        m,
        q,
    ) by {
        if m != n {
            assert(after.nodes()[m] == before.nodes()[m]);
        }
    }
    assert forall|m: int, q: int| after.has_region(m, q) implies (#[trigger] after.region(
        m,
        q,
    )).start() == before.region(m, q).start() && after.region(m, q).len() == before.region(
        m,
        q,
    ).len() by {
        if m != n {
            assert(after.nodes()[m] == before.nodes()[m]);
        }
    }
}

proof fn lemma_nothing_changed(before: &BuddyAllocator, after: &BuddyAllocator)
    requires
        before.same(after),
    ensures
        no_new_regions(before, after),
{
    assert forall|m: int, q: int| #[trigger] after.has_region(m, q) implies before.has_region(
        m,
        q,
    ) by {
        assert(after.nodes()[m] == before.nodes()[m]);
    }
    assert forall|m: int, q: int| after.has_region(m, q) implies (#[trigger] after.region(
        m,
        q,
    )).start() == before.region(m, q).start() && after.region(m, q).len() == before.region(
        m,
        q,
    ).len() by {
        assert(after.nodes()[m] == before.nodes()[m]);
    }
}

/// What belongs to the allocator still does where ownership only grows.
proof fn lemma_still_owned(before: &RadixTree, after: &RadixTree, x: int)
    requires
        free::owned(before, x),
        forall|chunk: int| before.owns(chunk) ==> #[trigger] after.owns(chunk),
    ensures
        free::owned(after, x),
{
}

/// A heap with no new regions and the same pages, in which every payload is an old one or lies in a
/// region, recognizes its payloads.
proof fn lemma_recognized(before: &BigHeap, after: &BigHeap, p: usize, added: bool)
    requires
        recognized(before),
        before.same_settings(after),
        no_new_regions(&before.buddy, &after.buddy),
        forall|chunk: int| before.radix.owns(chunk) ==> #[trigger] after.radix.owns(chunk),
        forall|q: usize| #[trigger]
            after.map@.dom().contains(q) && !(added && q == p) ==> before.map@.dom().contains(q)
                && after.map@[q].buddy_region == before.map@[q].buddy_region,
        added ==> payload_owned(after, p),
    ensures
        recognized(after),
{
    assert forall|n: int, r: int| after.buddy.has_region(n, r) implies region_owned(
        &after.radix,
        #[trigger] after.buddy.region(n, r),
    ) by {
        let region = before.buddy.region(n, r);
        assert(region_owned(&before.radix, region));
        assert forall|x: int|
            region.start() <= x < region.start() + region.len() implies #[trigger] free::owned(
            &after.radix,
            x,
        ) by {
            assert(free::owned(&before.radix, x));
            lemma_still_owned(&before.radix, &after.radix, x);
        }
    }
    assert forall|q: usize| #[trigger] after.map@.dom().contains(q) implies payload_owned(
        after,
        q,
    ) by {
        if !(added && q == p) {
            assert(before.map@.dom().contains(q));
            assert(payload_owned(before, q));
            lemma_still_owned(&before.radix, &after.radix, q as int);
        }
    }
}

/// The payload of a block in a region belongs to the allocator.
proof fn lemma_block_owned(h: &BigHeap, n: int, r: int, k: int, addr: int, order: int)
    requires
        h.buddy.wf(),
        h.header < PAGE_SIZE,
        h.buddy.has(n, r, k),
        region_owned(&h.radix, h.buddy.region(n, r)),
        segment::block_at(h.buddy.at(n, r, k).start() as int, addr, order),
    ensures
        free::owned(&h.radix, addr + h.header),
{
    live::lemma_inside_region(&h.buddy, n, r, k, addr, order);
    assert(segment::block_bytes(order) >= PAGE_SIZE);
    let region = h.buddy.region(n, r);
    assert(region.start() <= addr + h.header < region.start() + region.len());
}

proof fn lemma_served(
    before: &BigHeap,
    after: &BigHeap,
    n: int,
    lane: int,
    order: int,
    b: Allocation,
    size: usize,
    aligned: bool,
)
    requires
        before.wf(),
        after.wf(),
        recognized(before),
        before.same_settings(after),
        after.radix == before.radix,
        b.sound(),
        0 <= order < BUDDY_NUM_ORDERS,
        0 <= n < before.buddy.nodes().len(),
        before.buddy.same_but_node(&after.buddy, n),
        before.buddy.nodes()[n].served(&after.buddy.nodes()[n], order, lane, b),
        before.recorded(after, size, aligned, b),
    ensures
        recognized(after),
{
    let node = before.buddy.nodes()[n];
    let node_after = after.buddy.nodes()[n];
    let (r, k) = choose|r: int, k: int|
        {
            &&& #[trigger] node.serves(order, lane, r, k)
            &&& node.same_but(&node_after, r, k)
            &&& buddy::block_from(node.at(r, k), node_after.at(r, k), order, b)
            &&& node_after.hint(lane, order) == Some((r as usize, k as usize))
        };
    lemma_node_changed(&before.buddy, &after.buddy, n, r, k);
    assert(before.buddy.has(n, r, k));
    assert(node.wf());
    assert(node.regions()[r].wf());
    assert(node.regions()[r].segments()[k].wf());
    buddy::law_served_block_can_be_freed(node.at(r, k), node_after.at(r, k), order, b);
    assert(region_owned(&before.radix, before.buddy.region(n, r)));
    lemma_block_owned(before, n, r, k, b.addr as int, order);
    let p = (b.addr + before.header) as usize;
    assert(after.map@[p].buddy_region == b.region);
    assert(b.region != 0);
    lemma_recognized(before, after, p, true);
}

/// A payload from the buddy allocator is recognized when it comes back, and so are all others.
pub proof fn law_served_payload_is_recognized(
    before: &BigHeap,
    after: &BigHeap,
    size: usize,
    aligned: bool,
    node_id: u16,
    cpu_id: usize,
    b: Allocation,
)
    requires
        before.wf(),
        after.wf(),
        recognized(before),
        before.same_settings(after),
        after.radix == before.radix,
        b.sound(),
        before.buddy.allocated(
            &after.buddy,
            before.total(size as int),
            node_id,
            cpu_id as int,
            BuddyOutcome::Served(b),
        ),
        before.recorded(after, size, aligned, b),
    ensures
        recognized(after),
{
    let n = before.buddy.home(node_id);
    let lane = cpu_id as int % before.buddy.lanes();
    lemma_served(before, after, n, lane, b.order - BIG_BUDDY_MIN_ORDER, b, size, aligned);
}

/// A payload from a new region, or from another node, is recognized when it comes back, and so are
/// all others.
pub proof fn law_expanded_payload_is_recognized(
    before: &BigHeap,
    after: &BigHeap,
    size: usize,
    aligned: bool,
    growth: Growth,
    data: Option<usize>,
    b: Allocation,
)
    requires
        before.wf(),
        after.wf(),
        recognized(before),
        before.same_settings(after),
        b.sound(),
        growth.node < before.buddy.nodes().len(),
        growth.order < BUDDY_NUM_ORDERS,
        before.buddy.expanded(&after.buddy, growth, data, Some(b)),
        data is None ==> after.radix == before.radix,
        data matches Some(base) ==> base % PAGE_SIZE == 0 && l3_main_radix::valid_range(
            base as int,
            SEGMENT_BYTES as int,
        ) && big_allocation::range_set(
            before.radix,
            after.radix,
            base as int,
            SEGMENT_BYTES as int,
            true,
        ),
        before.recorded(after, size, aligned, b),
    ensures
        recognized(after),
{
    match data {
        None => {
            let i = choose|i: int|
                {
                    let n = before.buddy.active()[i] as int;
                    &&& 0 <= i < before.buddy.active().len()
                    &&& before.buddy.can_help(#[trigger] before.buddy.active()[i], growth)
                    &&& forall|j: int|
                        0 <= j < i ==> !before.buddy.can_help(
                            #[trigger] before.buddy.active()[j],
                            growth,
                        )
                    &&& before.buddy.same_but_node(&after.buddy, n)
                    &&& before.buddy.nodes()[n].served(
                        &after.buddy.nodes()[n],
                        growth.order as int,
                        growth.lane as int,
                        b,
                    )
                    &&& before.buddy.nodes()[n].hints_but(
                        &after.buddy.nodes()[n],
                        growth.lane as int,
                        growth.order as int,
                    )
                };
            lemma_served(
                before,
                after,
                before.buddy.active()[i] as int,
                growth.lane as int,
                growth.order as int,
                b,
                size,
                aligned,
            );
        },
        Some(base) => {
            let n = growth.node as int;
            let node = before.buddy.nodes()[n];
            let node_after = after.buddy.nodes()[n];
            let region = choose|region: Region|
                {
                    &&& region.start() == base
                    &&& region.len() == SEGMENT_BYTES
                    &&& region.segments()[0].word() == 0
                    &&& #[trigger] node.extended(
                        &node_after,
                        region,
                        growth.order as int,
                        growth.lane as int,
                        b,
                    )
                };
            let last = node.regions().len() as int;
            assert(node_after.wf());
            assert(node_after.regions()[last].wf());
            assert(node_after.regions()[last].segments()[0].wf());
            assert(node_after.at(last, 0).start() == node_after.regions()[last].start() + 0
                * SEGMENT_BYTES);
            assert(after.buddy.has(n, last, 0));
            assert(range_owned(&after.radix, base as int, SEGMENT_BYTES as int)) by {
                assert forall|x: int|
                    base <= x < base + SEGMENT_BYTES implies #[trigger] free::owned(
                    &after.radix,
                    x,
                ) by {
                    assert(after.radix.owns(l3_main_radix::page_of(x)));
                }
            }
            assert forall|chunk: int| before.radix.owns(chunk) implies #[trigger] after.radix.owns(
                chunk,
            ) by {}
            buddy::law_served_block_can_be_freed(
                region.segments()[0],
                node_after.at(last, 0),
                growth.order as int,
                b,
            );
            assert(region_owned(&after.radix, after.buddy.region(n, last)));
            lemma_block_owned(after, n, last, 0, b.addr as int, growth.order as int);
            assert forall|m: int, q: int| after.buddy.has_region(m, q) implies region_owned(
                &after.radix,
                #[trigger] after.buddy.region(m, q),
            ) by {
                if !(m == n && q == last) {
                    assert(before.buddy.has_region(m, q)) by {
                        if m != n {
                            assert(after.buddy.nodes()[m] == before.buddy.nodes()[m]);
                        }
                    }
                    let old_region = before.buddy.region(m, q);
                    assert(region_owned(&before.radix, old_region));
                    if m == n {
                        assert(node_after.regions()[q].start() == node.regions()[q].start());
                    } else {
                        assert(after.buddy.nodes()[m] == before.buddy.nodes()[m]);
                    }
                    assert forall|x: int|
                        old_region.start() <= x < old_region.start()
                            + old_region.len() implies #[trigger] free::owned(&after.radix, x) by {
                        assert(free::owned(&before.radix, x));
                        lemma_still_owned(&before.radix, &after.radix, x);
                    }
                }
            }
            let p = (b.addr + before.header) as usize;
            assert forall|q: usize| #[trigger]
                after.map@.dom().contains(q) implies payload_owned(after, q) by {
                if q == p {
                    assert(after.map@[p].buddy_region == b.region);
                } else {
                    assert(before.map@.dom().contains(q));
                    assert(payload_owned(before, q));
                    lemma_still_owned(&before.radix, &after.radix, q as int);
                }
            }
        },
    }
}

/// A payload with a mapping of its own is recognized when it comes back, and so are all others.
pub proof fn law_mapped_payload_is_recognized(
    before: &BigHeap,
    after: &BigHeap,
    base: usize,
    meta: BigAllocMeta,
)
    requires
        recognized(before),
        before.same_settings(after),
        after.buddy == before.buddy,
        meta.buddy_region == 0,
        base + before.header <= usize::MAX,
        base % PAGE_SIZE == 0,
        before.fits(meta.size as int),
        l3_main_radix::valid_range(base as int, before.total(meta.size as int)),
        after.map@ == before.map@.insert((base + before.header) as usize, meta),
        big::mapping_registered(
            before.radix,
            after.radix,
            base as int,
            before.total(meta.size as int),
            meta.aligned,
            true,
        ),
    ensures
        recognized(after),
{
    let p = (base + before.header) as usize;
    lemma_total(before, meta.size as int);
    assert forall|chunk: int| before.radix.owns(chunk) implies #[trigger] after.radix.owns(
        chunk,
    ) by {}
    assert(l3_main_radix::page_of(base + before.header) == l3_main_radix::page_of(base as int));
    assert(after.radix.owns(l3_main_radix::page_of(base as int)));
    assert(payload_owned(after, p));
    lemma_recognized(before, after, p, true);
}

/// An address outside of a range of whole pages lies on another page.
proof fn lemma_other_page(base: int, total: int, x: int)
    requires
        0 <= base,
        base % (PAGE_SIZE as int) == 0,
        total > 0,
        total % (PAGE_SIZE as int) == 0,
        0 <= x,
        x < base || base + total <= x,
    ensures
        !(l3_main_radix::page_of(base) <= l3_main_radix::page_of(x) <= l3_main_radix::page_of(
            base + total - 1,
        )),
{
}

/// When a payload is given back, all others are still recognized.
pub proof fn law_freeing_keeps_others_recognized(
    before: &BigHeap,
    after: &BigHeap,
    ptr: usize,
    stamp: u32,
)
    requires
        before.wf(),
        recognized(before),
        live::live_apart(live::live_in(before)),
        before.same_settings(after),
        before.map@.dom().contains(ptr),
        after.map@ == before.map@.remove(ptr),
        before.map@[ptr].buddy_region != 0 ==> after.radix == before.radix && before.buddy.freed(
            &after.buddy,
            before.map@[ptr].buddy_region as int,
            ptr - before.header,
            before.map@[ptr].order as int,
            stamp,
        ),
        before.map@[ptr].buddy_region == 0 ==> after.buddy == before.buddy
            && big::mapping_registered(
            before.radix,
            after.radix,
            ptr - before.header,
            before.total(before.map@[ptr].size as int),
            before.map@[ptr].aligned,
            false,
        ),
    ensures
        recognized(after),
{
    let meta = before.map@[ptr];
    assert(before.meta_ok(ptr, meta));
    assert(payload_owned(before, ptr));
    if meta.buddy_region != 0 {
        if !(BIG_BUDDY_MIN_ORDER <= meta.order <= BIG_BUDDY_MAX_ORDER)
            || !before.buddy.has_segment(meta.buddy_region as int) {
            lemma_nothing_changed(&before.buddy, &after.buddy);
        } else {
            let (n, r, k) = choose|n: int, r: int, k: int|
                {
                    &&& before.buddy.has(n, r, k)
                    &&& before.buddy.at(n, r, k).start() == meta.buddy_region as int
                    &&& #[trigger] before.buddy.same_but(&after.buddy, n, r, k)
                    &&& buddy::block_returned(
                        before.buddy.at(n, r, k),
                        after.buddy.at(n, r, k),
                        ptr - before.header,
                        meta.order - BIG_BUDDY_MIN_ORDER,
                        stamp,
                    )
                };
            lemma_node_changed(&before.buddy, &after.buddy, n, r, k);
        }
        lemma_recognized(before, after, ptr, false);
    } else {
        let base = ptr - before.header;
        let total = before.total(meta.size as int);
        lemma_total(before, meta.size as int);
        let view = live::live_in(before);
        assert(view.map.dom().contains(ptr));
        assert(live::placed(view, ptr));
        assert forall|n: int, r: int| after.buddy.has_region(n, r) implies region_owned(
            &after.radix,
            #[trigger] after.buddy.region(n, r),
        ) by {
            let region = before.buddy.region(n, r);
            assert(region_owned(&before.radix, region));
            assert forall|x: int|
                region.start() <= x < region.start() + region.len() implies #[trigger] free::owned(
                &after.radix,
                x,
            ) by {
                assert(free::owned(&before.radix, x));
                lemma_other_page(base, total, x);
                assert(after.radix.owns(l3_main_radix::page_of(x)));
            }
        }
        assert forall|q: usize| #[trigger] after.map@.dom().contains(q) implies payload_owned(
            after,
            q,
        ) by {
            assert(view.map.dom().contains(q));
            assert(payload_owned(before, q));
            assert(before.meta_ok(q, before.map@[q]));
            lemma_live_end(before, q);
            lemma_other_page(base, total, q as int);
            assert(after.radix.owns(l3_main_radix::page_of(q as int)));
        }
    }
}

/// A mapping has whole pages.
proof fn lemma_total(h: &BigHeap, size: int)
    requires
        0 <= size,
        0 < h.header < PAGE_SIZE,
        h.fits(size),
    ensures
        h.total(size) % (PAGE_SIZE as int) == 0,
        h.total(size) >= size + h.header,
        h.total(size) > h.header,
{
    utility::lemma_round_up(size + h.header, PAGE_SIZE as int);
    utility::lemma_round_up(size + h.header, big_allocation::TWO_MB as int);
}

/// A payload lies inside the bytes under it.
proof fn lemma_live_end(h: &BigHeap, q: usize)
    requires
        h.wf(),
        0 < h.header < PAGE_SIZE,
        h.map@.dom().contains(q),
        live::live_apart(live::live_in(h)),
    ensures
        live::live_start(live::live_in(h), q) <= q < live::live_start(live::live_in(h), q)
            + live::live_len(live::live_in(h), q),
{
    let view = live::live_in(h);
    assert(view.map.dom().contains(q));
    assert(live::placed(view, q));
    assert(h.meta_ok(q, h.map@[q]));
    if h.map@[q].buddy_region != 0 {
        let meta = h.map@[q];
        let (n, r, k) = choose|n: int, r: int, k: int| #[trigger]
            live::backs(
                &h.buddy,
                n,
                r,
                k,
                meta.buddy_region as int,
                live::live_start(view, q),
                meta.order - BIG_BUDDY_MIN_ORDER,
            );
        assert(segment::block_bytes(meta.order - BIG_BUDDY_MIN_ORDER) >= PAGE_SIZE);
    } else {
        lemma_total(h, h.map@[q].size as int);
    }
}

/// Growing payloads in place keeps all of them recognized.
pub proof fn law_grown_payload_is_recognized(
    before: &BigHeap,
    after: &BigHeap,
    ptr: usize,
    new_size: usize,
    reached: Option<usize>,
    r: ReallocStep,
)
    requires
        recognized(before),
        before.same_settings(after),
        after.radix == before.radix,
        before.map@.dom().contains(ptr),
        before.map@[ptr].buddy_region != 0,
        realloc::pool_grown(
            before.buddy,
            after.buddy,
            before.map@[ptr].buddy_region as int,
            (ptr - before.header) as usize,
            before.map@[ptr].order,
            before.total(new_size as int),
            reached,
        ),
        realloc::pool_answer(before, after, ptr, new_size, reached, r),
    ensures
        recognized(after),
{
    lemma_pool_regions(
        before.buddy,
        after.buddy,
        before.map@[ptr].buddy_region as int,
        (ptr - before.header) as usize,
        before.map@[ptr].order,
        before.total(new_size as int),
        reached,
    );
    lemma_recognized(before, after, ptr, false);
}

proof fn lemma_pool_regions(
    before: BuddyAllocator,
    after: BuddyAllocator,
    region: int,
    addr: usize,
    order: usize,
    target: int,
    reached: Option<usize>,
)
    requires
        realloc::pool_grown(before, after, region, addr, order, target, reached),
    ensures
        no_new_regions(&before, &after),
    decreases BIG_BUDDY_MAX_ORDER - order,
{
    if order < BIG_BUDDY_MAX_ORDER && target <= SEGMENT_BYTES {
        let (mid, res) = choose|mid: BuddyAllocator, res: Option<(usize, usize)>|
            {
                &&& #[trigger] before.grown(&mid, region, addr, order, res)
                &&& mid.wf()
                &&& match res {
                    None => reached is None && mid == after,
                    Some(_) => if realloc::pooled_bytes(order + 1) >= target {
                        reached == Some((order + 1) as usize) && mid == after
                    } else {
                        realloc::pool_grown(
                            mid,
                            after,
                            region,
                            addr,
                            (order + 1) as usize,
                            target,
                            reached,
                        )
                    },
                }
            };
        if !(BIG_BUDDY_MIN_ORDER <= order < BIG_BUDDY_MAX_ORDER) || !before.has_segment(region) {
            lemma_nothing_changed(&before, &mid);
        } else {
            let (n, r, k) = choose|n: int, r: int, k: int|
                {
                    let small = order - BIG_BUDDY_MIN_ORDER;
                    &&& before.has(n, r, k)
                    &&& before.at(n, r, k).start() == region
                    &&& #[trigger] before.same_but(&mid, n, r, k)
                    &&& buddy::block_grown(
                        before.at(n, r, k),
                        mid.at(n, r, k),
                        addr as int,
                        small,
                    )
                    &&& res == (if buddy::grows(before.at(n, r, k), addr as int, small) {
                        Some((addr, (order + 1) as usize))
                    } else {
                        None
                    })
                };
            lemma_node_changed(&before, &mid, n, r, k);
        }
        if res is Some && realloc::pooled_bytes(order + 1) < target {
            lemma_pool_regions(
                mid,
                after,
                region,
                addr,
                (order + 1) as usize,
                target,
                reached,
            );
            assert forall|m: int, q: int| #[trigger]
                after.has_region(m, q) implies before.has_region(m, q) by {
                assert(mid.has_region(m, q));
            }
            assert forall|m: int, q: int| after.has_region(m, q) implies (#[trigger] after.region(
                m,
                q,
            )).start() == before.region(m, q).start() && after.region(m, q).len()
                == before.region(m, q).len() by {
                assert(mid.has_region(m, q));
                assert(mid.region(m, q).start() == before.region(m, q).start());
            }
        }
    }
}

/// A mapping that was resized is recognized when it comes back, and so are all others.
pub proof fn law_remapped_payload_is_recognized(
    before: &BigHeap,
    after: &BigHeap,
    ptr: usize,
    base: usize,
    meta: BigAllocMeta,
)
    requires
        before.wf(),
        recognized(before),
        live::live_apart(live::live_in(before)),
        before.same_settings(after),
        after.buddy == before.buddy,
        before.map@.dom().contains(ptr),
        before.map@[ptr].buddy_region == 0,
        base + before.header <= usize::MAX,
        base % PAGE_SIZE == 0,
        meta.buddy_region == 0,
        before.fits(meta.size as int),
        l3_main_radix::valid_range(base as int, before.total(meta.size as int)),
        after.map@ == before.map@.remove(ptr).insert((base + before.header) as usize, meta),
        realloc::range_moved(
            before.radix,
            after.radix,
            ptr - before.header,
            before.total(before.map@[ptr].size as int),
            base as int,
            before.total(meta.size as int),
        ),
    ensures
        recognized(after),
{
    let old_base = ptr - before.header;
    let old_total = before.total(before.map@[ptr].size as int);
    let view = live::live_in(before);
    let p = (base + before.header) as usize;
    lemma_total(before, meta.size as int);
    assert(before.meta_ok(ptr, before.map@[ptr]));
    assert(payload_owned(before, ptr));
    lemma_total(before, before.map@[ptr].size as int);
    assert(view.map.dom().contains(ptr));
    assert(live::placed(view, ptr));
    assert forall|x: int|
        0 <= x && (base == old_base || x < old_base || old_base + old_total <= x)
            && before.radix.owns(l3_main_radix::page_of(x)) implies after.radix.owns(
        #[trigger] l3_main_radix::page_of(x),
    ) by {
        if base != old_base && old_total > 0 {
            lemma_other_page(old_base, old_total, x);
        }
    }
    assert forall|n: int, r: int| after.buddy.has_region(n, r) implies region_owned(
        &after.radix,
        #[trigger] after.buddy.region(n, r),
    ) by {
        let region = before.buddy.region(n, r);
        assert(region_owned(&before.radix, region));
        assert forall|x: int|
            region.start() <= x < region.start() + region.len() implies #[trigger] free::owned(
            &after.radix,
            x,
        ) by {
            assert(free::owned(&before.radix, x));
            assert(before.radix.owns(l3_main_radix::page_of(x)));
        }
    }
    assert forall|q: usize| #[trigger] after.map@.dom().contains(q) implies payload_owned(
        after,
        q,
    ) by {
        if q == p {
            assert(l3_main_radix::page_of(base + before.header) == l3_main_radix::page_of(
                base as int,
            ));
            assert(after.radix.owns(l3_main_radix::page_of(base as int)));
        } else {
            assert(before.map@.dom().contains(q));
            assert(payload_owned(before, q));
            assert(view.map.dom().contains(q));
            assert(before.meta_ok(q, before.map@[q]));
            lemma_live_end(before, q);
            assert(before.radix.owns(l3_main_radix::page_of(q as int)));
        }
    }
}

} // verus!
