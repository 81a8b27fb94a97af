//! Large allocations: blocks of the buddy allocator, or mappings of their own.

use crate::big_allocation;
use crate::big_allocation::BigFreeBlock;
use crate::big_allocation::HUGE_SLACK;
use crate::big_allocation::TWO_MB;
use crate::big_allocations::buddy::Allocation;
use crate::big_allocations::buddy::BuddyAllocator;
use crate::big_allocations::buddy::BuddyOutcome;
use crate::big_allocations::buddy::Growth;
use crate::big_allocations::segment::BUDDY_NUM_ORDERS;
use crate::big_allocations::segment::SEGMENT_BYTES;
use crate::internals::l3_main_radix;
use crate::internals::l3_main_radix::RadixTree;
use crate::internals::rbtree::RBTree;
use crate::utility;
use crate::utility::PAGE_SIZE;
use crate::BigAllocMeta;
use crate::Flags;
use vstd::prelude::*;

verus! {

/// Payloads up to this size may come from the buddy allocator.
pub const BUDDY_LIMIT: usize = 0x400_0000;

/// The size of a mapping for `size` bytes: without huge pages, whole pages.
pub open spec fn mapping_size(size: int, disable_thp: bool) -> int {
    if disable_thp {
        utility::round_up(size, PAGE_SIZE as int)
    } else {
        big_allocation::mapping_size(size)
    }
}

/// The size of a mapping for `size` bytes.
pub fn estimate_and_align_2mb(size: usize, disable_thp: bool) -> (r: usize)
    requires
        size + TWO_MB <= usize::MAX,
    ensures
        r == mapping_size(size as int, disable_thp),
        size <= r <= size + HUGE_SLACK,
        r % PAGE_SIZE == 0,
{
    proof {
        utility::lemma_round_up(size as int, PAGE_SIZE as int);
    }
    if disable_thp {
        utility::align_to(size, PAGE_SIZE)
    } else {
        big_allocation::estimate_and_align_2mb(size)
    }
}

/// A payload that was handed out.
#[derive(Clone, Copy, Debug, PartialEq, Eq, Structural)]
pub struct BigBlock {
    pub payload: usize,
    /// What is known about its content.
    pub flags: Flags,
}

/// A mapping to make.
#[derive(Clone, Copy, Debug, PartialEq, Eq, Structural)]
pub struct MapRequest {
    pub total: usize,
    /// Huge pages are wanted for it.
    pub huge: bool,
}

/// Outcome of a request for a large payload.
#[derive(Clone, Copy, Debug, PartialEq, Eq, Structural)]
pub enum BigOutcome {
    /// The size is too large for any mapping.
    Failed,
    /// The payload is ready.
    Ready(BigBlock),
    /// A node of the buddy allocator is full and needs another region first.
    NeedsRegion(Growth),
    /// A mapping has to be made first.
    NeedsMapping(MapRequest),
}

/// What becomes of a payload that is given back.
#[derive(Clone, Copy, Debug, PartialEq, Eq, Structural)]
pub enum BigRelease {
    /// No allocation is known at the address.
    Corrupt,
    /// The block went back to the buddy allocator.
    Pooled,
    /// This mapping has to be given back to the system.
    Unmap(BigFreeBlock),
}

/// The large allocations, the pages that they own and where they come from.
pub struct BigHeap {
    pub radix: RadixTree,
    pub map: RBTree,
    pub buddy: BuddyAllocator,
    /// Bytes in front of each payload.
    pub header: usize,
    /// No huge pages are asked for.
    pub disable_thp: bool,
    /// The buddy allocator is out of use.
    pub disable_buddy: bool,
}

/// `after` owns the page of `addr` or not, and otherwise what `before` owns.
pub open spec fn page_set(before: RadixTree, after: RadixTree, addr: int, val: bool) -> bool {
    forall|chunk: int| #[trigger]
        after.owns(chunk) == if l3_main_radix::spec_valid_user_addr(addr) && chunk
            == l3_main_radix::page_of(addr) {
            val
        } else {
            before.owns(chunk)
        }
}

/// A mapping of its own is registered as a range when payloads inside it may be asked about, and by
/// its first page otherwise.
pub open spec fn mapping_registered(
    before: RadixTree,
    after: RadixTree,
    base: int,
    total: int,
    aligned: bool,
    val: bool,
) -> bool {
    if aligned {
        big_allocation::range_set(before, after, base, total, val)
    } else {
        page_set(before, after, base, val)
    }
}

impl BigHeap {
    /// What is recorded about an allocation leaves room for its mapping.
    pub open spec fn meta_ok(&self, payload: usize, meta: BigAllocMeta) -> bool {
        &&& payload >= self.header
        &&& meta.order < usize::BITS
        &&& self.fits(meta.size as int)
    }

    pub open spec fn wf(&self) -> bool {
        &&& self.radix.wf() && self.radix.ready()
        &&& self.map.wf() && !self.map.locked()
        &&& self.buddy.wf()
        &&& self.header <= PAGE_SIZE
        &&& forall|p: usize| #[trigger]
            self.map@.dom().contains(p) ==> self.meta_ok(p, self.map@[p])
    }

    /// Nothing but what is owned, recorded and handed out differs.
    pub open spec fn same_settings(&self, after: &Self) -> bool {
        &&& after.header == self.header
        &&& after.disable_thp == self.disable_thp
        &&& after.disable_buddy == self.disable_buddy
    }

    /// Nothing at all differs.
    pub open spec fn same(&self, after: &Self) -> bool {
        &&& self.same_settings(after)
        &&& after.radix == self.radix
        &&& after.map@ == self.map@
        &&& self.buddy.same(&after.buddy)
    }

    /// A mapping for a payload of `size` bytes can be asked for.
    pub open spec fn fits(&self, size: int) -> bool {
        size + self.header + TWO_MB <= usize::MAX
    }

    /// Bytes of the mapping for a payload.
    pub open spec fn total(&self, size: int) -> int {
        mapping_size(size + self.header, self.disable_thp)
    }

    /// The request for a mapping of its own.
    pub open spec fn request(&self, size: int) -> MapRequest {
        MapRequest {
            total: self.total(size) as usize,
            huge: self.total(size) % (TWO_MB as int) == 0 && !self.disable_thp,
        }
    }

    /// The buddy allocator is asked for a payload of `size` bytes.
    pub open spec fn asks_buddy(&self, size: int) -> bool {
        size <= BUDDY_LIMIT && self.buddy.ready() && !self.disable_buddy
    }

    /// `after` records `block` for a payload of `size` bytes.
    pub open spec fn recorded(&self, after: &Self, size: usize, aligned: bool, b: Allocation) -> bool {
        after.map@ == self.map@.insert(
            (b.addr + self.header) as usize,
            BigAllocMeta { size, order: b.order, buddy_region: b.region, aligned },
        )
    }

    /// What a request for a payload does once the buddy allocator said `o`.
    pub open spec fn answered(
        &self,
        after: &Self,
        size: usize,
        aligned: bool,
        o: BuddyOutcome,
        r: BigOutcome,
    ) -> bool {
        match o {
            BuddyOutcome::Refused => {
                &&& r == BigOutcome::NeedsMapping(self.request(size as int))
                &&& after.map@ == self.map@
            },
            BuddyOutcome::NeedsRegion(g) => {
                &&& r == BigOutcome::NeedsRegion(g)
                &&& after.map@ == self.map@
            },
            BuddyOutcome::Served(b) => {
                &&& r == BigOutcome::Ready(
                    BigBlock {
                        payload: (b.addr + self.header) as usize,
                        flags: Flags::BigAlloc,
                    },
                )
                &&& self.recorded(after, size, aligned, b)
            },
        }
    }

    /// A heap without allocations.
    pub fn new(header: usize, disable_thp: bool, disable_buddy: bool) -> (r: Self)
        requires
            header <= PAGE_SIZE,
        ensures
            r.wf(),
            r.header == header,
            r.disable_thp == disable_thp,
            r.disable_buddy == disable_buddy,
            r.map@ == Map::<usize, BigAllocMeta>::empty(),
            !r.buddy.ready(),
            forall|chunk: int| !#[trigger] r.radix.owns(chunk),
    {
        BigHeap {
            radix: RadixTree::new(),
            map: RBTree::new(),
            buddy: BuddyAllocator::new(),
            header,
            disable_thp,
            disable_buddy,
        }
    }

    fn request_for(&self, size: usize) -> (r: MapRequest)
        requires
            self.wf(),
            self.fits(size as int),
        ensures
            r == self.request(size as int),
            r.total == self.total(size as int),
    {
        let total: usize = estimate_and_align_2mb(size + self.header, self.disable_thp);
        MapRequest { total, huge: total % TWO_MB == 0 && !self.disable_thp }
    }

    fn record(&mut self, size: usize, aligned: bool, b: Allocation) -> (r: BigBlock)
        requires
            old(self).wf(),
            old(self).fits(size as int),
            b.sound(),
        ensures
            final(self).wf(),
            old(self).same_settings(final(self)),
            final(self).radix == old(self).radix,
            final(self).buddy == old(self).buddy,
            old(self).recorded(final(self), size, aligned, b),
            r.payload == b.addr + old(self).header,
            r.flags == Flags::BigAlloc,
    {
        let payload: usize = b.addr + self.header;
        self.map.insert(
            payload,
            BigAllocMeta { size, order: b.order, buddy_region: b.region, aligned },
        );
        BigBlock { payload, flags: Flags::BigAlloc }
    }

    /// Serves a payload of `size` bytes from the buddy allocator, or tells what has to be mapped
    /// first. `aligned` tells that addresses inside the payload will be handed out.
    pub fn big_malloc(&mut self, size: usize, aligned: bool, node_id: u16, cpu_id: usize) -> (r:
        BigOutcome)
        requires
            old(self).wf(),
        ensures
            final(self).wf(),
            old(self).same_settings(final(self)),
            final(self).radix == old(self).radix,
            !old(self).fits(size as int) ==> r is Failed && old(self).same(final(self)),
            old(self).fits(size as int) && !old(self).asks_buddy(size as int) ==> {
                &&& r == BigOutcome::NeedsMapping(old(self).request(size as int))
                &&& old(self).same(final(self))
            },
            old(self).fits(size as int) && old(self).asks_buddy(size as int) ==> exists|
                o: BuddyOutcome,
            |
                {
                    &&& #[trigger] old(self).buddy.allocated(
                        &final(self).buddy,
                        old(self).total(size as int),
                        node_id,
                        cpu_id as int,
                        o,
                    )
                    &&& old(self).answered(final(self), size, aligned, o, r)
                },
    {
        if size > usize::MAX - TWO_MB - self.header {
            return BigOutcome::Failed;
        }
        let request = self.request_for(size);
        if size > BUDDY_LIMIT || !self.buddy.is_ready() || self.disable_buddy {
            return BigOutcome::NeedsMapping(request);
        }
        let ghost before = *self;
        let outcome = self.buddy.allocate(request.total, node_id, cpu_id);
        assert(before.buddy.allocated(
            &self.buddy,
            before.total(size as int),
            node_id,
            cpu_id as int,
            outcome,
        ));
        match outcome {
            BuddyOutcome::Refused => BigOutcome::NeedsMapping(request),
            BuddyOutcome::NeedsRegion(growth) => BigOutcome::NeedsRegion(growth),
            BuddyOutcome::Served(b) => BigOutcome::Ready(self.record(size, aligned, b)),
        }
    }

    /// Continues after a node of the buddy allocator was found full, with a new region of one
    /// segment at `data` where one could be mapped.
    pub fn big_malloc_region(
        &mut self,
        size: usize,
        aligned: bool,
        growth: Growth,
        data: Option<usize>,
    ) -> (r: BigOutcome)
        requires
            old(self).wf(),
            old(self).fits(size as int),
            growth.node < old(self).buddy.nodes().len(),
            growth.order < BUDDY_NUM_ORDERS,
            growth.lane < old(self).buddy.lanes(),
            data matches Some(base) ==> base > 0 && base + SEGMENT_BYTES <= usize::MAX && old(
                self).buddy.unmapped(base as int, SEGMENT_BYTES as int),
        ensures
            final(self).wf(),
            old(self).same_settings(final(self)),
            data is None ==> final(self).radix == old(self).radix,
            data matches Some(base) ==> big_allocation::range_set(
                old(self).radix,
                final(self).radix,
                base as int,
                SEGMENT_BYTES as int,
                true,
            ),
            exists|b: Option<Allocation>|
                {
                    &&& #[trigger] old(self).buddy.expanded(&final(self).buddy, growth, data, b)
                    &&& old(self).answered(
                        final(self),
                        size,
                        aligned,
                        match b {
                            Some(block) => BuddyOutcome::Served(block),
                            None => BuddyOutcome::Refused,
                        },
                        r,
                    )
                },
    {
        if let Some(base) = data {
            self.radix.set_range(base, SEGMENT_BYTES, true);
        }
        let ghost before = *self;
        let found = self.buddy.expand(growth, data);
        assert(before.buddy.expanded(&self.buddy, growth, data, found));
        match found {
            None => BigOutcome::NeedsMapping(self.request_for(size)),
            Some(b) => BigOutcome::Ready(self.record(size, aligned, b)),
        }
    }

    /// Continues after a mapping for a payload of `size` bytes was made at `base`.
    pub fn big_malloc_mapped(&mut self, size: usize, aligned: bool, base: usize) -> (r: BigBlock)
        requires
            old(self).wf(),
            old(self).fits(size as int),
            old(self).total(size as int) <= isize::MAX,
            base + old(self).total(size as int) <= usize::MAX,
        ensures
            final(self).wf(),
            old(self).same_settings(final(self)),
            final(self).buddy == old(self).buddy,
            r.payload == base + old(self).header,
            r.flags == Flags::NotAllocated,
            mapping_registered(
                old(self).radix,
                final(self).radix,
                base as int,
                old(self).total(size as int),
                aligned,
                true,
            ),
            exists|order: usize|
                {
                    &&& #[trigger] utility::ceil_log2(old(self).total(size as int), order as nat)
                    &&& final(self).map@ == old(self).map@.insert(
                        r.payload,
                        BigAllocMeta { size, order, buddy_region: 0, aligned },
                    )
                },
    {
        let ghost before = *self;
        let total: usize = estimate_and_align_2mb(size + self.header, self.disable_thp);
        if aligned {
            self.radix.set_range(base, total, true);
        } else {
            self.radix.set_single_big(base, true);
        }
        let payload: usize = base + self.header;
        let order: usize = utility::order_of(total);
        proof {
            utility::lemma_order_bits(total as int, order as nat);
        }
        self.map.insert(payload, BigAllocMeta { size, order, buddy_region: 0, aligned });
        BigBlock { payload, flags: Flags::NotAllocated }
    }

    /// Gives a payload back: a block to the buddy allocator, a mapping of its own to the system.
    pub fn big_free(&mut self, ptr: usize, stamp: u32) -> (r: BigRelease)
        requires
            old(self).wf(),
        ensures
            final(self).wf(),
            old(self).same_settings(final(self)),
            final(self).map@ == old(self).map@.remove(ptr),
            !old(self).map@.dom().contains(ptr) ==> r is Corrupt && old(self).same(final(self)),
            old(self).map@.dom().contains(ptr) ==> {
                let meta = old(self).map@[ptr];
                let base = ptr - old(self).header;
                &&& meta.buddy_region != 0 ==> {
                    &&& r is Pooled
                    &&& final(self).radix == old(self).radix
                    &&& old(self).buddy.freed(
                        &final(self).buddy,
                        meta.buddy_region as int,
                        base,
                        meta.order as int,
                        stamp,
                    )
                }
                &&& meta.buddy_region == 0 ==> {
                    &&& r == BigRelease::Unmap(
                        BigFreeBlock {
                            ptr: base as usize,
                            total_size: old(self).total(meta.size as int) as usize,
                        },
                    )
                    &&& final(self).buddy == old(self).buddy
                    &&& mapping_registered(
                        old(self).radix,
                        final(self).radix,
                        base,
                        old(self).total(meta.size as int),
                        meta.aligned,
                        false,
                    )
                }
            },
    {
        let meta: BigAllocMeta = match self.map.remove(ptr) {
            Some(meta) => meta,
            None => {
                assert(self.map@ =~= old(self).map@);
                return BigRelease::Corrupt;
            },
        };
        assert(old(self).meta_ok(ptr, meta));
        let base: usize = ptr - self.header;
        if meta.buddy_region != 0 {
            self.buddy.free(meta.buddy_region, base, meta.order, stamp);
            return BigRelease::Pooled;
        }
        let total: usize = estimate_and_align_2mb(meta.size + self.header, self.disable_thp);
        if meta.aligned {
            self.radix.set_range(base, total, false);
        } else {
            self.radix.set_single_big(base, false);
        }
        BigRelease::Unmap(BigFreeBlock { ptr: base, total_size: total })
    }
}

/// Giving a mapping back right after it was recorded leaves the recorded allocations and, where the
/// mapping was not owned before, the owned pages as they were; what is handed back to the system is
/// the mapping that was made.
pub proof fn law_big_free_undoes_big_malloc(
    before: BigHeap,
    during: BigHeap,
    after: BigHeap,
    base: usize,
    size: usize,
    aligned: bool,
    order: usize,
)
    requires
        base + before.header <= usize::MAX,
        !before.map@.dom().contains((base + before.header) as usize),
        forall|chunk: int|
            l3_main_radix::page_of(base as int) <= chunk <= l3_main_radix::page_of(
                base + before.total(size as int) - 1,
            ) || chunk == l3_main_radix::page_of(base as int) ==> !#[trigger] before.radix.owns(
                chunk,
            ),
        mapping_registered(
            before.radix,
            during.radix,
            base as int,
            before.total(size as int),
            aligned,
            true,
        ),
        during.map@ == before.map@.insert(
            (base + before.header) as usize,
            BigAllocMeta { size, order, buddy_region: 0, aligned },
        ),
        after.map@ == during.map@.remove((base + before.header) as usize),
        mapping_registered(
            during.radix,
            after.radix,
            base as int,
            before.total(size as int),
            aligned,
            false,
        ),
    ensures
        after.map@ == before.map@,
        forall|chunk: int| #[trigger] after.radix.owns(chunk) == before.radix.owns(chunk),
{
    assert(after.map@ =~= before.map@);
    assert forall|chunk: int| #[trigger] after.radix.owns(chunk) == before.radix.owns(chunk) by {
        assert(during.radix.owns(chunk) == during.radix.owns(chunk));
    }
}

/// A mapping holds the payload with what stands in front of it, in whole pages, and wastes little:
/// less than a page, or, to fill huge pages where those are in use, no more than `HUGE_SLACK`.
pub proof fn law_mapping_is_close(size: int, disable_thp: bool, m: int)
    requires
        0 <= size,
    ensures
        size <= mapping_size(size, disable_thp) <= size + HUGE_SLACK,
        mapping_size(size, disable_thp) % (PAGE_SIZE as int) == 0,
        disable_thp || mapping_size(size, disable_thp) % (TWO_MB as int) != 0 ==> mapping_size(
            size,
            disable_thp,
        ) < size + PAGE_SIZE,
        !disable_thp && m % (TWO_MB as int) == 0 && size <= m <= size + HUGE_SLACK ==> mapping_size(
            size,
            disable_thp,
        ) % (TWO_MB as int) == 0,
{
    utility::lemma_round_up(size, PAGE_SIZE as int);
    if !disable_thp {
        big_allocation::law_mapping_is_close(size);
        if m % 0x20_0000 == 0 && size <= m <= size + 0x1_0000 {
            lemma_near_multiple(size, m);
            utility::lemma_round_up(size, TWO_MB as int);
            if size % 0x20_0000 == 0 {
                assert(utility::round_up(size, PAGE_SIZE as int) == size);
            }
        }
    }
}

proof fn lemma_near_multiple(size: int, m: int)
    requires
        0 <= size,
        m % 0x20_0000 == 0,
        size <= m <= size + 0x1_0000,
    ensures
        size % 0x20_0000 == 0 || 0x20_0000 - size % 0x20_0000 <= 0x1_0000,
        size % 0x20_0000 == 0 ==> size % 0x1000 == 0,
{
}

/// Who asks for a large payload gets one from the buddy allocator, or a mapping that holds it: the
/// mapping that is asked for is no smaller than the payload and its header, and huge pages are asked
/// for only in whole ones and only where they are in use.
pub proof fn law_requested_mapping_holds_the_payload(h: &BigHeap, size: int)
    requires
        0 <= size,
        h.fits(size),
    ensures
        h.request(size).total >= size + h.header,
        h.request(size).total % PAGE_SIZE == 0,
        h.request(size).huge <==> !h.disable_thp && h.request(size).total % TWO_MB == 0,
{
    law_mapping_is_close(size + h.header, h.disable_thp, 0);
}

/// What the buddy allocator serves is handed out behind its header, and what it does not serve is
/// not recorded.
pub proof fn law_answer_hands_out_the_block(
    before: &BigHeap,
    after: &BigHeap,
    size: usize,
    aligned: bool,
    o: BuddyOutcome,
    r: BigOutcome,
)
    requires
        before.answered(after, size, aligned, o, r),
    ensures
        r is Ready <==> o is Served,
        r is NeedsRegion <==> o is NeedsRegion,
        !(r is Failed),
        !(r is Ready) ==> after.map@ == before.map@,
        o matches BuddyOutcome::Served(b) ==> {
            let p = (b.addr + before.header) as usize;
            &&& r matches BigOutcome::Ready(block) && block.payload == p && block.flags
                == Flags::BigAlloc
            &&& after.map@.dom().contains(p)
            &&& after.map@[p].size == size
            &&& after.map@[p].order == b.order
            &&& after.map@[p].buddy_region == b.region
            &&& after.map@[p].aligned == aligned
            &&& forall|q: usize|
                q != p ==> (#[trigger] after.map@.dom().contains(q) <==> before.map@.dom().contains(
                    q,
                )) && (before.map@.dom().contains(q) ==> after.map@[q] == before.map@[q])
        },
{
}

/// The buddy allocator is asked for payloads of up to sixty-four mebibytes, once it is set up and
/// while it is in use.
pub proof fn law_buddy_is_asked(h: &BigHeap, size: int)
    ensures
        size > 0x400_0000 ==> !h.asks_buddy(size),
        h.disable_buddy ==> !h.asks_buddy(size),
        !h.buddy.ready() ==> !h.asks_buddy(size),
        size <= 0x400_0000 && h.buddy.ready() && !h.disable_buddy ==> h.asks_buddy(size),
{
}

} // verus!
