//! Buddy allocator for blocks of four to sixty-four mebibytes.

use crate::big_allocations::report::{BuddyBackendReport, Measure};
use crate::big_allocations::segment;
use crate::big_allocations::segment::{
    Segment, BIG_BUDDY_MAX_ORDER, BIG_BUDDY_MIN_ORDER, BUDDY_NUM_ORDERS, SEGMENT_BYTES, SLOT_BYTES,
};
use crate::big_allocations::segment_trim;
use crate::big_allocations::segment_trim::{TrimPolicy, TrimStats, SEGMENT_AGES};
use crate::internals::lock::{LockGuard, SpinLock};
use crate::internals::mask;
use crate::internals::once::Once;
use crate::utility;
use crate::Flags;
use vstd::arithmetic::power2;
use vstd::prelude::*;

verus! {

/// Upper bound on the number of hint lanes of a node.
pub const MAX_LANES: usize = 96;

/// A block that was handed out.
#[derive(Clone, Copy, Debug, PartialEq, Eq, Structural)]
pub struct Allocation {
    pub addr: usize,
    /// Base-two logarithm of the size.
    pub order: usize,
    pub flags: Flags,
    /// Base address of the segment that the block belongs to.
    pub region: usize,
}

impl Allocation {
    /// The block lies inside its segment, which does not start at address zero.
    pub open spec fn sound(&self) -> bool {
        &&& BIG_BUDDY_MIN_ORDER <= self.order <= BIG_BUDDY_MAX_ORDER
        &&& 0 < self.region <= self.addr
        &&& self.addr + segment::block_bytes(self.order - BIG_BUDDY_MIN_ORDER) <= self.region
            + SEGMENT_BYTES
        &&& self.region + SEGMENT_BYTES <= usize::MAX
    }
}

/// What a segment of a well-formed node hands out is sound.
proof fn lemma_sound(node: &Node, r: int, k: int, after: Segment, order: int, b: Allocation)
    requires
        node.wf(),
        node.has(r, k),
        0 <= order < BUDDY_NUM_ORDERS,
        block_from(node.at(r, k), after, order, b),
    ensures
        b.sound(),
{
    let before = node.at(r, k);
    assert(node.regions()[r].wf());
    assert(node.regions()[r].segments()[k].wf());
    assert(before.start() == node.regions()[r].start() + k * SEGMENT_BYTES);
    law_served_block_can_be_freed(before, after, order, b);
    segment::law_block_in_segment(before.start() as int, b.addr as int, order);
}

/// Remembers, for each order, where the last block came from.
pub struct HintLane {
    orders: [Option<(usize, usize)>; 5],
}

/// A mapping that is cut into segments.
pub struct Region {
    base: usize,
    bytes: usize,
    metadata_bytes: usize,
    segments: Vec<Segment>,
}

impl Region {
    pub closed spec fn segments(&self) -> Seq<Segment> {
        self.segments@
    }

    pub closed spec fn start(&self) -> usize {
        self.base
    }

    pub closed spec fn len(&self) -> usize {
        self.bytes
    }

    /// The region holds at least one segment, the segments follow each other and fill it.
    pub open spec fn wf(&self) -> bool {
        &&& self.segments().len() >= 1
        &&& self.start() > 0
        &&& self.len() == self.segments().len() * SEGMENT_BYTES
        &&& self.start() + self.len() <= usize::MAX
        &&& forall|k: int| 0 <= k < self.segments().len() ==> (#[trigger] self.segments()[k]).wf()
            && self.segments()[k].start() == self.start() + k * SEGMENT_BYTES
    }
}

impl Region {
    /// Cuts the mapping of `count` segments at `base`; all slots are free and never used.
    pub fn new(base: usize, count: usize, metadata_bytes: usize) -> (r: Self)
        requires
            count >= 1,
            base > 0,
            base + count * SEGMENT_BYTES <= usize::MAX,
        ensures
            r.wf(),
            r.start() == base,
            r.segments().len() == count,
            forall|k: int| 0 <= k < count ==> (#[trigger] r.segments()[k]).word() == 0,
    {
        let mut segments: Vec<Segment> = Vec::new();
        while segments.len() < count
            invariant
                segments@.len() <= count,
                base + count * SEGMENT_BYTES <= usize::MAX,
                forall|k: int|
                    0 <= k < segments@.len() ==> (#[trigger] segments@[k]).wf()
                        && segments@[k].start() == base + k * SEGMENT_BYTES && segments@[k].word()
                        == 0,
            decreases count - segments@.len(),
        {
            let k: usize = segments.len();
            segments.push(Segment::new(base + k * SEGMENT_BYTES));
        }
        Region { base, bytes: count * SEGMENT_BYTES, metadata_bytes, segments }
    }
}

/// A block of the given order fits somewhere in the segment.
pub open spec fn has_room(s: Segment, order: int) -> bool {
    exists|start: int| #[trigger] segment::fits(s.word() as u16, order, start)
}

/// `after` is `before` once `block` of the given order was handed out at the lowest place where it
/// fits.
pub open spec fn block_from(before: Segment, after: Segment, order: int, block: Allocation) -> bool {
    let start = segment::slot_of(before.start() as int, block.addr as int);
    &&& block.region == before.start()
    &&& block.addr == before.start() + start * SLOT_BYTES
    &&& block.order == order + BIG_BUDDY_MIN_ORDER
    &&& segment::first_fit(before.word() as u16, order, start)
    &&& segment::block_taken(before.word(), after.word(), start, order)
    &&& block.flags == segment::block_content(before.word(), start, order)
    &&& after.start() == before.start()
    &&& after.stamps() == before.stamps()
}

/// `after` is `before` once the block of the given order at `addr` came back; anything that cannot
/// be a block changes nothing.
pub open spec fn block_returned(
    before: Segment,
    after: Segment,
    addr: int,
    order: int,
    stamp: u32,
) -> bool {
    let start = segment::slot_of(before.start() as int, addr);
    &&& after.wf()
    &&& after.start() == before.start()
    &&& !segment::block_at(before.start() as int, addr, order) ==> after == before
    &&& segment::block_at(before.start() as int, addr, order) ==> {
        &&& segment::block_freed(before.word(), after.word(), start, order)
        &&& forall|i: int| 0 <= i < 16 ==> #[trigger]
            after.stamps()[i] == if segment::in_block(i, start, order) {
                stamp
            } else {
                before.stamps()[i]
            }
    }
}

/// The block of the given order at `addr` can double in place.
pub open spec fn grows(s: Segment, addr: int, order: int) -> bool {
    segment::can_grow(s.word(), s.start() as int, addr, order)
}

/// `after` is `before` once the block of the given order at `addr` doubled where it could.
pub open spec fn block_grown(before: Segment, after: Segment, addr: int, order: int) -> bool {
    &&& after.wf()
    &&& after.start() == before.start()
    &&& after.stamps() == before.stamps()
    &&& !grows(before, addr, order) ==> after.word() == before.word()
    &&& grows(before, addr, order) ==> segment::block_taken(
        before.word(),
        after.word(),
        segment::slot_of(before.start() as int, addr) + segment::span(order),
        order,
    )
}

/// Every order fits at the start of a segment that was never used.
proof fn lemma_fresh_segment(s: Segment, order: int)
    requires
        s.word() == 0,
        0 <= order < BUDDY_NUM_ORDERS,
    ensures
        has_room(s, order),
        segment::fits(s.word() as u16, order, 0),
        segment::block_content(s.word(), 0, order) == Flags::NotAllocated,
{
    broadcast use mask::group_bits;

    segment::lemma_empty_word();
    assert(segment::fits(0u16, order, 0));
}

/// Segments of the regions from `lo` on.
pub open spec fn segments_from(regions: Seq<Region>, lo: int) -> int
    decreases regions.len() - lo,
{
    if lo >= regions.len() {
        0
    } else {
        regions[lo].segments().len() + segments_from(regions, lo + 1)
    }
}

/// Segments of the first `hi` nodes.
pub open spec fn segments_below(nodes: Seq<Node>, hi: int) -> int
    decreases hi,
{
    if hi <= 0 {
        0
    } else {
        segments_below(nodes, hi - 1) + segments_from(nodes[hi - 1].regions(), 0)
    }
}

/// Sums of the ages, and numbers, of the slots of the regions from `lo` on that a trim looked at,
/// which had given `freed` bytes back before.
pub open spec fn regions_sums(
    before: Seq<Region>,
    after: Seq<Region>,
    policy: TrimPolicy,
    freed: int,
    lo: int,
) -> (int, int)
    decreases before.len() - lo,
{
    if lo >= before.len() {
        (0, 0)
    } else {
        let rest = regions_sums(before, after, policy, freed, lo + 1);
        let first = segment_trim::segments_sums(
            before[lo].segments(),
            after[lo].segments(),
            policy,
            freed + SLOT_BYTES * cleaned_regions(before, after, lo + 1),
            before[lo].segments().len() as int,
        );
        (rest.0 + first.0, rest.1 + first.1)
    }
}

/// What a trim that had given `freed` bytes back before did to region `r`; it took the newer ones
/// first.
pub open spec fn region_trimmed<F: Fn(usize, usize) -> bool>(
    before: Seq<Region>,
    after: Seq<Region>,
    policy: TrimPolicy,
    advise: F,
    freed: int,
    r: int,
) -> bool {
    segment_trim::segments_trimmed(
        before[r].segments(),
        after[r].segments(),
        policy,
        advise,
        freed + SLOT_BYTES * cleaned_regions(before, after, r + 1),
    )
}

/// What a trim did to node `n`, after the nodes before it.
pub open spec fn node_trimmed<F: Fn(usize, usize) -> bool>(
    before: Seq<Node>,
    after: Seq<Node>,
    policy: TrimPolicy,
    advise: F,
    n: int,
) -> bool {
    before[n].trimmed(
        &after[n],
        policy,
        advise,
        SLOT_BYTES * cleaned_nodes(before, after, n),
    )
}

/// Sums of the ages, and numbers, of the slots of the first `hi` nodes that a trim looked at.
pub open spec fn nodes_sums(
    before: Seq<Node>,
    after: Seq<Node>,
    policy: TrimPolicy,
    hi: int,
) -> (int, int)
    decreases hi,
{
    if hi <= 0 {
        (0, 0)
    } else {
        let rest = nodes_sums(before, after, policy, hi - 1);
        let last = regions_sums(
            before[hi - 1].regions(),
            after[hi - 1].regions(),
            policy,
            SLOT_BYTES * cleaned_nodes(before, after, hi - 1),
            0,
        );
        (rest.0 + last.0, rest.1 + last.1)
    }
}

/// Slots of the regions from `lo` on that a trim cleaned.
pub open spec fn cleaned_regions(before: Seq<Region>, after: Seq<Region>, lo: int) -> int
    decreases before.len() - lo,
{
    if lo >= before.len() {
        0
    } else {
        segment_trim::cleaned_segments(
            before[lo].segments(),
            after[lo].segments(),
            before[lo].segments().len() as int,
        ) + cleaned_regions(before, after, lo + 1)
    }
}

/// Slots of the first `hi` nodes that a trim cleaned.
pub open spec fn cleaned_nodes(before: Seq<Node>, after: Seq<Node>, hi: int) -> int
    decreases hi,
{
    if hi <= 0 {
        0
    } else {
        cleaned_nodes(before, after, hi - 1) + cleaned_regions(
            before[hi - 1].regions(),
            after[hi - 1].regions(),
            0,
        )
    }
}

proof fn lemma_segments_from(regions: Seq<Region>, lo: int)
    requires
        0 <= lo <= regions.len(),
    ensures
        0 <= segments_from(regions, lo) <= segments_from(regions, 0),
    decreases regions.len() - lo,
{
    if lo < regions.len() {
        lemma_segments_from(regions, lo + 1);
    }
    lemma_segments_from_start(regions, lo);
}

proof fn lemma_segments_from_start(regions: Seq<Region>, lo: int)
    requires
        0 <= lo <= regions.len(),
    ensures
        segments_from(regions, lo) <= segments_from(regions, 0),
    decreases lo,
{
    if lo > 0 {
        lemma_segments_from_start(regions, lo - 1);
    }
}

proof fn lemma_segments_below(nodes: Seq<Node>, lo: int, hi: int)
    requires
        0 <= lo <= hi,
    ensures
        0 <= segments_below(nodes, lo) <= segments_below(nodes, hi),
    decreases hi,
{
    if hi > lo {
        lemma_segments_below(nodes, lo, hi - 1);
        lemma_segments_from(nodes[hi - 1].regions(), 0);
    } else if hi > 0 {
        lemma_segments_below(nodes, lo - 1, hi - 1);
        lemma_segments_from(nodes[hi - 1].regions(), 0);
    }
}

/// The sums over regions only depend on the regions from the bound on.
proof fn lemma_regions_same(
    before: Seq<Region>,
    a: Seq<Region>,
    b: Seq<Region>,
    policy: TrimPolicy,
    freed: int,
    lo: int,
)
    requires
        a.len() == before.len(),
        b.len() == before.len(),
        0 <= lo,
        forall|r: int| lo <= r < before.len() ==> (#[trigger] a[r]).segments() == b[r].segments(),
    ensures
        cleaned_regions(before, a, lo) == cleaned_regions(before, b, lo),
        regions_sums(before, a, policy, freed, lo) == regions_sums(before, b, policy, freed, lo),
    decreases before.len() - lo,
{
    if lo < before.len() {
        lemma_regions_same(before, a, b, policy, freed, lo + 1);
        assert(a[lo].segments() == b[lo].segments());
    }
}

/// More regions have no fewer cleaned slots.
proof fn lemma_cleaned_regions_grow(before: Seq<Region>, after: Seq<Region>, lo: int, hi: int)
    requires
        0 <= lo <= hi,
    ensures
        0 <= cleaned_regions(before, after, hi) <= cleaned_regions(before, after, lo),
    decreases before.len() - lo,
{
    if lo < before.len() {
        segment_trim::lemma_cleaned_segments_grow(
            before[lo].segments(),
            after[lo].segments(),
            0,
            before[lo].segments().len() as int,
        );
        if lo < hi {
            lemma_cleaned_regions_grow(before, after, lo + 1, hi);
        } else {
            lemma_cleaned_regions_grow(before, after, lo + 1, hi + 1);
        }
    }
}

/// Regions below `lo` that were left alone add nothing once the request is met.
proof fn lemma_regions_rest(
    before: Seq<Region>,
    after: Seq<Region>,
    policy: TrimPolicy,
    freed: int,
    lo: int,
)
    requires
        after.len() == before.len(),
        0 <= lo <= before.len(),
        forall|r: int| 0 <= r < lo ==> (#[trigger] after[r]).segments() == before[r].segments(),
        policy.reached(freed + SLOT_BYTES * cleaned_regions(before, after, lo)),
    ensures
        cleaned_regions(before, after, 0) == cleaned_regions(before, after, lo),
        regions_sums(before, after, policy, freed, 0) == regions_sums(
            before,
            after,
            policy,
            freed,
            lo,
        ),
    decreases lo,
{
    if lo > 0 {
        let segments = before[lo - 1].segments();
        assert(after[lo - 1].segments() == segments);
        segment_trim::lemma_untouched_rest(segments, segments, 0, segments.len() as int);
        segment_trim::lemma_sums_rest(
            segments,
            segments,
            policy,
            freed + SLOT_BYTES * cleaned_regions(before, after, lo),
            0,
            segments.len() as int,
        );
        lemma_regions_rest(before, after, policy, freed, lo - 1);
    }
}

/// The sums over nodes only depend on the nodes below the bound.
proof fn lemma_nodes_same(
    before: Seq<Node>,
    a: Seq<Node>,
    b: Seq<Node>,
    policy: TrimPolicy,
    hi: int,
)
    requires
        forall|n: int| 0 <= n < hi ==> #[trigger] a[n] == b[n],
    ensures
        cleaned_nodes(before, a, hi) == cleaned_nodes(before, b, hi),
        nodes_sums(before, a, policy, hi) == nodes_sums(before, b, policy, hi),
    decreases hi,
{
    if hi > 0 {
        lemma_nodes_same(before, a, b, policy, hi - 1);
        assert(a[hi - 1] == b[hi - 1]);
    }
}

/// Nodes that were left alone add nothing once the request is met.
proof fn lemma_nodes_rest(
    before: Seq<Node>,
    after: Seq<Node>,
    policy: TrimPolicy,
    lo: int,
    hi: int,
)
    requires
        0 <= lo <= hi,
        forall|n: int| lo <= n < hi ==> #[trigger] after[n] == before[n],
        policy.reached(SLOT_BYTES * cleaned_nodes(before, after, lo)),
    ensures
        cleaned_nodes(before, after, hi) == cleaned_nodes(before, after, lo),
        nodes_sums(before, after, policy, hi) == nodes_sums(before, after, policy, lo),
    decreases hi,
{
    if hi > lo {
        lemma_nodes_rest(before, after, policy, lo, hi - 1);
        assert(after[hi - 1] == before[hi - 1]);
        let regions = before[hi - 1].regions();
        lemma_regions_rest(
            regions,
            regions,
            policy,
            SLOT_BYTES * cleaned_nodes(before, after, hi - 1),
            regions.len() as int,
        );
    }
}

/// What the first `hi` segments contribute to a measure.
pub open spec fn measured_segments(segments: Seq<Segment>, m: Measure, hi: int) -> int
    decreases hi,
{
    if hi <= 0 {
        0
    } else {
        measured_segments(segments, m, hi - 1) + m.below(segments[hi - 1].word(), 16)
    }
}

/// What the regions from `lo` on contribute to a measure.
pub open spec fn measured_regions(regions: Seq<Region>, m: Measure, lo: int) -> int
    decreases regions.len() - lo,
{
    if lo >= regions.len() {
        0
    } else {
        measured_segments(regions[lo].segments(), m, regions[lo].segments().len() as int)
            + measured_regions(regions, m, lo + 1)
    }
}

/// What the first `hi` nodes contribute to a measure.
pub open spec fn measured_nodes(nodes: Seq<Node>, m: Measure, hi: int) -> int
    decreases hi,
{
    if hi <= 0 {
        0
    } else {
        measured_nodes(nodes, m, hi - 1) + measured_regions(nodes[hi - 1].regions(), m, 0)
    }
}

/// Regions of the first `hi` nodes.
pub open spec fn regions_below(nodes: Seq<Node>, hi: int) -> int
    decreases hi,
{
    if hi <= 0 {
        0
    } else {
        regions_below(nodes, hi - 1) + nodes[hi - 1].regions().len()
    }
}

/// A measure of so many segments is no larger.
pub open spec fn measure_limit(m: Measure, segments: int) -> int {
    if m is Bytes {
        segments * SEGMENT_BYTES
    } else {
        segments * 16
    }
}

/// Changing one segment, but neither its place nor the hints, keeps a node well formed.
proof fn lemma_segment_replaced(before: &Node, after: &Node, r: int, k: int)
    requires
        before.wf(),
        before.has(r, k),
        before.same_but(after, r, k),
        after.lanes@ == before.lanes@,
        after.at(r, k).wf(),
        after.at(r, k).start() == before.at(r, k).start(),
    ensures
        after.wf(),
{
    assert forall|i: int| 0 <= i < after.regions().len() implies (#[trigger] after.regions()[i]).wf() by {
        assert(before.regions()[i].wf());
        assert forall|j: int| 0 <= j < after.regions()[i].segments().len() implies (
        #[trigger] after.regions()[i].segments()[j]).wf() && after.regions()[i].segments()[j].start()
            == after.regions()[i].start() + j * SEGMENT_BYTES by {
            assert(before.regions()[i].segments()[j].wf());
            assert(before.has(i, j));
            if !(i == r && j == k) {
                assert(after.at(i, j) == before.at(i, j));
            }
        }
    }
    assert forall|lane: int, order: int| 0 <= lane < after.lane_count() && 0 <= order < 5 implies match
        #[trigger] after.hint(lane, order) {
        Some((r, k)) => after.has(r as int, k as int),
        None => true,
    } by {
        assert(after.hint(lane, order) == before.hint(lane, order));
    }
}

/// Trimming one region of a node that is being trimmed.
proof fn lemma_region_trimmed(before: &Node, mid: &Node, after: &Node, r: int)
    requires
        before.wf(),
        mid.wf(),
        same_places(before, mid),
        mid.lanes@ == before.lanes@,
        after.lanes@ == before.lanes@,
        0 <= r < before.regions().len(),
        mid.regions()[r] == before.regions()[r],
        after.regions().len() == before.regions().len(),
        forall|i: int|
            0 <= i < before.regions().len() ==> (#[trigger] mid.regions()[i]).segments().len()
                == before.regions()[i].segments().len(),
        forall|i: int|
            0 <= i < before.regions().len() && i != r ==> #[trigger] after.regions()[i]
                == mid.regions()[i],
        after.regions()[r].start() == before.regions()[r].start(),
        after.regions()[r].len() == before.regions()[r].len(),
        after.regions()[r].segments().len() == before.regions()[r].segments().len(),
        forall|k: int|
            0 <= k < before.regions()[r].segments().len() ==> segment_trim::kept(
                before.regions()[r].segments()[k],
                #[trigger] after.regions()[r].segments()[k],
            ),
    ensures
        after.wf(),
        same_places(before, after),
        forall|i: int|
            0 <= i < before.regions().len() ==> (#[trigger] after.regions()[i]).segments().len()
                == before.regions()[i].segments().len(),
{
    assert forall|i: int| 0 <= i < after.regions().len() implies (#[trigger] after.regions()[i]).wf() by {
        assert(mid.regions()[i].wf());
        assert(before.regions()[i].wf());
        if i == r {
            assert forall|j: int| 0 <= j < after.regions()[i].segments().len() implies (
            #[trigger] after.regions()[i].segments()[j]).wf()
                && after.regions()[i].segments()[j].start() == after.regions()[i].start() + j
                * SEGMENT_BYTES by {
                assert(before.regions()[i].segments()[j].wf());
            }
        }
    }
    assert forall|i: int| 0 <= i < before.regions().len() implies (
    #[trigger] after.regions()[i]).start() == before.regions()[i].start()
        && after.regions()[i].len() == before.regions()[i].len()
        && after.regions()[i].segments().len() == before.regions()[i].segments().len() by {
        assert(mid.regions()[i].start() == before.regions()[i].start());
    }
    assert forall|lane: int, order: int| 0 <= lane < after.lane_count() && 0 <= order < 5 implies match
        #[trigger] after.hint(lane, order) {
        Some((r, k)) => after.has(r as int, k as int),
        None => true,
    } by {
        assert(after.hint(lane, order) == before.hint(lane, order));
    }
}

/// The regions of one memory node.
pub struct Node {
    regions: Vec<Region>,
    growth: SpinLock<()>,
    lanes: Vec<HintLane>,
}

impl Node {
    /// Regions from the oldest to the newest.
    pub closed spec fn regions(&self) -> Seq<Region> {
        self.regions@
    }

    pub closed spec fn growth_locked(&self) -> bool {
        self.growth.locked()
    }

    pub closed spec fn lane_count(&self) -> nat {
        self.lanes@.len()
    }

    /// Where a lane looks first for a block of the given order.
    pub closed spec fn hint(&self, lane: int, order: int) -> Option<(usize, usize)> {
        self.lanes@[lane].orders@[order]
    }

    pub open spec fn has(&self, r: int, k: int) -> bool {
        0 <= r < self.regions().len() && 0 <= k < self.regions()[r].segments().len()
    }

    pub open spec fn at(&self, r: int, k: int) -> Segment {
        self.regions()[r].segments()[k]
    }

    pub closed spec fn lanes_ok(&self) -> bool {
        forall|l: int| 0 <= l < self.lanes@.len() ==> (#[trigger] self.lanes@[l]).orders@.len() == 5
    }

    /// All regions are well formed and all hints name segments that exist.
    pub open spec fn wf(&self) -> bool {
        &&& self.lane_count() >= 1
        &&& self.lanes_ok()
        &&& forall|r: int| 0 <= r < self.regions().len() ==> (#[trigger] self.regions()[r]).wf()
        &&& forall|lane: int, order: int|
            0 <= lane < self.lane_count() && 0 <= order < 5 ==> match #[trigger] self.hint(
                lane,
                order,
            ) {
                Some((r, k)) => self.has(r as int, k as int),
                None => true,
            }
    }

    /// Everything but segment `k` of region `r` and the hints is the same in `after`.
    pub open spec fn same_but(&self, after: &Self, r: int, k: int) -> bool {
        &&& after.regions().len() == self.regions().len()
        &&& after.lane_count() == self.lane_count()
        &&& after.growth_locked() == self.growth_locked()
        &&& forall|i: int| 0 <= i < self.regions().len() ==> {
            &&& (#[trigger] after.regions()[i]).start() == self.regions()[i].start()
            &&& after.regions()[i].len() == self.regions()[i].len()
            &&& after.regions()[i].segments().len() == self.regions()[i].segments().len()
        }
        &&& forall|i: int, j: int|
            self.has(i, j) && !(i == r && j == k) ==> #[trigger] after.at(i, j) == self.at(i, j)
    }

    fn try_segment(&mut self, r: usize, k: usize, order: usize) -> (block: Option<Allocation>)
        requires
            old(self).wf(),
            old(self).has(r as int, k as int),
            order < BUDDY_NUM_ORDERS,
        ensures
            final(self).wf(),
            final(self).lanes@ == old(self).lanes@,
            old(self).same_but(final(self), r as int, k as int),
            block is Some <==> has_room(old(self).at(r as int, k as int), order as int),
            block is None ==> *final(self) == *old(self),
            block matches Some(b) ==> block_from(
                old(self).at(r as int, k as int),
                final(self).at(r as int, k as int),
                order as int,
                b,
            ),
    {
        let ghost before = *self;
        if !self.regions[r].segments[k].has_room(order) {
            return None;
        }
        let base: usize = self.regions[r].segments[k].base();
        let found = self.regions[r].segments[k].allocate(order);
        proof {
            lemma_segment_replaced(&before, self, r as int, k as int);
        }
        match found {
            None => None,
            Some((addr, flags)) => Some(
                Allocation { addr, order: order + BIG_BUDDY_MIN_ORDER, flags, region: base },
            ),
        }
    }

    /// Gives a block back to segment `k` of region `r`.
    fn free_in(&mut self, r: usize, k: usize, addr: usize, order: usize, stamp: u32)
        requires
            old(self).wf(),
            old(self).has(r as int, k as int),
        ensures
            final(self).wf(),
            final(self).lanes@ == old(self).lanes@,
            old(self).same_but(final(self), r as int, k as int),
            block_returned(
                old(self).at(r as int, k as int),
                final(self).at(r as int, k as int),
                addr as int,
                order as int,
                stamp,
            ),
    {
        let ghost before = *self;
        self.regions[r].segments[k].free(addr, order, stamp);
        proof {
            lemma_segment_replaced(&before, self, r as int, k as int);
        }
    }

    /// Doubles a block of segment `k` of region `r` in place.
    fn grow_in(&mut self, r: usize, k: usize, addr: usize, order: usize) -> (grown: bool)
        requires
            old(self).wf(),
            old(self).has(r as int, k as int),
        ensures
            final(self).wf(),
            final(self).lanes@ == old(self).lanes@,
            old(self).same_but(final(self), r as int, k as int),
            grown <==> grows(old(self).at(r as int, k as int), addr as int, order as int),
            block_grown(
                old(self).at(r as int, k as int),
                final(self).at(r as int, k as int),
                addr as int,
                order as int,
            ),
    {
        let ghost before = *self;
        let grown: bool = self.regions[r].segments[k].grow(addr, order);
        proof {
            lemma_segment_replaced(&before, self, r as int, k as int);
        }
        grown
    }

    /// Finds the segment that starts at `base`.
    fn locate(&self, base: usize) -> (found: Option<(usize, usize)>)
        ensures
            found is None <==> forall|r: int, k: int|
                self.has(r, k) ==> (#[trigger] self.at(r, k)).start() != base,
            found matches Some((r, k)) ==> self.has(r as int, k as int) && self.at(
                r as int,
                k as int,
            ).start() == base,
    {
        let mut r: usize = 0;
        while r < self.regions.len()
            invariant
                r <= self.regions.len(),
                forall|i: int, k: int|
                    i < r && self.has(i, k) ==> (#[trigger] self.at(i, k)).start() != base,
            decreases self.regions.len() - r,
        {
            let mut k: usize = 0;
            while k < self.regions[r].segments.len()
                invariant
                    r < self.regions.len(),
                    k <= self.regions@[r as int].segments.len(),
                    forall|i: int, j: int|
                        (i < r || (i == r && j < k)) && self.has(i, j) ==> (
                        #[trigger] self.at(i, j)).start() != base,
                decreases self.regions@[r as int].segments.len() - k,
            {
                if self.regions[r].segments[k].base() == base {
                    assert(self.at(r as int, k as int).start() == base);
                    return Some((r, k));
                }
                k = k + 1;
            }
            r = r + 1;
        }
        None
    }

    spec fn same_fields(&self, after: &Self) -> bool {
        after.regions@ == self.regions@ && after.lanes@ == self.lanes@
    }

    /// Nothing but the growth lock may differ in `after`.
    pub open spec fn same_content(&self, after: &Self) -> bool {
        &&& after.regions() == self.regions()
        &&& after.lane_count() == self.lane_count()
        &&& after.lanes_ok() == self.lanes_ok()
        &&& self.hints_but(after, -1, -1)
    }

    /// `advise` may be called on the slots of this node that a trim gives back.
    pub open spec fn advisable<F: Fn(usize, usize) -> bool>(
        &self,
        policy: TrimPolicy,
        advise: F,
    ) -> bool {
        forall|r: int, k: int|
            self.has(r, k) ==> segment_trim::advisable(#[trigger] self.at(r, k), policy, advise)
    }

    /// `after` is this node after a trim that had given `freed` bytes back before: the regions were
    /// trimmed from the newest to the oldest.
    pub open spec fn trimmed<F: Fn(usize, usize) -> bool>(
        &self,
        after: &Self,
        policy: TrimPolicy,
        advise: F,
        freed: int,
    ) -> bool {
        &&& after.lane_count() == self.lane_count()
        &&& after.growth_locked() == self.growth_locked()
        &&& self.hints_but(after, -1, -1)
        &&& same_places(self, after)
        &&& forall|r: int|
            0 <= r < self.regions().len() ==> #[trigger] region_trimmed(
                self.regions(),
                after.regions(),
                policy,
                advise,
                freed,
                r,
            )
    }

    /// Trims the regions from the newest to the oldest until the statistics reach the requested
    /// number of bytes; tells whether they did.
    fn trim<F: Fn(usize, usize) -> bool>(
        &mut self,
        policy: TrimPolicy,
        stats: &mut TrimStats,
        advise: &F,
    ) -> (done: bool)
        requires
            old(self).wf(),
            old(self).advisable(policy, *advise),
            policy.requested == 0 || old(stats).bytes < policy.requested,
            old(stats).bytes + segments_from(old(self).regions(), 0) * SEGMENT_BYTES <= usize::MAX,
            old(stats).ages + segments_from(old(self).regions(), 0) * SEGMENT_AGES <= u64::MAX,
            old(stats).samples + segments_from(old(self).regions(), 0) * 16 <= u64::MAX,
        ensures
            final(self).wf(),
            old(self).trimmed(final(self), policy, *advise, old(stats).bytes as int),
            done <==> policy.reached(final(stats).bytes as int),
            policy.requested != 0 ==> final(stats).bytes < policy.requested + SLOT_BYTES,
            (final(stats).ages - old(stats).ages, final(stats).samples - old(stats).samples)
                == regions_sums(
                old(self).regions(),
                final(self).regions(),
                policy,
                old(stats).bytes as int,
                0,
            ),
            final(stats).bytes == old(stats).bytes + SLOT_BYTES * cleaned_regions(
                old(self).regions(),
                final(self).regions(),
                0,
            ),
            final(stats).bytes <= old(stats).bytes + segments_from(old(self).regions(), 0)
                * SEGMENT_BYTES,
            final(stats).ages <= old(stats).ages + segments_from(old(self).regions(), 0)
                * SEGMENT_AGES,
            final(stats).samples <= old(stats).samples + segments_from(old(self).regions(), 0)
                * 16,
    {
        let ghost before = *self;
        let ghost all = self.regions();
        let ghost freed = stats.bytes as int;
        let mut r: usize = self.regions.len();
        while r > 0
            invariant
                r <= all.len(),
                all == before.regions(),
                before == *old(self),
                freed == old(stats).bytes,
                before.wf(),
                before.advisable(policy, *advise),
                self.wf(),
                self.lanes@ == before.lanes@,
                self.growth_locked() == before.growth_locked(),
                same_places(&before, self),
                forall|i: int|
                    0 <= i < all.len() ==> (#[trigger] self.regions()[i]).segments().len()
                        == all[i].segments().len(),
                forall|i: int| 0 <= i < r ==> #[trigger] self.regions()[i] == all[i],
                forall|i: int|
                    r <= i < all.len() ==> #[trigger] region_trimmed(
                        all,
                        self.regions(),
                        policy,
                        *advise,
                        freed,
                        i,
                    ),
                policy.requested == 0 || stats.bytes < policy.requested,
                stats.bytes == freed + SLOT_BYTES * cleaned_regions(
                    all,
                    self.regions(),
                    r as int,
                ),
                (stats.ages - old(stats).ages, stats.samples - old(stats).samples)
                    == regions_sums(all, self.regions(), policy, freed, r as int),
                stats.bytes <= freed + segments_from(all, r as int) * SEGMENT_BYTES,
                stats.ages <= old(stats).ages + segments_from(all, r as int) * SEGMENT_AGES,
                stats.samples <= old(stats).samples + segments_from(all, r as int) * 16,
                freed + segments_from(all, 0) * SEGMENT_BYTES <= usize::MAX,
                old(stats).ages + segments_from(all, 0) * SEGMENT_AGES <= u64::MAX,
                old(stats).samples + segments_from(all, 0) * 16 <= u64::MAX,
            decreases r,
        {
            let ghost mid = *self;
            r = r - 1;
            proof {
                lemma_segments_from(all, r as int);
                lemma_segments_from(all, r + 1);
                assert(mid.regions()[r as int] == all[r as int]);
                assert(all[r as int].wf());
                assert forall|k: int| 0 <= k < all[r as int].segments().len() implies
                    segment_trim::advisable(
                    #[trigger] all[r as int].segments()[k],
                    policy,
                    *advise,
                ) by {
                    assert(before.has(r as int, k));
                    assert(segment_trim::advisable(before.at(r as int, k), policy, *advise));
                }
            }
            let done: bool = segment_trim::trim_segments(
                &mut self.regions[r].segments,
                policy,
                stats,
                advise,
            );
            proof {
                lemma_regions_same(all, mid.regions(), self.regions(), policy, freed, r + 1);
                lemma_region_trimmed(&before, &mid, self, r as int);
                assert forall|i: int| r <= i < all.len() implies #[trigger] region_trimmed(
                    all,
                    self.regions(),
                    policy,
                    *advise,
                    freed,
                    i,
                ) by {
                    lemma_regions_same(all, mid.regions(), self.regions(), policy, freed, i + 1);
                    if i > r {
                        assert(self.regions()[i] == mid.regions()[i]);
                        assert(region_trimmed(all, mid.regions(), policy, *advise, freed, i));
                    }
                }
            }
            if done {
                proof {
                    lemma_segments_from(all, r as int);
                    lemma_regions_rest(all, self.regions(), policy, freed, r as int);
                    assert forall|i: int| 0 <= i < all.len() implies #[trigger] region_trimmed(
                        all,
                        self.regions(),
                        policy,
                        *advise,
                        freed,
                        i,
                    ) by {
                        if i < r {
                            assert(self.regions()[i] == all[i]);
                            lemma_cleaned_regions_grow(all, self.regions(), i + 1, r as int);
                            assert(all[i].wf());
                            segment_trim::lemma_segments_skipped(
                                all[i].segments(),
                                policy,
                                *advise,
                                freed + SLOT_BYTES * cleaned_regions(all, self.regions(), i + 1),
                            );
                        }
                    }
                }
                return true;
            }
        }
        false
    }

    /// Adds the regions of this node to a report, from the newest to the oldest.
    fn report(&self, report: &mut BuddyBackendReport, Ghost(seen): Ghost<int>)
        requires
            self.wf(),
            0 <= seen,
            old(report).regions <= seen,
            old(report).total_region_bytes == seen * SEGMENT_BYTES,
            (seen + segments_from(self.regions(), 0)) * SEGMENT_BYTES <= usize::MAX,
            forall|m: Measure| #[trigger] m.counted() ==> old(report).read(m) <= measure_limit(
                m,
                seen,
            ),
        ensures
            final(report).grow_order == old(report).grow_order,
            final(report).thp == old(report).thp,
            final(report).regions == old(report).regions + self.regions().len(),
            final(report).regions <= seen + segments_from(self.regions(), 0),
            final(report).total_region_bytes == (seen + segments_from(self.regions(), 0))
                * SEGMENT_BYTES,
            forall|m: Measure| #[trigger] m.counted() ==> final(report).read(m) == old(report).read(
                m,
            ) + measured_regions(self.regions(), m, 0),
            forall|m: Measure| #[trigger] m.counted() ==> final(report).read(m) <= measure_limit(
                m,
                seen + segments_from(self.regions(), 0),
            ),
    {
        let ghost all = self.regions();
        let mut r: usize = self.regions.len();
        proof {
            lemma_segments_from(all, 0);
        }
        while r > 0
            invariant
                0 <= seen,
                r <= all.len(),
                all == self.regions(),
                self.wf(),
                report.grow_order == old(report).grow_order,
                report.thp == old(report).thp,
                report.regions == old(report).regions + (all.len() - r),
                report.regions <= seen + segments_from(all, r as int),
                report.total_region_bytes == (seen + segments_from(all, r as int)) * SEGMENT_BYTES,
                (seen + segments_from(all, 0)) * SEGMENT_BYTES <= usize::MAX,
                forall|m: Measure| #[trigger] m.counted() ==> report.read(m) == old(report).read(m)
                    + measured_regions(all, m, r as int),
                forall|m: Measure| #[trigger] m.counted() ==> report.read(m) <= measure_limit(
                    m,
                    seen + segments_from(all, r as int),
                ),
            decreases r,
        {
            r = r - 1;
            proof {
                lemma_segments_from(all, r as int);
                lemma_segments_from(all, r + 1);
                assert(all[r as int].wf());
            }
            let ghost before = *report;
            let ghost base = seen + segments_from(all, r + 1);
            report.regions = report.regions + 1;
            report.total_region_bytes = report.total_region_bytes.saturating_add(
                self.regions[r].bytes,
            );
            let count: usize = self.regions[r].segments.len();
            let mut k: usize = 0;
            let ghost segments = all[r as int].segments();
            while k < count
                invariant
                    0 <= base,
                    r < all.len(),
                    all == self.regions(),
                    segments == all[r as int].segments(),
                    count == segments.len(),
                    k <= count,
                    (base + count) * SEGMENT_BYTES <= usize::MAX,
                    report.grow_order == before.grow_order,
                    report.thp == before.thp,
                    report.regions == before.regions + 1,
                    report.total_region_bytes == before.total_region_bytes + count
                        * SEGMENT_BYTES,
                    forall|m: Measure| #[trigger] m.counted() ==> report.read(m) == before.read(m)
                        + measured_segments(segments, m, k as int),
                    forall|m: Measure| #[trigger] m.counted() ==> report.read(m) <= measure_limit(
                        m,
                        base + k,
                    ),
                decreases count - k,
            {
                report.add_segment(self.regions[r].segments[k].snapshot());
                k = k + 1;
            }
        }
    }

    /// A node without regions.
    pub fn new(lane_count: usize) -> (r: Self)
        requires
            lane_count >= 1,
        ensures
            r.wf(),
            r.regions().len() == 0,
            r.lane_count() == lane_count,
            !r.growth_locked(),
            forall|lane: int, order: int|
                0 <= lane < lane_count && 0 <= order < 5 ==> #[trigger] r.hint(lane, order) is None,
    {
        let mut lanes: Vec<HintLane> = Vec::new();
        while lanes.len() < lane_count
            invariant
                lanes@.len() <= lane_count,
                forall|l: int|
                    0 <= l < lanes@.len() ==> (#[trigger] lanes@[l]).orders@ == seq![
                        None::<(usize, usize)>,
                        None,
                        None,
                        None,
                        None,
                    ],
            decreases lane_count - lanes@.len(),
        {
            lanes.push(HintLane { orders: [None, None, None, None, None] });
        }
        Node { regions: Vec::new(), growth: SpinLock::new(()), lanes }
    }

    /// Adds a region; it is the first one that later walks visit.
    pub fn publish(&mut self, region: Region)
        requires
            old(self).wf(),
            region.wf(),
        ensures
            final(self).wf(),
            final(self).regions() == old(self).regions().push(region),
            final(self).lane_count() == old(self).lane_count(),
            final(self).growth_locked() == old(self).growth_locked(),
            old(self).hints_but(final(self), -1, -1),
    {
        let ghost before = *self;
        self.regions.push(region);
        proof {
            assert(self.regions() == before.regions().push(region));
            assert forall|r: int| 0 <= r < self.regions().len() implies (
            #[trigger] self.regions()[r]).wf() by {
                if r < before.regions().len() {
                    assert(self.regions()[r] == before.regions()[r]);
                }
            }
            assert(self.lanes_ok()) by {
                assert(before.lanes_ok());
            }
            assert forall|l: int, o: int| 0 <= l < self.lane_count() && 0 <= o < 5 implies match
                #[trigger] self.hint(l, o) {
                Some((r, k)) => self.has(r as int, k as int),
                None => true,
            } by {
                assert(self.hint(l, o) == before.hint(l, o));
            }
        }
    }

    /// Adds a fresh region and hands out a block from its first segment to `lane`.
    pub fn extend(&mut self, region: Region, order: usize, lane: usize) -> (block: Allocation)
        requires
            old(self).wf(),
            region.wf(),
            region.segments()[0].word() == 0,
            order < BUDDY_NUM_ORDERS,
            lane < old(self).lane_count(),
        ensures
            final(self).wf(),
            final(self).lane_count() == old(self).lane_count(),
            final(self).growth_locked() == old(self).growth_locked(),
            old(self).extended(final(self), region, order as int, lane as int, block),
    {
        let ghost before = *self;
        let r: usize = self.regions.len();
        self.publish(region);
        let ghost mid = *self;
        proof {
            lemma_fresh_segment(region.segments()[0], order as int);
            assert(mid.at(r as int, 0) == region.segments()[0]);
        }
        let found = self.try_segment(r, 0, order);
        let ghost served = *self;
        self.lanes[lane].orders[order] = Some((r, 0));
        proof {
            assert(self.regions() == served.regions());
            assert forall|l: int, o: int| 0 <= l < self.lane_count() && 0 <= o < 5 implies match
                #[trigger] self.hint(l, o) {
                Some((r, k)) => self.has(r as int, k as int),
                None => true,
            } by {
                assert(served.hint(l, o) == mid.hint(l, o));
                assert(mid.hint(l, o) == before.hint(l, o));
            }
            assert forall|l: int, o: int|
                0 <= l < self.lane_count() && 0 <= o < 5 && !(l == lane && o == order) implies
                #[trigger] self.hint(l, o) == before.hint(l, o) by {
                assert(served.hint(l, o) == mid.hint(l, o));
                assert(mid.hint(l, o) == before.hint(l, o));
            }
            assert forall|i: int| 0 <= i < before.regions().len() implies {
                &&& (#[trigger] self.regions()[i]).start() == before.regions()[i].start()
                &&& self.regions()[i].len() == before.regions()[i].len()
                &&& self.regions()[i].segments().len() == before.regions()[i].segments().len()
            } by {
                assert(served.regions()[i].start() == mid.regions()[i].start());
                assert(mid.regions()[i] == before.regions()[i]);
            }
            assert forall|i: int, j: int| before.has(i, j) implies #[trigger] self.at(i, j)
                == before.at(i, j) by {
                assert(mid.has(i, j));
                assert(served.at(i, j) == mid.at(i, j));
                assert(mid.regions()[i] == before.regions()[i]);
            }
            assert forall|k: int| 1 <= k < region.segments().len() implies #[trigger] self.at(
                r as int,
                k,
            ) == region.segments()[k] by {
                assert(mid.has(r as int, k));
                assert(served.at(r as int, k) == mid.at(r as int, k));
            }
        }
        match found {
            Some(block) => block,
            None => Allocation {
                addr: 0,
                order: 0,
                flags: Flags::NotAllocated,
                region: 0,
            },
        }
    }

    /// `after` is this node with `region` added and `block` handed out from the start of it to
    /// `lane`.
    pub open spec fn extended(
        &self,
        after: &Self,
        region: Region,
        order: int,
        lane: int,
        block: Allocation,
    ) -> bool {
        let last = self.regions().len() as int;
        &&& after.regions().len() == last + 1
        &&& forall|i: int| 0 <= i < last ==> {
            &&& (#[trigger] after.regions()[i]).start() == self.regions()[i].start()
            &&& after.regions()[i].len() == self.regions()[i].len()
            &&& after.regions()[i].segments().len() == self.regions()[i].segments().len()
        }
        &&& forall|i: int, j: int| self.has(i, j) ==> #[trigger] after.at(i, j) == self.at(i, j)
        &&& after.regions()[last].start() == region.start()
        &&& after.regions()[last].len() == region.len()
        &&& after.regions()[last].segments().len() == region.segments().len()
        &&& forall|k: int|
            1 <= k < region.segments().len() ==> #[trigger] after.at(last, k)
                == region.segments()[k]
        &&& block_from(region.segments()[0], after.at(last, 0), order, block)
        &&& block.addr == region.start()
        &&& block.flags == Flags::NotAllocated
        &&& after.hint(lane, order) == Some((last as usize, 0usize))
        &&& self.hints_but(after, lane, order)
    }

    /// The segment that `lane` prefers for the given order has room.
    pub open spec fn hint_has_room(&self, lane: int, order: int) -> bool {
        match self.hint(lane, order) {
            Some((r, k)) => has_room(self.at(r as int, k as int), order),
            None => false,
        }
    }

    /// Segment `k` of region `r` serves `lane`: it is the preferred one, or, when that one has no
    /// room, the first one with room on a walk from the newest region to the oldest that starts in
    /// each region at a segment that depends on the lane.
    pub open spec fn serves(&self, order: int, lane: int, r: int, k: int) -> bool {
        &&& self.has(r, k)
        &&& has_room(self.at(r, k), order)
        &&& self.hint(lane, order) == Some((r as usize, k as usize)) || !self.hint_has_room(
            lane,
            order,
        )
        &&& self.hint_has_room(lane, order) || forall|i: int, j: int|
            self.has(i, j) && has_room(#[trigger] self.at(i, j), order) ==> i < r || (i == r && turn(
                lane,
                self.regions()[r].segments().len() as int,
                k,
            ) <= turn(lane, self.regions()[r].segments().len() as int, j))
    }

    /// All hints but the one of `lane` for the given order are the same in `after`.
    pub open spec fn hints_but(&self, after: &Self, lane: int, order: int) -> bool {
        forall|l: int, o: int|
            0 <= l < self.lane_count() && 0 <= o < 5 && !(l == lane && o == order)
                ==> #[trigger] after.hint(l, o) == self.hint(l, o)
    }

    /// `after` is this node once `b` was handed out to `lane`.
    pub open spec fn served(&self, after: &Self, order: int, lane: int, b: Allocation) -> bool {
        exists|r: int, k: int|
            {
                &&& #[trigger] self.serves(order, lane, r, k)
                &&& self.same_but(after, r, k)
                &&& block_from(self.at(r, k), after.at(r, k), order, b)
                &&& after.hint(lane, order) == Some((r as usize, k as usize))
            }
    }

    /// No segment has room for a block of the given order.
    pub open spec fn is_full(&self, order: int) -> bool {
        forall|r: int, k: int| self.has(r, k) ==> !has_room(#[trigger] self.at(r, k), order)
    }

    /// Hands out a block of the given order to `lane` and remembers where it came from.
    pub fn allocate(&mut self, order: usize, lane: usize) -> (block: Option<Allocation>)
        requires
            old(self).wf(),
            order < BUDDY_NUM_ORDERS,
            lane < old(self).lane_count(),
        ensures
            final(self).wf(),
            block is None <==> old(self).is_full(order as int),
            old(self).hints_but(final(self), lane as int, order as int),
            block is None ==> *final(self) == *old(self),
            block matches Some(b) ==> old(self).served(final(self), order as int, lane as int, b),
    {
        let ghost before = *self;
        let preferred: Option<(usize, usize)> = self.lanes[lane].orders[order];
        proof {
            assert(preferred == before.hint(lane as int, order as int));
        }
        if let Some((r, k)) = preferred {
            let found = self.try_segment(r, k, order);
            if found.is_some() {
                proof {
                    assert(before.serves(order as int, lane as int, r as int, k as int));
                    assert forall|l: int, o: int| 0 <= l < self.lane_count() && 0 <= o < 5 implies
                        #[trigger] self.hint(l, o) == before.hint(l, o) by {}
                }
                return found;
            }
        }
        let mut r: usize = self.regions.len();
        while r > 0
            invariant
                r <= self.regions().len(),
                before == *old(self),
                before.wf(),
                self.wf(),
                order < BUDDY_NUM_ORDERS,
                lane < self.lane_count(),
                *self == before,
                !before.hint_has_room(lane as int, order as int),
                forall|i: int, j: int|
                    before.has(i, j) && i >= r ==> !has_room(
                        #[trigger] before.at(i, j),
                        order as int,
                    ),
            decreases r,
        {
            r = r - 1;
            let count: usize = self.regions[r].segments.len();
            assert(before.regions()[r as int].wf());
            assert(count == before.regions()[r as int].segments().len());
            let mut index: usize = lane % count;
            let mut steps: usize = 0;
            while steps < count
                invariant
                    r < self.regions().len(),
                    before == *old(self),
                    before.wf(),
                    self.wf(),
                    order < BUDDY_NUM_ORDERS,
                    lane < self.lane_count(),
                    *self == before,
                    !before.hint_has_room(lane as int, order as int),
                    forall|i: int, j: int|
                        before.has(i, j) && i > r ==> !has_room(
                            #[trigger] before.at(i, j),
                            order as int,
                        ),
                    count == before.regions()[r as int].segments().len(),
                    steps <= count,
                    index < count,
                    steps < count ==> turn(lane as int, count as int, index as int) == steps,
                    forall|j: int|
                        0 <= j < count && turn(lane as int, count as int, j) < steps ==> !has_room(
                            #[trigger] before.at(r as int, j),
                            order as int,
                        ),
                decreases count - steps,
            {
                assert(before.has(r as int, index as int));
                assert(self.regions()[r as int].segments().len() == count);
                assert(self.at(r as int, index as int) == before.at(r as int, index as int));
                let found = self.try_segment(r, index, order);
                if found.is_some() {
                    let ghost mid = *self;
                    self.lanes[lane].orders[order] = Some((r, index));
                    proof {
                        assert(before.serves(order as int, lane as int, r as int, index as int));
                        assert(self.regions() == mid.regions());
                        assert forall|l: int, o: int|
                            0 <= l < self.lane_count() && 0 <= o < 5 && !(l == lane && o
                                == order) implies #[trigger] self.hint(l, o) == before.hint(
                            l,
                            o,
                        ) by {}
                        assert forall|l: int, o: int|
                            0 <= l < self.lane_count() && 0 <= o < 5 implies match #[trigger] self.hint(
                            l,
                            o,
                        ) {
                            Some((r, k)) => self.has(r as int, k as int),
                            None => true,
                        } by {
                            assert(mid.hint(l, o) == before.hint(l, o));
                        }
                        assert(self.at(r as int, index as int) == mid.at(r as int, index as int));
                        assert(before.same_but(self, r as int, index as int)) by {
                            assert forall|i: int, j: int|
                                before.has(i, j) && !(i == r && j == index) implies #[trigger] self.at(
                                i,
                                j,
                            ) == before.at(i, j) by {
                                assert(mid.at(i, j) == before.at(i, j));
                            }
                            assert forall|i: int| 0 <= i < before.regions().len() implies {
                                &&& (#[trigger] self.regions()[i]).start()
                                    == before.regions()[i].start()
                                &&& self.regions()[i].len() == before.regions()[i].len()
                                &&& self.regions()[i].segments().len()
                                    == before.regions()[i].segments().len()
                            } by {
                                assert(mid.regions()[i].start() == before.regions()[i].start());
                            }
                        }
                    }
                    return found;
                }
                proof {
                    assert forall|j: int|
                        0 <= j < count && turn(lane as int, count as int, j) < steps
                            + 1 implies !has_room(
                        #[trigger] before.at(r as int, j),
                        order as int,
                    ) by {
                        if turn(lane as int, count as int, j) == steps {
                            lemma_turn(lane as int, count as int, j, index as int);
                        }
                    }
                    lemma_turn_next(lane as int, count as int, index as int);
                }
                index = index + 1;
                if index == count {
                    index = 0;
                }
                steps = steps + 1;
            }
            proof {
                assert forall|i: int, j: int| before.has(i, j) && i >= r implies !has_room(
                    #[trigger] before.at(i, j),
                    order as int,
                ) by {
                    if i == r {
                        assert(turn(lane as int, count as int, j) < count);
                    }
                }
            }
        }
        None
    }
}

/// When a walk over `count` segments that starts at `lane % count` reaches segment `k`.
pub open spec fn turn(lane: int, count: int, k: int) -> int {
    if k >= lane % count {
        k - lane % count
    } else {
        k - lane % count + count
    }
}

proof fn lemma_turn(lane: int, count: int, j: int, k: int)
    requires
        0 <= lane,
        0 <= j < count,
        0 <= k < count,
        turn(lane, count, j) == turn(lane, count, k),
    ensures
        j == k,
{
    assert(0 <= lane % count < count) by (nonlinear_arith)
        requires
            0 <= lane,
            0 < count,
    ;
}

proof fn lemma_turn_next(lane: int, count: int, k: int)
    requires
        0 <= lane,
        0 <= k < count,
    ensures
        turn(lane, count, k) + 1 < count ==> turn(
            lane,
            count,
            if k + 1 == count {
                0
            } else {
                k + 1
            },
        ) == turn(lane, count, k) + 1,
{
    assert(0 <= lane % count < count) by (nonlinear_arith)
        requires
            0 <= lane,
            0 < count,
    ;
}

/// Bytes of the tables that describe the allocator.
pub const STATE_BYTES: usize = 64;

pub const NODE_BYTES: usize = 64;

pub const LANE_BYTES: usize = 64;

pub const REGION_HEADER_BYTES: usize = 64;

pub const SEGMENT_HEADER_BYTES: usize = 128;

/// The size of the first region for a configured size: the next power of two, but no less than one
/// segment, and one segment when there is no such power of two.
pub fn normalize_region_size(size: usize) -> (r: usize)
    ensures
        r >= SEGMENT_BYTES,
        r % SEGMENT_BYTES == 0,
        size <= SEGMENT_BYTES ==> r == SEGMENT_BYTES,
        size > SEGMENT_BYTES && (forall|e: nat| #[trigger]
            power2::pow2(e) <= usize::MAX ==> power2::pow2(e) < size) ==> r == SEGMENT_BYTES,
        size > SEGMENT_BYTES && (exists|e: nat| #[trigger]
            power2::pow2(e) <= usize::MAX && power2::pow2(e) >= size) ==> exists|e: nat|
            r == power2::pow2(e) && #[trigger] utility::ceil_log2(size as int, e),
{
    proof {
        power2::lemma2_to64();
    }
    match utility::checked_next_power_of_two(size) {
        None => SEGMENT_BYTES,
        Some(p) => {
            proof {
                let e = choose|e: nat|
                    p == power2::pow2(e) && #[trigger] utility::ceil_log2(size as int, e);
                if e > 26 {
                    power2::lemma_pow2_adds(26, (e - 26) as nat);
                    vstd::arithmetic::div_mod::lemma_mod_multiples_basic(
                        power2::pow2((e - 26) as nat) as int,
                        SEGMENT_BYTES as int,
                    );
                    power2::lemma_pow2_strictly_increases(26, e);
                    assert(p % SEGMENT_BYTES == 0);
                    if size <= SEGMENT_BYTES {
                        if e > 27 {
                            power2::lemma_pow2_strictly_increases(26, (e - 1) as nat);
                        }
                    }
                } else if e < 26 {
                    power2::lemma_pow2_strictly_increases(e, 26);
                }
            }
            if p > SEGMENT_BYTES {
                p
            } else {
                SEGMENT_BYTES
            }
        },
    }
}

/// One hint lane for each processor, within limits.
pub fn lane_count(ncpu: usize) -> (r: usize)
    ensures
        r == (if ncpu < 1 {
            1
        } else if ncpu > MAX_LANES {
            MAX_LANES as int
        } else {
            ncpu as int
        }),
{
    if ncpu < 1 {
        1
    } else if ncpu > MAX_LANES {
        MAX_LANES
    } else {
        ncpu
    }
}

/// The lane of a processor.
pub fn lane_for_cpu(cpu_id: usize, lane_count: usize) -> (r: usize)
    requires
        lane_count > 0,
    ensures
        r == cpu_id as int % lane_count as int,
        r < lane_count,
{
    proof {
        if cpu_id < lane_count {
            vstd::arithmetic::div_mod::lemma_small_mod(cpu_id as nat, lane_count as nat);
        }
    }
    if cpu_id < lane_count {
        cpu_id
    } else {
        cpu_id % lane_count
    }
}

/// The least order whose blocks hold `size` bytes.
pub open spec fn is_order_for(size: int, order: int) -> bool {
    &&& 0 <= order < BUDDY_NUM_ORDERS
    &&& size <= segment::block_bytes(order)
    &&& order > 0 ==> segment::block_bytes(order - 1) < size
}

/// The least order whose blocks hold `size` bytes.
pub fn order_for(size: usize) -> (r: usize)
    requires
        size <= SEGMENT_BYTES,
    ensures
        is_order_for(size as int, r as int),
{
    if size <= SLOT_BYTES {
        0
    } else if size <= 2 * SLOT_BYTES {
        1
    } else if size <= 4 * SLOT_BYTES {
        2
    } else if size <= 8 * SLOT_BYTES {
        3
    } else {
        4
    }
}

/// Bytes of the tables of an allocator with the given numbers of nodes and lanes, in whole pages.
pub open spec fn spec_table_bytes(nodes: int, lanes: int) -> int {
    utility::round_up(
        STATE_BYTES + nodes * NODE_BYTES + nodes * lanes * LANE_BYTES,
        utility::PAGE_SIZE as int,
    )
}

/// Bytes of the tables of an allocator, when they fit in the address space.
pub fn table_bytes(nodes: usize, lanes: usize) -> (r: Option<usize>)
    ensures
        r == (if spec_table_bytes(nodes as int, lanes as int) <= usize::MAX {
            Some(spec_table_bytes(nodes as int, lanes as int) as usize)
        } else {
            None
        }),
{
    proof {
        let n = nodes as int;
        let l = lanes as int;
        assert(n * l >= 0) by (nonlinear_arith)
            requires
                n >= 0,
                l >= 0,
        ;
        utility::lemma_round_up(
            STATE_BYTES + n * NODE_BYTES + n * l * LANE_BYTES,
            utility::PAGE_SIZE as int,
        );
    }
    let node_bytes: usize = match nodes.checked_mul(NODE_BYTES) {
        Some(b) => b,
        None => {
            return None;
        },
    };
    let cells: usize = match nodes.checked_mul(lanes) {
        Some(b) => b,
        None => {
            return None;
        },
    };
    let lane_bytes: usize = match cells.checked_mul(LANE_BYTES) {
        Some(b) => b,
        None => {
            return None;
        },
    };
    let head: usize = match STATE_BYTES.checked_add(node_bytes) {
        Some(b) => b,
        None => {
            return None;
        },
    };
    match head.checked_add(lane_bytes) {
        Some(b) => utility::checked_align_to(b, utility::PAGE_SIZE),
        None => None,
    }
}

/// Bytes of the tables of a region of `bytes`, in whole pages.
pub open spec fn spec_metadata_bytes(bytes: int) -> int {
    utility::round_up(
        bytes / (SEGMENT_BYTES as int) * SEGMENT_HEADER_BYTES + REGION_HEADER_BYTES,
        utility::PAGE_SIZE as int,
    )
}

/// Bytes of the tables of a region of `bytes`, in whole pages.
pub fn metadata_bytes(bytes: usize) -> (r: usize)
    ensures
        r == spec_metadata_bytes(bytes as int),
{
    utility::align_to(
        bytes / SEGMENT_BYTES * SEGMENT_HEADER_BYTES + REGION_HEADER_BYTES,
        utility::PAGE_SIZE,
    )
}

/// Well-formedness only depends on the nodes.
proof fn lemma_same_nodes(before: &BuddyAllocator, after: &BuddyAllocator)
    requires
        before.wf(),
        after.nodes() == before.nodes(),
        after.lanes() == before.lanes(),
        after.ready() == before.ready(),
    ensures
        after.wf(),
{
    assert forall|n: int, r: int, m: int, q: int|
        after.has_region(n, r) && after.has_region(m, q) && !(n == m && r == q) implies apart(
        #[trigger] after.region(n, r),
        #[trigger] after.region(m, q),
    ) by {
        assert(apart(before.region(n, r), before.region(m, q)));
    }
}

/// The regions of `after` lie where those of `before` lie.
pub open spec fn same_places(before: &Node, after: &Node) -> bool {
    &&& after.regions().len() == before.regions().len()
    &&& forall|r: int| 0 <= r < before.regions().len() ==> (
    #[trigger] after.regions()[r]).start() == before.regions()[r].start()
        && after.regions()[r].len() == before.regions()[r].len()
}

/// Changing what one node holds, but not where, keeps an allocator well formed.
proof fn lemma_node_replaced(before: &BuddyAllocator, after: &BuddyAllocator, n: int)
    requires
        before.wf(),
        before.same_but_node(after, n),
        0 <= n < before.nodes().len(),
        after.nodes()[n].wf(),
        after.nodes()[n].lane_count() == before.nodes()[n].lane_count(),
        same_places(&before.nodes()[n], &after.nodes()[n]),
    ensures
        after.wf(),
{
    assert forall|m: int| 0 <= m < after.nodes().len() implies (#[trigger] after.nodes()[m]).wf()
        && after.nodes()[m].lane_count() == after.lanes() by {
        assert(before.nodes()[m].wf());
        if m != n {
            assert(after.nodes()[m] == before.nodes()[m]);
        }
    }
    assert forall|i: int, r: int, m: int, q: int|
        after.has_region(i, r) && after.has_region(m, q) && !(i == m && r == q) implies apart(
        #[trigger] after.region(i, r),
        #[trigger] after.region(m, q),
    ) by {
        if i != n {
            assert(after.nodes()[i] == before.nodes()[i]);
        } else {
            assert(after.nodes()[n].regions()[r].start() == before.nodes()[n].regions()[r].start());
        }
        if m != n {
            assert(after.nodes()[m] == before.nodes()[m]);
        } else {
            assert(after.nodes()[n].regions()[q].start() == before.nodes()[n].regions()[q].start());
        }
        assert(before.has_region(i, r) && before.has_region(m, q));
        assert(apart(before.region(i, r), before.region(m, q)));
    }
}

/// Adding a region where nothing was mapped keeps an allocator well formed.
proof fn lemma_node_extended(before: &BuddyAllocator, after: &BuddyAllocator, n: int, region: Region)
    requires
        before.wf(),
        before.same_but_node(after, n),
        0 <= n < before.nodes().len(),
        before.unmapped(region.start() as int, region.len() as int),
        after.nodes()[n].wf(),
        after.nodes()[n].lane_count() == before.nodes()[n].lane_count(),
        after.nodes()[n].regions().len() == before.nodes()[n].regions().len() + 1,
        forall|i: int| 0 <= i < before.nodes()[n].regions().len() ==> {
            &&& (#[trigger] after.nodes()[n].regions()[i]).start()
                == before.nodes()[n].regions()[i].start()
            &&& after.nodes()[n].regions()[i].len() == before.nodes()[n].regions()[i].len()
        },
        after.region(n, before.nodes()[n].regions().len() as int).start() == region.start(),
        after.region(n, before.nodes()[n].regions().len() as int).len() == region.len(),
    ensures
        after.wf(),
{
    let last = before.nodes()[n].regions().len() as int;
    assert forall|m: int| 0 <= m < after.nodes().len() implies (#[trigger] after.nodes()[m]).wf()
        && after.nodes()[m].lane_count() == after.lanes() by {
        assert(before.nodes()[m].wf());
        if m != n {
            assert(after.nodes()[m] == before.nodes()[m]);
        }
    }
    assert forall|i: int, r: int|
        after.has_region(i, r) && !(i == n && r == last) implies before.has_region(i, r)
        && #[trigger] after.region(i, r).start() == before.region(i, r).start() && after.region(
        i,
        r,
    ).len() == before.region(i, r).len() by {
        if i != n {
            assert(after.nodes()[i] == before.nodes()[i]);
        } else {
            assert(after.nodes()[n].regions()[r].start() == before.nodes()[n].regions()[r].start());
        }
    }
    assert forall|i: int, r: int, m: int, q: int|
        after.has_region(i, r) && after.has_region(m, q) && !(i == m && r == q) implies apart(
        #[trigger] after.region(i, r),
        #[trigger] after.region(m, q),
    ) by {
        assert(after.region(i, r).start() >= 0 && after.region(m, q).start() >= 0);
        if i == n && r == last {
            assert(before.has_region(m, q));
            assert(before.region(m, q).start() >= 0);
        } else if m == n && q == last {
            assert(before.has_region(i, r));
            assert(before.region(i, r).start() >= 0);
        } else {
            assert(apart(before.region(i, r), before.region(m, q)));
        }
    }
}

/// Outcome of an attempt to hand out a block.
#[derive(Clone, Copy, Debug, PartialEq, Eq, Structural)]
pub enum BuddyOutcome {
    /// The size is not served here.
    Refused,
    /// A block was handed out.
    Served(Allocation),
    /// The node is full and needs another region first.
    NeedsRegion(Growth),
}

/// What a new region is needed for.
#[derive(Clone, Copy, Debug, PartialEq, Eq, Structural)]
pub struct Growth {
    pub node: usize,
    pub order: usize,
    pub lane: usize,
}

struct State {
    nodes: Vec<Node>,
    lane_count: usize,
    active_ids: Vec<u16>,
    thp: bool,
    is_numa: bool,
}

/// Buddy allocator over the regions of all memory nodes.
pub struct BuddyAllocator {
    state: Option<State>,
    once: Once,
}

/// What a trim goes by besides what was asked for.
#[derive(Clone, Copy, Debug, PartialEq, Eq, Structural)]
pub struct TrimContext {
    /// The current time stamp.
    pub now: u32,
    /// Average time that blocks stay free.
    pub average: u32,
    /// Bytes cached by the small caches, and by this allocator.
    pub total_cached: usize,
    pub buddy_cached: usize,
    /// Cached bytes below which nothing is trimmed unless forced.
    pub small_threshold: usize,
    pub big_threshold: usize,
}

impl TrimContext {
    /// So little is cached that only a forced trim does anything.
    pub open spec fn quiet(&self) -> bool {
        self.total_cached < self.small_threshold && self.buddy_cached < self.big_threshold
    }

    /// Whether so little is cached that only a forced trim does anything.
    pub fn is_quiet(&self) -> (r: bool)
        ensures
            r == self.quiet(),
    {
        self.total_cached < self.small_threshold && self.buddy_cached < self.big_threshold
    }

    /// The policy of a trim in this context.
    pub open spec fn policy(&self, requested: usize, force: bool) -> TrimPolicy {
        TrimPolicy { now: self.now, average: self.average, force, requested }
    }
}

/// Node `id` when there is one, the first node otherwise.
pub open spec fn home_node(id: int, count: int) -> int {
    if id < count {
        id
    } else {
        0
    }
}

/// Two regions do not overlap.
pub open spec fn apart(a: Region, b: Region) -> bool {
    a.start() + a.len() <= b.start() || b.start() + b.len() <= a.start()
}

/// Node `id` is another one than the one that is growing, and has room.
pub open spec fn node_can_help(nodes: Seq<Node>, id: u16, growth: Growth) -> bool {
    &&& id != growth.node
    &&& id < nodes.len()
    &&& !nodes[id as int].is_full(growth.order as int)
}

/// Takes a block from the first of the listed nodes that has room; also gives its place in the
/// list.
fn ask_others(nodes: &mut Vec<Node>, active: &Vec<u16>, growth: Growth) -> (r: Option<
    (usize, Allocation),
>)
    requires
        growth.order < BUDDY_NUM_ORDERS,
        forall|n: int|
            0 <= n < old(nodes)@.len() ==> (#[trigger] old(nodes)@[n]).wf() && growth.lane < old(nodes)@[n].lane_count(),
    ensures
        r is None <==> forall|i: int|
            0 <= i < active@.len() ==> !node_can_help(
                old(nodes)@,
                #[trigger] active@[i],
                growth,
            ),
        r is None ==> final(nodes)@ == old(nodes)@,
        r matches Some((i, block)) ==> {
            let n = active@[i as int] as int;
            &&& i < active@.len()
            &&& node_can_help(old(nodes)@, active@[i as int], growth)
            &&& forall|j: int|
                0 <= j < i ==> !node_can_help(old(nodes)@, #[trigger] active@[j], growth)
            &&& final(nodes)@.len() == old(nodes)@.len()
            &&& forall|m: int|
                0 <= m < old(nodes)@.len() && m != n ==> #[trigger] final(nodes)@[m] == old(nodes)@[m]
            &&& final(nodes)@[n].wf()
            &&& final(nodes)@[n].lane_count() == old(nodes)@[n].lane_count()
            &&& same_places(&old(nodes)@[n], &final(nodes)@[n])
            &&& old(nodes)@[n].served(
                &final(nodes)@[n],
                growth.order as int,
                growth.lane as int,
                block,
            )
            &&& old(nodes)@[n].hints_but(
                &final(nodes)@[n],
                growth.lane as int,
                growth.order as int,
            )
        },
{
    let mut index: usize = 0;
    while index < active.len()
        invariant
            index <= active.len(),
            growth.order < BUDDY_NUM_ORDERS,
            nodes@ == old(nodes)@,
            forall|n: int|
                0 <= n < nodes@.len() ==> (#[trigger] nodes@[n]).wf() && growth.lane
                    < nodes@[n].lane_count(),
            forall|j: int|
                0 <= j < index ==> !node_can_help(old(nodes)@, #[trigger] active@[j], growth),
        decreases active.len() - index,
    {
        let remote: usize = active[index] as usize;
        if remote != growth.node && remote < nodes.len() {
            let ghost before = nodes@;
            assert(before[remote as int].wf());
            let found = nodes[remote].allocate(growth.order, growth.lane);
            if let Some(block) = found {
                assert(node_can_help(before, active@[index as int], growth));
                return Some((index, block));
            }
            assert(nodes@ =~= before);
        }
        index = index + 1;
    }
    None
}

impl BuddyAllocator {
    /// The tables were set up.
    pub closed spec fn ready(&self) -> bool {
        self.state is Some
    }

    /// How far the one-time set-up has come.
    pub closed spec fn progress(&self) -> crate::internals::once::Progress {
        self.once.progress()
    }

    pub closed spec fn nodes(&self) -> Seq<Node> {
        match self.state {
            Some(st) => st.nodes@,
            None => Seq::empty(),
        }
    }

    pub closed spec fn lanes(&self) -> int {
        match self.state {
            Some(st) => st.lane_count as int,
            None => 0,
        }
    }

    /// Nodes that exist on this machine.
    pub closed spec fn active(&self) -> Seq<u16> {
        match self.state {
            Some(st) => st.active_ids@,
            None => Seq::empty(),
        }
    }

    pub closed spec fn uses_thp(&self) -> bool {
        match self.state {
            Some(st) => st.thp,
            None => false,
        }
    }

    pub closed spec fn uses_numa(&self) -> bool {
        match self.state {
            Some(st) => st.is_numa,
            None => false,
        }
    }

    pub open spec fn has_region(&self, n: int, r: int) -> bool {
        0 <= n < self.nodes().len() && 0 <= r < self.nodes()[n].regions().len()
    }

    pub open spec fn region(&self, n: int, r: int) -> Region {
        self.nodes()[n].regions()[r]
    }

    pub open spec fn has(&self, n: int, r: int, k: int) -> bool {
        0 <= n < self.nodes().len() && self.nodes()[n].has(r, k)
    }

    pub open spec fn at(&self, n: int, r: int, k: int) -> Segment {
        self.nodes()[n].at(r, k)
    }

    /// All nodes are well formed and no two regions overlap.
    pub open spec fn wf(&self) -> bool {
        &&& self.ready() ==> self.nodes().len() >= 1 && self.lanes() >= 1
        &&& forall|n: int| 0 <= n < self.nodes().len() ==> (#[trigger] self.nodes()[n]).wf()
            && self.nodes()[n].lane_count() == self.lanes()
        &&& forall|n: int, r: int, m: int, q: int|
            self.has_region(n, r) && self.has_region(m, q) && !(n == m && r == q) ==> apart(
                #[trigger] self.region(n, r),
                #[trigger] self.region(m, q),
            )
    }

    /// Nothing but node `n` differs in `after`.
    pub open spec fn same_but_node(&self, after: &Self, n: int) -> bool {
        &&& after.ready() == self.ready()
        &&& after.progress() == self.progress()
        &&& after.lanes() == self.lanes()
        &&& after.active() == self.active()
        &&& after.uses_thp() == self.uses_thp()
        &&& after.uses_numa() == self.uses_numa()
        &&& after.nodes().len() == self.nodes().len()
        &&& forall|m: int|
            0 <= m < self.nodes().len() && m != n ==> #[trigger] after.nodes()[m]
                == self.nodes()[m]
    }

    /// Nothing differs in `after`.
    pub open spec fn same(&self, after: &Self) -> bool {
        self.same_but_node(after, -1)
    }

    /// No region overlaps the `bytes` bytes at `base`.
    pub open spec fn unmapped(&self, base: int, bytes: int) -> bool {
        forall|n: int, r: int|
            self.has_region(n, r) ==> base + bytes <= (#[trigger] self.region(n, r)).start()
                || self.region(n, r).start() + self.region(n, r).len() <= base
    }

    /// The set-up is done and gave the allocator memory.
    pub fn is_ready(&self) -> (r: bool)
        ensures
            r == self.ready(),
    {
        self.state.is_some()
    }

    pub fn new() -> (r: Self)
        ensures
            r.wf(),
            !r.ready(),
            r.nodes().len() == 0,
            r.trimmable(),
            r.progress() == crate::internals::once::Progress::New,
    {
        BuddyAllocator { state: None, once: Once::new() }
    }

    /// Sets the tables up once. `data` is the mapping of the first region, which belongs to
    /// `node`; without one the allocator stays out of use.
    pub fn init(
        &mut self,
        node_count: usize,
        lane_count: usize,
        active_ids: Vec<u16>,
        thp: bool,
        is_numa: bool,
        node: usize,
        data: Option<(usize, usize)>,
    )
        requires
            old(self).wf(),
            old(self).progress() != crate::internals::once::Progress::Running,
            old(self).progress() == crate::internals::once::Progress::New ==> !old(self).ready(),
            node_count >= 1,
            lane_count >= 1,
            data matches Some((base, bytes)) ==> base > 0 && bytes >= SEGMENT_BYTES && bytes
                % SEGMENT_BYTES == 0 && base + bytes <= usize::MAX,
        ensures
            final(self).wf(),
            final(self).progress() == crate::internals::once::Progress::Done,
            old(self).progress() == crate::internals::once::Progress::Done ==> old(self).same(
                final(self),
            ) && final(self).nodes() == old(self).nodes(),
            old(self).progress() == crate::internals::once::Progress::New ==> {
                &&& final(self).ready() <==> data is Some
                &&& data matches Some((base, bytes)) ==> {
                    let home = home_node(node as int, node_count as int);
                    &&& final(self).nodes().len() == node_count
                    &&& final(self).lanes() == lane_count
                    &&& final(self).active() == active_ids@
                    &&& final(self).uses_thp() == thp
                    &&& final(self).uses_numa() == is_numa
                    &&& final(self).nodes()[home].regions().len() == 1
                    &&& final(self).region(home, 0).start() == base
                    &&& final(self).region(home, 0).len() == bytes
                    &&& forall|k: int|
                        final(self).has(home, 0, k) ==> (#[trigger] final(self).at(
                            home,
                            0,
                            k,
                        )).word() == 0
                    &&& forall|n: int|
                        0 <= n < node_count && n != home ==> (
                        #[trigger] final(self).nodes()[n]).regions().len() == 0
                    &&& forall|n: int|
                        0 <= n < node_count ==> !(
                        #[trigger] final(self).nodes()[n]).growth_locked()
                    &&& forall|n: int, lane: int, order: int|
                        0 <= n < node_count && 0 <= lane < lane_count && 0 <= order < 5
                            ==> #[trigger] final(self).nodes()[n].hint(lane, order) is None
                }
            },
    {
        let ghost before = *self;
        if !self.once.begin() {
            proof {
                lemma_same_nodes(&before, self);
            }
            return;
        }
        if let Some((base, bytes)) = data {
            let mut nodes: Vec<Node> = Vec::new();
            while nodes.len() < node_count
                invariant
                    lane_count >= 1,
                    nodes@.len() <= node_count,
                    forall|n: int|
                        0 <= n < nodes@.len() ==> (#[trigger] nodes@[n]).wf()
                            && nodes@[n].lane_count() == lane_count && nodes@[n].regions().len()
                            == 0 && !nodes@[n].growth_locked(),
                    forall|n: int, lane: int, order: int|
                        0 <= n < nodes@.len() && 0 <= lane < lane_count && 0 <= order < 5
                            ==> #[trigger] nodes@[n].hint(lane, order) is None,
                decreases node_count - nodes@.len(),
            {
                nodes.push(Node::new(lane_count));
            }
            let home: usize = if node < node_count {
                node
            } else {
                0
            };
            let count: usize = bytes / SEGMENT_BYTES;
            let region = Region::new(base, count, metadata_bytes(bytes));
            nodes[home].publish(region);
            self.state = Some(State { nodes, lane_count, active_ids, thp, is_numa });
        }
        self.once.finish();
    }

    /// The node that serves a request for `node_id`.
    pub open spec fn home(&self, node_id: u16) -> int {
        home_node(node_id as int, self.nodes().len() as int)
    }

    /// What a request for `size` bytes does: too large a size, or one before the set-up, is refused;
    /// a block of the least order that is large enough comes from the node of the caller; a full
    /// node needs a region.
    pub open spec fn allocated(
        &self,
        after: &Self,
        size: int,
        node_id: u16,
        cpu_id: int,
        r: BuddyOutcome,
    ) -> bool {
        let n = self.home(node_id);
        let lane = cpu_id % self.lanes();
        match r {
            BuddyOutcome::Refused => (size > SEGMENT_BYTES || !self.ready()) && self.same(after),
            BuddyOutcome::Served(b) => {
                let order = b.order - BIG_BUDDY_MIN_ORDER;
                &&& size <= SEGMENT_BYTES && self.ready()
                &&& is_order_for(size, order)
                &&& self.same_but_node(after, n)
                &&& self.nodes()[n].served(&after.nodes()[n], order, lane, b)
                &&& self.nodes()[n].hints_but(&after.nodes()[n], lane, order)
            },
            BuddyOutcome::NeedsRegion(g) => {
                &&& size <= SEGMENT_BYTES && self.ready()
                &&& g.node == n
                &&& g.node < self.nodes().len()
                &&& g.lane == lane
                &&& g.lane < self.lanes()
                &&& is_order_for(size, g.order as int)
                &&& self.nodes()[n].is_full(g.order as int)
                &&& self.same(after)
            },
        }
    }

    /// Hands out a block of at least `size` bytes from the node of the caller, or tells what a new
    /// region is needed for.
    pub fn allocate(&mut self, size: usize, node_id: u16, cpu_id: usize) -> (r: BuddyOutcome)
        requires
            old(self).wf(),
        ensures
            final(self).wf(),
            r matches BuddyOutcome::Served(b) ==> b.sound(),
            old(self).allocated(final(self), size as int, node_id, cpu_id as int, r),
    {
        if size > SEGMENT_BYTES {
            return BuddyOutcome::Refused;
        }
        let order: usize = order_for(size);
        let ghost before = *self;
        match &mut self.state {
            None => BuddyOutcome::Refused,
            Some(st) => {
                let id: usize = if (node_id as usize) < st.nodes.len() {
                    node_id as usize
                } else {
                    0
                };
                assert(before.nodes()[id as int].wf());
                let lane: usize = lane_for_cpu(cpu_id, st.lane_count);
                let found = st.nodes[id].allocate(order, lane);
                proof {
                    lemma_node_replaced(&before, self, id as int);
                    if let Some(b) = found {
                        let node = before.nodes()[id as int];
                        let (r, k) = choose|r: int, k: int|
                            {
                                &&& #[trigger] node.serves(order as int, lane as int, r, k)
                                &&& node.same_but(&self.nodes()[id as int], r, k)
                                &&& block_from(
                                    node.at(r, k),
                                    self.nodes()[id as int].at(r, k),
                                    order as int,
                                    b,
                                )
                            };
                        lemma_sound(&node, r, k, self.nodes()[id as int].at(r, k), order as int, b);
                    }
                }
                match found {
                    Some(block) => BuddyOutcome::Served(block),
                    None => BuddyOutcome::NeedsRegion(Growth { node: id, order, lane }),
                }
            },
        }
    }

    /// What happens after a node was found full: it serves from a new region of one segment at
    /// `data`; without one, the first of the other nodes with room does.
    pub open spec fn expanded(
        &self,
        after: &Self,
        growth: Growth,
        data: Option<usize>,
        r: Option<Allocation>,
    ) -> bool {
        match data {
            Some(base) => {
                &&& self.same_but_node(after, growth.node as int)
                &&& r matches Some(block) && exists|region: Region|
                    {
                        &&& region.start() == base
                        &&& region.len() == SEGMENT_BYTES
                        &&& region.segments()[0].word() == 0
                        &&& #[trigger] self.nodes()[growth.node as int].extended(
                            &after.nodes()[growth.node as int],
                            region,
                            growth.order as int,
                            growth.lane as int,
                            block,
                        )
                    }
            },
            None => {
                &&& r is None <==> forall|i: int|
                    0 <= i < self.active().len() ==> !self.can_help(
                        #[trigger] self.active()[i],
                        growth,
                    )
                &&& r is None ==> self.same(after)
                &&& r matches Some(block) ==> exists|i: int|
                    {
                        let n = self.active()[i] as int;
                        &&& 0 <= i < self.active().len()
                        &&& self.can_help(#[trigger] self.active()[i], growth)
                        &&& forall|j: int|
                            0 <= j < i ==> !self.can_help(#[trigger] self.active()[j], growth)
                        &&& self.same_but_node(after, n)
                        &&& self.nodes()[n].served(
                            &after.nodes()[n],
                            growth.order as int,
                            growth.lane as int,
                            block,
                        )
                        &&& self.nodes()[n].hints_but(
                            &after.nodes()[n],
                            growth.lane as int,
                            growth.order as int,
                        )
                    }
            },
        }
    }

    /// Continues after a node was found full: with a mapping of one segment at `data` the node
    /// grows and serves the block from it; without one the other nodes are asked in turn.
    pub fn expand(&mut self, growth: Growth, data: Option<usize>) -> (r: Option<Allocation>)
        requires
            old(self).wf(),
            growth.node < old(self).nodes().len(),
            growth.order < BUDDY_NUM_ORDERS,
            growth.lane < old(self).lanes(),
            data matches Some(base) ==> base > 0 && base + SEGMENT_BYTES <= usize::MAX && old(
                self).unmapped(base as int, SEGMENT_BYTES as int),
        ensures
            final(self).wf(),
            r matches Some(b) ==> b.sound() && b.order == growth.order + BIG_BUDDY_MIN_ORDER,
            old(self).expanded(final(self), growth, data, r),
    {
        let ghost before = *self;
        let taken = self.state.take();
        match taken {
            None => None,
            Some(mut st) => {
                if let Some(base) = data {
                    let region = Region::new(base, 1, metadata_bytes(SEGMENT_BYTES));
                    assert(before.nodes()[growth.node as int].wf());
                    let block = st.nodes[growth.node].extend(region, growth.order, growth.lane);
                    self.state = Some(st);
                    proof {
                        lemma_node_extended(&before, self, growth.node as int, region);
                    }
                    return Some(block);
                }
                let found = ask_others(&mut st.nodes, &st.active_ids, growth);
                self.state = Some(st);
                match found {
                    None => {
                        proof {
                            lemma_same_nodes(&before, self);
                        }
                        None
                    },
                    Some((index, block)) => {
                        proof {
                            let n = before.active()[index as int] as int;
                            assert(before.can_help(before.active()[index as int], growth));
                            lemma_node_replaced(&before, self, n);
                            let node = before.nodes()[n];
                            let after = self.nodes()[n];
                            let (r, k) = choose|r: int, k: int|
                                {
                                    &&& #[trigger] node.serves(
                                        growth.order as int,
                                        growth.lane as int,
                                        r,
                                        k,
                                    )
                                    &&& node.same_but(&after, r, k)
                                    &&& block_from(
                                        node.at(r, k),
                                        after.at(r, k),
                                        growth.order as int,
                                        block,
                                    )
                                };
                            lemma_sound(&node, r, k, after.at(r, k), growth.order as int, block);
                        }
                        Some(block)
                    },
                }
            },
        }
    }

    /// Node `id` is another one than the one that is growing, and has room.
    pub open spec fn can_help(&self, id: u16, growth: Growth) -> bool {
        node_can_help(self.nodes(), id, growth)
    }

    /// Some segment starts at `base`.
    pub open spec fn has_segment(&self, base: int) -> bool {
        exists|n: int, r: int, k: int|
            self.has(n, r, k) && (#[trigger] self.at(n, r, k)).start() == base
    }

    /// Finds the segment that starts at `base`.
    fn locate(&self, base: usize) -> (found: Option<(usize, usize, usize)>)
        requires
            self.wf(),
        ensures
            found is Some <==> self.has_segment(base as int),
            found matches Some((n, r, k)) ==> self.has(n as int, r as int, k as int) && self.at(
                n as int,
                r as int,
                k as int,
            ).start() == base,
    {
        match &self.state {
            None => None,
            Some(st) => {
                let mut n: usize = 0;
                while n < st.nodes.len()
                    invariant
                        self.ready(),
                        st.nodes@ == self.nodes(),
                        n <= st.nodes.len(),
                        forall|i: int, r: int, k: int|
                            i < n && self.has(i, r, k) ==> (#[trigger] self.at(i, r, k)).start()
                                != base,
                    decreases st.nodes.len() - n,
                {
                    if let Some((r, k)) = st.nodes[n].locate(base) {
                        assert(self.at(n as int, r as int, k as int).start() == base);
                        return Some((n, r, k));
                    }
                    assert forall|i: int, r: int, k: int| i < n + 1 && self.has(i, r, k) implies (
                    #[trigger] self.at(i, r, k)).start() != base by {
                        if i == n {
                            assert(self.nodes()[i].at(r, k).start() != base);
                        }
                    }
                    n = n + 1;
                }
                None
            },
        }
    }

    /// `after` differs from this allocator in segment `k` of region `r` of node `n` only.
    pub open spec fn same_but(&self, after: &Self, n: int, r: int, k: int) -> bool {
        &&& self.same_but_node(after, n)
        &&& self.nodes()[n].same_but(&after.nodes()[n], r, k)
        &&& self.nodes()[n].hints_but(&after.nodes()[n], -1, -1)
    }

    /// What the return of the block of `2^order` bytes at `addr` to the segment at `region` does.
    pub open spec fn freed(
        &self,
        after: &Self,
        region: int,
        addr: int,
        order: int,
        stamp: u32,
    ) -> bool {
        if !(BIG_BUDDY_MIN_ORDER <= order <= BIG_BUDDY_MAX_ORDER) || !self.has_segment(region) {
            self.same(after)
        } else {
            exists|n: int, r: int, k: int|
                {
                    &&& self.has(n, r, k)
                    &&& self.at(n, r, k).start() == region
                    &&& #[trigger] self.same_but(after, n, r, k)
                    &&& block_returned(
                        self.at(n, r, k),
                        after.at(n, r, k),
                        addr,
                        order - BIG_BUDDY_MIN_ORDER,
                        stamp,
                    )
                }
        }
    }

    /// Gives the block of `2^order` bytes at `addr` back to the segment at `region`. What no
    /// segment can have handed out is ignored.
    pub fn free(&mut self, region: usize, addr: usize, order: usize, stamp: u32)
        requires
            old(self).wf(),
        ensures
            final(self).wf(),
            old(self).freed(final(self), region as int, addr as int, order as int, stamp),
    {
        if order < BIG_BUDDY_MIN_ORDER || order > BIG_BUDDY_MAX_ORDER {
            return;
        }
        let ghost before = *self;
        if let Some((n, r, k)) = self.locate(region) {
            if let Some(st) = &mut self.state {
                assert(before.nodes()[n as int].wf());
                st.nodes[n].free_in(r, k, addr, order - BIG_BUDDY_MIN_ORDER, stamp);
            }
            proof {
                lemma_node_replaced(&before, self, n as int);
                assert(before.same_but(self, n as int, r as int, k as int));
            }
        }
    }

    /// What an attempt to double the block of `2^order` bytes at `addr` in place does.
    pub open spec fn grown(
        &self,
        after: &Self,
        region: int,
        addr: usize,
        order: usize,
        res: Option<(usize, usize)>,
    ) -> bool {
        if !(BIG_BUDDY_MIN_ORDER <= order < BIG_BUDDY_MAX_ORDER) || !self.has_segment(region) {
            res is None && self.same(after)
        } else {
            exists|n: int, r: int, k: int|
                {
                    let small = order - BIG_BUDDY_MIN_ORDER;
                    &&& self.has(n, r, k)
                    &&& self.at(n, r, k).start() == region
                    &&& #[trigger] self.same_but(after, n, r, k)
                    &&& block_grown(self.at(n, r, k), after.at(n, r, k), addr as int, small)
                    &&& res == (if grows(self.at(n, r, k), addr as int, small) {
                        Some((addr, (order + 1) as usize))
                    } else {
                        None
                    })
                }
        }
    }

    /// Doubles the block of `2^order` bytes at `addr` in place when the slots behind it are free;
    /// gives its address and new order.
    pub fn try_grow_inplace(&mut self, region: usize, addr: usize, order: usize) -> (res: Option<
        (usize, usize),
    >)
        requires
            old(self).wf(),
        ensures
            final(self).wf(),
            old(self).grown(final(self), region as int, addr, order, res),
    {
        if order < BIG_BUDDY_MIN_ORDER || order >= BIG_BUDDY_MAX_ORDER {
            return None;
        }
        let ghost before = *self;
        match self.locate(region) {
            None => None,
            Some((n, r, k)) => {
                let mut grown: bool = false;
                if let Some(st) = &mut self.state {
                    assert(before.nodes()[n as int].wf());
                    grown = st.nodes[n].grow_in(r, k, addr, order - BIG_BUDDY_MIN_ORDER);
                }
                proof {
                    lemma_node_replaced(&before, self, n as int);
                    assert(before.same_but(self, n as int, r as int, k as int));
                }
                if grown {
                    Some((addr, order + 1))
                } else {
                    None
                }
            },
        }
    }

    /// Segments of all nodes.
    pub open spec fn segment_total(&self) -> int {
        segments_below(self.nodes(), self.nodes().len() as int)
    }

    /// The statistics of a trim of this allocator cannot overflow.
    pub open spec fn trimmable(&self) -> bool {
        &&& self.segment_total() * SEGMENT_BYTES <= usize::MAX
        &&& self.segment_total() * SEGMENT_AGES <= u64::MAX
    }

    /// Whether the statistics of a trim of this allocator cannot overflow.
    pub fn is_trimmable(&self) -> (r: bool)
        ensures
            r == self.trimmable(),
    {
        let by_bytes: u64 = (usize::MAX / SEGMENT_BYTES) as u64;
        let by_ages: u64 = u64::MAX / SEGMENT_AGES;
        let limit: u64 = if by_bytes < by_ages {
            by_bytes
        } else {
            by_ages
        };
        let ghost all = self.nodes();
        proof {
            lemma_segments_below(all, 0, all.len() as int);
            assert(self.trimmable() <==> self.segment_total() <= limit);
        }
        match &self.state {
            None => true,
            Some(st) => {
                let mut left: u64 = limit;
                let mut n: usize = 0;
                while n < st.nodes.len()
                    invariant
                        n <= st.nodes@.len(),
                        st.nodes@ == all,
                        all == self.nodes(),
                        self.trimmable() <==> self.segment_total() <= limit,
                        left <= limit,
                        limit - left == segments_below(all, n as int),
                    decreases st.nodes@.len() - n,
                {
                    let ghost regions = all[n as int].regions();
                    let mut r: usize = st.nodes[n].regions.len();
                    proof {
                        lemma_segments_below(all, n + 1, all.len() as int);
                    }
                    while r > 0
                        invariant
                            n < st.nodes@.len(),
                            st.nodes@ == all,
                            all == self.nodes(),
                            self.trimmable() <==> self.segment_total() <= limit,
                            regions == all[n as int].regions(),
                            r <= regions.len(),
                            left <= limit,
                            limit - left == segments_below(all, n as int) + segments_from(
                                regions,
                                r as int,
                            ),
                            segments_below(all, n + 1) <= segments_below(all, all.len() as int),
                        decreases r,
                    {
                        r = r - 1;
                        let count: u64 = st.nodes[n].regions[r].segments.len() as u64;
                        if count > left {
                            proof {
                                lemma_segments_from(regions, r as int);
                            }
                            return false;
                        }
                        left = left - count;
                    }
                    n = n + 1;
                }
                true
            },
        }
    }

    /// `after` is this allocator after a trim with statistics `stats`.
    pub open spec fn trimmed<F: Fn(usize, usize) -> bool>(
        &self,
        after: &Self,
        policy: TrimPolicy,
        advise: F,
        stats: TrimStats,
    ) -> bool {
        &&& after.ready() == self.ready()
        &&& after.progress() == self.progress()
        &&& after.lanes() == self.lanes()
        &&& after.active() == self.active()
        &&& after.uses_thp() == self.uses_thp()
        &&& after.uses_numa() == self.uses_numa()
        &&& after.nodes().len() == self.nodes().len()
        &&& forall|n: int|
            0 <= n < self.nodes().len() ==> #[trigger] node_trimmed(
                self.nodes(),
                after.nodes(),
                policy,
                advise,
                n,
            )
        &&& stats.bytes == SLOT_BYTES * cleaned_nodes(
            self.nodes(),
            after.nodes(),
            self.nodes().len() as int,
        )
        &&& policy.requested != 0 ==> stats.bytes < policy.requested + SLOT_BYTES
        &&& (stats.ages as int, stats.samples as int) == nodes_sums(
            self.nodes(),
            after.nodes(),
            policy,
            self.nodes().len() as int,
        )
    }

    /// `advise` may be called on the slots that a trim gives back; nothing says that it may be
    /// called on others.
    pub open spec fn advisable<F: Fn(usize, usize) -> bool>(
        &self,
        policy: TrimPolicy,
        advise: F,
    ) -> bool {
        forall|n: int|
            0 <= n < self.nodes().len() ==> (#[trigger] self.nodes()[n]).advisable(policy, advise)
    }

    /// Gives pages of free blocks back through `advise` until `requested` bytes are reached, zero
    /// standing for no limit. Nothing happens while another trim runs, before the set-up, or,
    /// unless forced, while little is cached.
    pub fn trim_inner<F: Fn(usize, usize) -> bool>(
        &mut self,
        requested: usize,
        force: bool,
        context: TrimContext,
        lock: &mut SpinLock<()>,
        advise: &F,
    ) -> (stats: TrimStats)
        requires
            old(self).wf(),
            old(self).trimmable(),
            old(self).advisable(context.policy(requested, force), *advise),
        ensures
            final(self).wf(),
            final(lock).locked() == old(lock).locked(),
            (!force && context.quiet()) || !old(self).ready() || old(lock).locked() ==> stats
                == TrimStats::empty() && old(self).same(final(self)),
            (force || !context.quiet()) && old(self).ready() && !old(lock).locked() ==> old(self).trimmed(final(self), context.policy(requested, force), *advise, stats),
    {
        let mut stats = TrimStats { bytes: 0, ages: 0, samples: 0 };
        if !force && context.is_quiet() {
            return stats;
        }
        if self.state.is_none() {
            return stats;
        }
        match lock.try_lock() {
            LockGuard::Locked => stats,
            LockGuard::Free(guard) => {
                let ghost before = *self;
                let policy = TrimPolicy {
                    now: context.now,
                    average: context.average,
                    force,
                    requested,
                };
                let taken = self.state.take();
                if let Some(mut st) = taken {
                    trim_nodes(&mut st.nodes, policy, &mut stats, advise);
                    self.state = Some(st);
                }
                proof {
                    assert forall|n: int| 0 <= n < before.nodes().len() implies (
                    #[trigger] self.nodes()[n]).wf() && self.nodes()[n].lane_count()
                        == before.nodes()[n].lane_count() && same_places(
                        &before.nodes()[n],
                        &self.nodes()[n],
                    ) by {
                        assert(node_trimmed(before.nodes(), self.nodes(), policy, *advise, n));
                    }
                    lemma_nodes_trimmed(&before, self);
                }
                guard.release();
                stats
            },
        }
    }

    /// Trims whether or not much is cached.
    pub fn trim<F: Fn(usize, usize) -> bool>(
        &mut self,
        requested: usize,
        context: TrimContext,
        lock: &mut SpinLock<()>,
        advise: &F,
    ) -> (stats: TrimStats)
        requires
            old(self).wf(),
            old(self).trimmable(),
            old(self).advisable(context.policy(requested, true), *advise),
        ensures
            final(self).wf(),
            final(lock).locked() == old(lock).locked(),
            !old(self).ready() || old(lock).locked() ==> stats == TrimStats::empty() && old(self).same(final(self)),
            old(self).ready() && !old(lock).locked() ==> old(self).trimmed(
                final(self),
                context.policy(requested, true),
                *advise,
                stats,
            ),
    {
        self.trim_inner(requested, true, context, lock, advise)
    }

    /// Trims blocks that stayed free for longer than the average, once enough is cached.
    pub fn trim_old<F: Fn(usize, usize) -> bool>(
        &mut self,
        requested: usize,
        context: TrimContext,
        lock: &mut SpinLock<()>,
        advise: &F,
    ) -> (stats: TrimStats)
        requires
            old(self).wf(),
            old(self).trimmable(),
            old(self).advisable(context.policy(requested, false), *advise),
        ensures
            final(self).wf(),
            final(lock).locked() == old(lock).locked(),
            context.quiet() || !old(self).ready() || old(lock).locked() ==> stats
                == TrimStats::empty() && old(self).same(final(self)),
            !context.quiet() && old(self).ready() && !old(lock).locked() ==> old(self).trimmed(
                final(self),
                context.policy(requested, false),
                *advise,
                stats,
            ),
    {
        self.trim_inner(requested, false, context, lock, advise)
    }

    /// Counts the free blocks of all nodes.
    pub fn report(&self) -> (report: BuddyBackendReport)
        requires
            self.wf(),
            self.trimmable(),
        ensures
            report.grow_order == BIG_BUDDY_MAX_ORDER,
            report.thp == self.uses_thp(),
            report.regions == regions_below(self.nodes(), self.nodes().len() as int),
            report.total_region_bytes == self.segment_total() * SEGMENT_BYTES,
            forall|m: Measure| #[trigger] m.counted() ==> report.read(m) == measured_nodes(
                self.nodes(),
                m,
                self.nodes().len() as int,
            ),
    {
        let mut report = BuddyBackendReport {
            regions: 0,
            total_region_bytes: 0,
            free_bytes: 0,
            free_blocks: [0; 5],
            never_allocated_blocks: 0,
            reused_blocks: 0,
            trimmed_blocks: 0,
            never_allocated_by_order: [0; 5],
            reused_by_order: [0; 5],
            trimmed_by_order: [0; 5],
            grow_order: BIG_BUDDY_MAX_ORDER,
            thp: false,
        };
        if let Some(st) = &self.state {
            report.thp = st.thp;
            let mut n: usize = 0;
            while n < st.nodes.len()
                invariant
                    n <= st.nodes@.len(),
                    st.nodes@ == self.nodes(),
                    self.wf(),
                    self.trimmable(),
                    report.grow_order == BIG_BUDDY_MAX_ORDER,
                    report.thp == self.uses_thp(),
                    report.regions == regions_below(self.nodes(), n as int),
                    report.regions <= segments_below(self.nodes(), n as int),
                    report.total_region_bytes == segments_below(self.nodes(), n as int)
                        * SEGMENT_BYTES,
                    forall|m: Measure| #[trigger] m.counted() ==> report.read(m) == measured_nodes(
                        self.nodes(),
                        m,
                        n as int,
                    ),
                    forall|m: Measure| #[trigger] m.counted() ==> report.read(m) <= measure_limit(
                        m,
                        segments_below(self.nodes(), n as int),
                    ),
                decreases st.nodes@.len() - n,
            {
                let ghost seen = segments_below(self.nodes(), n as int);
                proof {
                    lemma_segments_below(self.nodes(), n as int, n + 1);
                    lemma_segments_below(self.nodes(), n + 1, self.nodes().len() as int);
                    assert(self.nodes()[n as int].wf());
                }
                st.nodes[n].report(&mut report, Ghost(seen));
                n = n + 1;
            }
        }
        report
    }

    /// Takes the growth locks of all nodes and keeps them across a fork.
    pub fn lock_all_for_fork(&mut self)
        requires
            old(self).wf(),
            forall|n: int|
                0 <= n < old(self).nodes().len() ==> !(
                #[trigger] old(self).nodes()[n]).growth_locked(),
        ensures
            final(self).wf(),
            final(self).nodes().len() == old(self).nodes().len(),
            final(self).ready() == old(self).ready(),
            final(self).progress() == old(self).progress(),
            final(self).lanes() == old(self).lanes(),
            final(self).active() == old(self).active(),
            final(self).uses_thp() == old(self).uses_thp(),
            final(self).uses_numa() == old(self).uses_numa(),
            forall|n: int|
                0 <= n < old(self).nodes().len() ==> (
                #[trigger] final(self).nodes()[n]).growth_locked() && old(
                    self).nodes()[n].same_content(&final(self).nodes()[n]),
    {
        let ghost before = *self;
        let taken = self.state.take();
        if let Some(mut st) = taken {
            let mut n: usize = 0;
            while n < st.nodes.len()
                invariant
                    n <= st.nodes@.len(),
                    st.nodes@.len() == before.nodes().len(),
                    st.lane_count == before.lanes(),
                    st.active_ids@ == before.active(),
                    st.thp == before.uses_thp(),
                    st.is_numa == before.uses_numa(),
                    before.wf(),
                    forall|m: int|
                        0 <= m < before.nodes().len() ==> !(
                        #[trigger] before.nodes()[m]).growth_locked(),
                    forall|m: int|
                        0 <= m < before.nodes().len() ==> (#[trigger] st.nodes@[m]).growth_locked()
                            == (m < n) && before.nodes()[m].same_fields(&st.nodes@[m]),
                decreases st.nodes@.len() - n,
            {
                assert(!before.nodes()[n as int].growth_locked());
                st.nodes[n].growth.lock_for_fork();
                n = n + 1;
            }
            self.state = Some(st);
        }
        proof {
            lemma_same_content(&before, self);
        }
    }

    /// Frees the growth locks of all nodes after a fork.
    pub fn reset_locks_on_fork(&mut self)
        requires
            old(self).wf(),
        ensures
            final(self).wf(),
            final(self).nodes().len() == old(self).nodes().len(),
            final(self).ready() == old(self).ready(),
            final(self).progress() == old(self).progress(),
            final(self).lanes() == old(self).lanes(),
            final(self).active() == old(self).active(),
            final(self).uses_thp() == old(self).uses_thp(),
            final(self).uses_numa() == old(self).uses_numa(),
            forall|n: int|
                0 <= n < old(self).nodes().len() ==> !(
                #[trigger] final(self).nodes()[n]).growth_locked() && old(
                    self).nodes()[n].same_content(&final(self).nodes()[n]),
    {
        let ghost before = *self;
        let taken = self.state.take();
        if let Some(mut st) = taken {
            let mut n: usize = 0;
            while n < st.nodes.len()
                invariant
                    n <= st.nodes@.len(),
                    st.nodes@.len() == before.nodes().len(),
                    st.lane_count == before.lanes(),
                    st.active_ids@ == before.active(),
                    st.thp == before.uses_thp(),
                    st.is_numa == before.uses_numa(),
                    forall|m: int|
                        0 <= m < before.nodes().len() ==> ((
                        #[trigger] st.nodes@[m]).growth_locked() ==> m >= n)
                            && before.nodes()[m].same_fields(&st.nodes@[m]),
                decreases st.nodes@.len() - n,
            {
                st.nodes[n].growth.reset_at_fork();
                n = n + 1;
            }
            self.state = Some(st);
        }
        proof {
            lemma_same_content(&before, self);
        }
    }
}

/// Nodes that differ in their locks only are as well formed as before.
proof fn lemma_same_content(before: &BuddyAllocator, after: &BuddyAllocator)
    requires
        before.wf(),
        after.ready() == before.ready(),
        after.lanes() == before.lanes(),
        after.nodes().len() == before.nodes().len(),
        forall|n: int|
            0 <= n < before.nodes().len() ==> before.nodes()[n].same_fields(
                &(#[trigger] after.nodes()[n]),
            ),
    ensures
        after.wf(),
        forall|n: int|
            0 <= n < before.nodes().len() ==> before.nodes()[n].same_content(
                &(#[trigger] after.nodes()[n]),
            ),
{
    assert forall|n: int| 0 <= n < after.nodes().len() implies (#[trigger] after.nodes()[n]).wf()
        && after.nodes()[n].lane_count() == after.lanes() by {
        let a = before.nodes()[n];
        let b = after.nodes()[n];
        assert(a.wf());
        assert forall|lane: int, order: int| 0 <= lane < b.lane_count() && 0 <= order < 5 implies match
            #[trigger] b.hint(lane, order) {
            Some((r, k)) => b.has(r as int, k as int),
            None => true,
        } by {
            assert(a.hint(lane, order) == b.hint(lane, order));
        }
    }
    assert forall|i: int, r: int, m: int, q: int|
        after.has_region(i, r) && after.has_region(m, q) && !(i == m && r == q) implies apart(
        #[trigger] after.region(i, r),
        #[trigger] after.region(m, q),
    ) by {
        assert(after.nodes()[i].regions() == before.nodes()[i].regions());
        assert(after.nodes()[m].regions() == before.nodes()[m].regions());
        assert(apart(before.region(i, r), before.region(m, q)));
    }
}

/// Trimming the nodes, which stay where they are, keeps an allocator well formed.
proof fn lemma_nodes_trimmed(before: &BuddyAllocator, after: &BuddyAllocator)
    requires
        before.wf(),
        after.ready() == before.ready(),
        after.lanes() == before.lanes(),
        after.nodes().len() == before.nodes().len(),
        forall|n: int|
            0 <= n < before.nodes().len() ==> (#[trigger] after.nodes()[n]).wf()
                && after.nodes()[n].lane_count() == before.nodes()[n].lane_count() && same_places(
                &before.nodes()[n],
                &after.nodes()[n],
            ),
    ensures
        after.wf(),
{
    assert forall|n: int| 0 <= n < after.nodes().len() implies (#[trigger] after.nodes()[n]).wf()
        && after.nodes()[n].lane_count() == after.lanes() by {
        assert(before.nodes()[n].wf());
    }
    assert forall|i: int, r: int, m: int, q: int|
        after.has_region(i, r) && after.has_region(m, q) && !(i == m && r == q) implies apart(
        #[trigger] after.region(i, r),
        #[trigger] after.region(m, q),
    ) by {
        assert(after.nodes()[i].regions()[r].start() == before.nodes()[i].regions()[r].start());
        assert(after.nodes()[m].regions()[q].start() == before.nodes()[m].regions()[q].start());
        assert(apart(before.region(i, r), before.region(m, q)));
    }
}

/// Trims the nodes in turn until the statistics reach the requested number of bytes.
fn trim_nodes<F: Fn(usize, usize) -> bool>(
    nodes: &mut Vec<Node>,
    policy: TrimPolicy,
    stats: &mut TrimStats,
    advise: &F,
)
    requires
        forall|n: int| 0 <= n < old(nodes)@.len() ==> (#[trigger] old(nodes)@[n]).wf(),
        forall|n: int|
            0 <= n < old(nodes)@.len() ==> (#[trigger] old(nodes)@[n]).advisable(policy, *advise),
        *old(stats) == TrimStats::empty(),
        segments_below(old(nodes)@, old(nodes)@.len() as int) * SEGMENT_BYTES <= usize::MAX,
        segments_below(old(nodes)@, old(nodes)@.len() as int) * SEGMENT_AGES <= u64::MAX,
    ensures
        final(nodes)@.len() == old(nodes)@.len(),
        forall|n: int| 0 <= n < old(nodes)@.len() ==> (#[trigger] final(nodes)@[n]).wf(),
        forall|n: int|
            0 <= n < old(nodes)@.len() ==> #[trigger] node_trimmed(
                old(nodes)@,
                final(nodes)@,
                policy,
                *advise,
                n,
            ),
        final(stats).bytes == SLOT_BYTES * cleaned_nodes(
            old(nodes)@,
            final(nodes)@,
            old(nodes)@.len() as int,
        ),
        policy.requested != 0 ==> final(stats).bytes < policy.requested + SLOT_BYTES,
        (final(stats).ages as int, final(stats).samples as int) == nodes_sums(
            old(nodes)@,
            final(nodes)@,
            policy,
            old(nodes)@.len() as int,
        ),
{
    let ghost all = nodes@;
    let mut n: usize = 0;
    while n < nodes.len()
        invariant
            n <= nodes@.len(),
            nodes@.len() == all.len(),
            all == old(nodes)@,
            forall|m: int| 0 <= m < all.len() ==> (#[trigger] all[m]).wf(),
            forall|m: int| 0 <= m < all.len() ==> (#[trigger] all[m]).advisable(policy, *advise),
            forall|m: int| n <= m < all.len() ==> #[trigger] nodes@[m] == all[m],
            forall|m: int| 0 <= m < all.len() ==> (#[trigger] nodes@[m]).wf(),
            forall|m: int|
                0 <= m < n ==> #[trigger] node_trimmed(all, nodes@, policy, *advise, m),
            policy.requested == 0 || stats.bytes < policy.requested,
            stats.bytes == SLOT_BYTES * cleaned_nodes(all, nodes@, n as int),
            (stats.ages as int, stats.samples as int) == nodes_sums(
                all,
                nodes@,
                policy,
                n as int,
            ),
            stats.bytes <= segments_below(all, n as int) * SEGMENT_BYTES,
            stats.ages <= segments_below(all, n as int) * SEGMENT_AGES,
            stats.samples <= segments_below(all, n as int) * 16,
            segments_below(all, all.len() as int) * SEGMENT_BYTES <= usize::MAX,
            segments_below(all, all.len() as int) * SEGMENT_AGES <= u64::MAX,
        decreases nodes@.len() - n,
    {
        let ghost before = nodes@;
        proof {
            lemma_segments_below(all, n + 1, all.len() as int);
            assert(before[n as int] == all[n as int]);
            assert(all[n as int].wf());
            assert(all[n as int].advisable(policy, *advise));
        }
        let done: bool = nodes[n].trim(policy, stats, advise);
        proof {
            lemma_nodes_same(all, before, nodes@, policy, n as int);
            assert forall|m: int| 0 <= m < all.len() implies (#[trigger] nodes@[m]).wf() by {
                if m != n {
                    assert(nodes@[m] == before[m]);
                }
            }
            assert forall|m: int| 0 <= m < n + 1 implies #[trigger] node_trimmed(
                all,
                nodes@,
                policy,
                *advise,
                m,
            ) by {
                lemma_nodes_same(all, before, nodes@, policy, m);
                if m != n {
                    assert(nodes@[m] == before[m]);
                    assert(node_trimmed(all, before, policy, *advise, m));
                }
            }
        }
        if done {
            proof {
                lemma_nodes_rest(all, nodes@, policy, n + 1, all.len() as int);
                assert forall|m: int| 0 <= m < all.len() implies #[trigger] node_trimmed(
                    all,
                    nodes@,
                    policy,
                    *advise,
                    m,
                ) by {
                    if m > n {
                        assert(nodes@[m] == all[m] && all[m].wf());
                        assert forall|j: int| n + 1 <= j < m implies #[trigger] nodes@[j]
                            == all[j] by {}
                        lemma_nodes_rest(all, nodes@, policy, n + 1, m);
                        lemma_untrimmed(
                            &all[m],
                            policy,
                            *advise,
                            SLOT_BYTES * cleaned_nodes(all, nodes@, m),
                        );
                    }
                }
            }
            return;
        }
        n = n + 1;
    }
}

/// A node that a trim does not come to any more is left alone.
proof fn lemma_untrimmed<F: Fn(usize, usize) -> bool>(
    node: &Node,
    policy: TrimPolicy,
    advise: F,
    freed: int,
)
    requires
        node.wf(),
        policy.reached(freed),
    ensures
        node.trimmed(node, policy, advise, freed),
{
    assert forall|r: int| 0 <= r < node.regions().len() implies #[trigger] region_trimmed(
        node.regions(),
        node.regions(),
        policy,
        advise,
        freed,
        r,
    ) by {
        assert(node.regions()[r].wf());
        lemma_cleaned_regions_grow(node.regions(), node.regions(), r + 1, r + 1);
        segment_trim::lemma_segments_skipped(
            node.regions()[r].segments(),
            policy,
            advise,
            freed + SLOT_BYTES * cleaned_regions(node.regions(), node.regions(), r + 1),
        );
    }
}

/// Two different segments do not overlap.
pub proof fn law_segments_are_apart(a: &BuddyAllocator, n: int, r: int, k: int, m: int, q: int, j: int)
    requires
        a.wf(),
        a.has(n, r, k),
        a.has(m, q, j),
        !(n == m && r == q && k == j),
    ensures
        a.at(n, r, k).start() + SEGMENT_BYTES <= a.at(m, q, j).start() || a.at(m, q, j).start()
            + SEGMENT_BYTES <= a.at(n, r, k).start(),
{
    let one = a.region(n, r);
    let two = a.region(m, q);
    assert(a.nodes()[n].wf() && a.nodes()[m].wf());
    assert(a.nodes()[n].regions()[r].wf() && a.nodes()[m].regions()[q].wf());
    assert(one.segments()[k].wf() && two.segments()[j].wf());
    assert(one.segments()[k].start() == one.start() + k * SEGMENT_BYTES);
    assert(two.segments()[j].start() == two.start() + j * SEGMENT_BYTES);
    if !(n == m && r == q) {
        assert(a.has_region(n, r) && a.has_region(m, q));
        assert(apart(a.region(n, r), a.region(m, q)));
    }
}

/// Blocks from two different segments do not overlap.
pub proof fn law_blocks_of_segments_are_apart(
    a: &BuddyAllocator,
    n: int,
    r: int,
    k: int,
    addr: int,
    order: int,
    m: int,
    q: int,
    j: int,
    other: int,
    other_order: int,
)
    requires
        a.wf(),
        a.has(n, r, k),
        a.has(m, q, j),
        !(n == m && r == q && k == j),
        segment::block_at(a.at(n, r, k).start() as int, addr, order),
        segment::block_at(a.at(m, q, j).start() as int, other, other_order),
    ensures
        addr + segment::block_bytes(order) <= other || other + segment::block_bytes(other_order)
            <= addr,
{
    law_segments_are_apart(a, n, r, k, m, q, j);
    segment::law_block_in_segment(a.at(n, r, k).start() as int, addr, order);
    segment::law_block_in_segment(a.at(m, q, j).start() as int, other, other_order);
}

/// Every block that a segment hands out is aligned to its size within the segment, was free in all
/// its slots, and is what a later return of the same address and order gives back.
pub proof fn law_served_block_can_be_freed(before: Segment, after: Segment, order: int, b: Allocation)
    requires
        before.wf(),
        0 <= order < BUDDY_NUM_ORDERS,
        block_from(before, after, order, b),
    ensures
        segment::block_at(before.start() as int, b.addr as int, order),
        forall|i: int|
            segment::in_block(i, segment::slot_of(before.start() as int, b.addr as int), order)
                ==> !#[trigger] segment::busy(before.word(), i),
{
    let start = segment::slot_of(before.start() as int, b.addr as int);
    assert((b.addr - before.start()) == start * SLOT_BYTES);
    assert(segment::block_bytes(order) == segment::span(order) * SLOT_BYTES);
    if order == 0 {
        assert((start * 0x40_0000) % 0x40_0000 == 0);
    } else if order == 1 {
        assert(start % 2 == 0 ==> (start * 0x40_0000) % 0x80_0000 == 0);
    } else if order == 2 {
        assert(start % 4 == 0 ==> (start * 0x40_0000) % 0x100_0000 == 0);
    } else if order == 3 {
        assert(start % 8 == 0 ==> (start * 0x40_0000) % 0x200_0000 == 0);
    } else {
        assert(start % 16 == 0 ==> (start * 0x40_0000) % 0x400_0000 == 0);
    }
}

/// A request is served by blocks of the least order that holds it; every request up to a segment has
/// one such order.
pub proof fn law_order_is_the_least(size: int, order: int, other: int)
    requires
        is_order_for(size, order),
    ensures
        segment::block_bytes(order) >= size,
        0 <= other < order ==> segment::block_bytes(other) < size,
        is_order_for(size, other) ==> other == order,
{
}

/// Every request up to a segment has an order.
pub proof fn law_requests_have_an_order(size: int) -> (order: int)
    requires
        size <= SEGMENT_BYTES,
    ensures
        is_order_for(size, order),
{
    if size <= segment::block_bytes(0) {
        0
    } else if size <= segment::block_bytes(1) {
        1
    } else if size <= segment::block_bytes(2) {
        2
    } else if size <= segment::block_bytes(3) {
        3
    } else {
        4
    }
}

/// A node that exists serves its own requests, and the first node those of nodes that do not.
pub proof fn law_home_node(id: int, count: int)
    requires
        0 <= id,
        0 < count,
    ensures
        0 <= home_node(id, count) < count,
        id < count ==> home_node(id, count) == id,
        id >= count ==> home_node(id, count) == 0,
{
}

/// A walk reaches every segment once: it starts at the one that the lane picks and goes round.
pub proof fn law_walk_reaches_all(lane: int, count: int, j: int, k: int)
    requires
        0 <= lane,
        0 <= j < count,
        0 <= k < count,
    ensures
        0 <= turn(lane, count, k) < count,
        turn(lane, count, j) == turn(lane, count, k) ==> j == k,
        turn(lane, count, k) == 0 <==> k == lane % count,
        turn(lane, count, k) + 1 < count ==> turn(
            lane,
            count,
            if k + 1 == count {
                0
            } else {
                k + 1
            },
        ) == turn(lane, count, k) + 1,
{
    assert(0 <= lane % count < count) by (nonlinear_arith)
        requires
            0 <= lane,
            0 < count,
    ;
    if turn(lane, count, j) == turn(lane, count, k) {
        lemma_turn(lane, count, j, k);
    }
    lemma_turn_next(lane, count, k);
}

/// A block that is handed out holds the request, lies inside its segment, was free and is busy then.
pub proof fn law_served_block_holds_the_request(
    before: &BuddyAllocator,
    after: &BuddyAllocator,
    size: int,
    node_id: u16,
    cpu_id: int,
    b: Allocation,
)
    requires
        before.wf(),
        0 <= cpu_id,
        before.allocated(after, size, node_id, cpu_id, BuddyOutcome::Served(b)),
    ensures
        ({
            let order = b.order - BIG_BUDDY_MIN_ORDER;
            let n = before.home(node_id);
            &&& 0 <= order < BUDDY_NUM_ORDERS
            &&& size <= segment::block_bytes(order)
            &&& order > 0 ==> 2 * size > segment::block_bytes(order)
            &&& exists|r: int, k: int|
                {
                    let s = before.at(n, r, k);
                    &&& before.has(n, r, k)
                    &&& #[trigger] before.nodes()[n].serves(order, cpu_id % before.lanes(), r, k)
                    &&& b.region == s.start()
                    &&& s.start() <= b.addr
                    &&& b.addr + segment::block_bytes(order) <= s.start() + SEGMENT_BYTES
                    &&& forall|i: int|
                        segment::in_block(
                            i,
                            segment::slot_of(s.start() as int, b.addr as int),
                            order,
                        ) ==> !#[trigger] segment::busy(s.word(), i) && segment::busy(
                            after.at(n, r, k).word(),
                            i,
                        )
                }
        }),
{
    let order = b.order - BIG_BUDDY_MIN_ORDER;
    let n = before.home(node_id);
    let lane = cpu_id % before.lanes();
    let node = before.nodes()[n];
    let (r, k) = choose|r: int, k: int|
        {
            &&& #[trigger] node.serves(order, lane, r, k)
            &&& node.same_but(&after.nodes()[n], r, k)
            &&& block_from(node.at(r, k), after.nodes()[n].at(r, k), order, b)
            &&& after.nodes()[n].hint(lane, order) == Some((r as usize, k as usize))
        };
    assert(node.wf());
    assert(node.regions()[r].wf());
    let s = node.at(r, k);
    assert(s.wf());
    law_served_block_can_be_freed(s, after.at(n, r, k), order, b);
    segment::law_block_in_segment(s.start() as int, b.addr as int, order);
    assert(before.nodes()[n].serves(order, lane, r, k));
}

/// A request is served whenever the caller's node has room for its order; it asks for a region
/// only when there is none, and is refused only before the set-up and when no segment could hold
/// it.
pub proof fn law_room_is_used(
    before: &BuddyAllocator,
    after: &BuddyAllocator,
    size: int,
    node_id: u16,
    cpu_id: int,
    outcome: BuddyOutcome,
    order: int,
)
    requires
        before.allocated(after, size, node_id, cpu_id, outcome),
    ensures
        outcome is Refused <==> size > SEGMENT_BYTES || !before.ready(),
        before.ready() && is_order_for(size, order) ==> (outcome is Served
            <==> !before.nodes()[before.home(node_id)].is_full(order)),
        !(outcome is Served) ==> before.same(after),
{
    let n = before.home(node_id);
    let node = before.nodes()[n];
    match outcome {
        BuddyOutcome::Served(b) => {
            let q = b.order - BIG_BUDDY_MIN_ORDER;
            let (r, k) = choose|r: int, k: int|
                #[trigger] node.serves(q, cpu_id % before.lanes(), r, k);
            assert(has_room(node.at(r, k), q));
            if is_order_for(size, order) {
                law_order_is_the_least(size, q, order);
            }
        },
        BuddyOutcome::NeedsRegion(g) => {
            if is_order_for(size, order) {
                law_order_is_the_least(size, g.order as int, order);
            }
        },
        BuddyOutcome::Refused => {
            if is_order_for(size, order) {
                assert(size <= SEGMENT_BYTES);
            }
        },
    }
}

/// A lane keeps to the segment that served it last for an order while that segment has room.
pub proof fn law_lane_keeps_its_segment(
    before: &Node,
    after: &Node,
    order: int,
    lane: int,
    b: Allocation,
)
    requires
        before.wf(),
        before.served(after, order, lane, b),
        before.hint_has_room(lane, order),
        0 <= lane < before.lane_count(),
        0 <= order < BUDDY_NUM_ORDERS,
    ensures
        before.hint(lane, order) matches Some(h) ==> b.region == before.at(
            h.0 as int,
            h.1 as int,
        ).start(),
        after.hint(lane, order) == before.hint(lane, order),
{
    let (r, k) = choose|r: int, k: int|
        {
            &&& #[trigger] before.serves(order, lane, r, k)
            &&& before.same_but(after, r, k)
            &&& block_from(before.at(r, k), after.at(r, k), order, b)
            &&& after.hint(lane, order) == Some((r as usize, k as usize))
        };
    assert(before.regions()[r].wf());
    assert(before.has(r, k));
    assert(before.hint(lane, order) == Some((r as usize, k as usize)));
    assert(before.has(r, k));
    assert(r <= usize::MAX && k <= usize::MAX) by {
        lemma_places_fit(before, r, k);
    }
}

proof fn lemma_places_fit(node: &Node, r: int, k: int)
    requires
        node.wf(),
        node.has(r, k),
    ensures
        0 <= r <= usize::MAX,
        0 <= k <= usize::MAX,
{
    assert(node.regions()[r].wf());
    let count = node.regions()[r].segments().len() as int;
    assert(count * SEGMENT_BYTES >= count) by (nonlinear_arith)
        requires
            count >= 0,
            SEGMENT_BYTES >= 1,
    ;
    lemma_regions_fit(node);
}

proof fn lemma_regions_fit(node: &Node)
    ensures
        node.regions().len() <= usize::MAX,
{
    assert(node.regions@.len() == node.regions.len());
}

/// A node that grew serves from the start of the new region, which was never handed out before.
/// Without a region another node serves, and the full one is left alone.
pub proof fn law_growth_serves(
    before: &BuddyAllocator,
    after: &BuddyAllocator,
    growth: Growth,
    data: Option<usize>,
    r: Option<Allocation>,
    n: int,
)
    requires
        before.expanded(after, growth, data, r),
        0 <= n < before.nodes().len(),
    ensures
        data matches Some(base) ==> (r matches Some(b) && b.addr == base && b.region == base
            && b.flags == Flags::NotAllocated && b.order == growth.order + BIG_BUDDY_MIN_ORDER),
        data is Some && n != growth.node ==> after.nodes()[n] == before.nodes()[n],
        data is None && n == growth.node ==> after.nodes()[n] == before.nodes()[n],
        data is None && r is None ==> after.nodes()[n] == before.nodes()[n],
        data is None && before.active().contains(n as u16) && n <= u16::MAX && n != growth.node
            && !before.nodes()[n].is_full(growth.order as int) ==> r is Some,
        r matches Some(b) ==> b.order == growth.order + BIG_BUDDY_MIN_ORDER,
{
    if data is Some {
        let base = data->0;
        let block = r->0;
        let region = choose|region: Region|
            {
                &&& region.start() == base
                &&& region.len() == SEGMENT_BYTES
                &&& region.segments()[0].word() == 0
                &&& #[trigger] before.nodes()[growth.node as int].extended(
                    &after.nodes()[growth.node as int],
                    region,
                    growth.order as int,
                    growth.lane as int,
                    block,
                )
            };
        let start = segment::slot_of(region.segments()[0].start() as int, block.addr as int);
        assert(block.addr == base);
        assert(segment::first_fit(region.segments()[0].word() as u16, growth.order as int, start));
        segment::lemma_empty_word();
        assert(0u64 as u16 == 0u16) by (bit_vector);
        lemma_first_of_empty(growth.order as int, start);
    } else if r is Some {
        let block = r->0;
        let i = choose|i: int|
            {
                let m = before.active()[i] as int;
                &&& 0 <= i < before.active().len()
                &&& before.can_help(#[trigger] before.active()[i], growth)
                &&& before.same_but_node(after, m)
                &&& before.nodes()[m].served(
                    &after.nodes()[m],
                    growth.order as int,
                    growth.lane as int,
                    block,
                )
            };
        assert(before.active()[i] != growth.node);
    } else {
        if before.active().contains(n as u16) && n <= u16::MAX {
            let i = choose|i: int|
                0 <= i < before.active().len() && before.active()[i] == n as u16;
            assert(!before.can_help(before.active()[i], growth));
        }
    }
}

proof fn lemma_first_of_empty(order: int, start: int)
    requires
        segment::first_fit(0u16, order, start),
    ensures
        start == 0,
{
    broadcast use mask::lemma_bit_zero;
    assert(segment::fits(0u16, order, 0));
}

/// A block that came back is free, its slots carry the time, and no other slot of any segment is
/// touched.
pub proof fn law_returned_block_is_free(
    before: Segment,
    after: Segment,
    addr: int,
    order: int,
    stamp: u32,
    i: int,
)
    requires
        before.wf(),
        block_returned(before, after, addr, order, stamp),
        segment::block_at(before.start() as int, addr, order),
        0 <= i < 16,
    ensures
        ({
            let inside = before.start() + i * SLOT_BYTES >= addr && before.start() + i * SLOT_BYTES
                < addr + segment::block_bytes(order);
            &&& inside ==> !segment::busy(after.word(), i) && after.stamps()[i] == stamp
            &&& !inside ==> segment::busy(after.word(), i) == segment::busy(before.word(), i)
                && after.stamps()[i] == before.stamps()[i]
            &&& segment::dirty(after.word(), i) == segment::dirty(before.word(), i)
        }),
{
    let start = segment::slot_of(before.start() as int, addr);
    segment::law_block_in_segment(before.start() as int, addr, order);
    let d = addr - before.start();
    assert(d % segment::block_bytes(order) == 0);
    assert(d % 0x40_0000 == 0) by {
        if order == 0 {
            assert(d % 0x40_0000 == 0);
        } else if order == 1 {
            assert(d % 0x80_0000 == 0);
        } else if order == 2 {
            assert(d % 0x100_0000 == 0);
        } else if order == 3 {
            assert(d % 0x200_0000 == 0);
        } else {
            assert(d % 0x400_0000 == 0);
        }
    }
    assert(d == start * SLOT_BYTES);
    assert(after.stamps()[i] == if segment::in_block(i, start, order) {
        stamp
    } else {
        before.stamps()[i]
    });
}

/// A block doubles in place only when the other half is free; then it has the next order.
pub proof fn law_growth_in_place_doubles(
    before: &BuddyAllocator,
    after: &BuddyAllocator,
    region: int,
    addr: usize,
    order: usize,
    a: usize,
    o: usize,
)
    requires
        before.grown(after, region, addr, order, Some((a, o))),
    ensures
        a == addr,
        o == order + 1,
        BIG_BUDDY_MIN_ORDER <= order < BIG_BUDDY_MAX_ORDER,
        segment::block_bytes(o - BIG_BUDDY_MIN_ORDER) == 2 * segment::block_bytes(
            order - BIG_BUDDY_MIN_ORDER,
        ),
        before.has_segment(region),
{
}

/// Tables take whole pages, and no page more than what is kept in them needs.
pub proof fn law_tables_hold_what_is_kept(nodes: int, lanes: int, bytes: int)
    requires
        0 <= nodes,
        0 <= lanes,
        0 <= bytes,
    ensures
        spec_table_bytes(nodes, lanes) % (utility::PAGE_SIZE as int) == 0,
        spec_table_bytes(nodes, lanes) >= 64 + 64 * nodes + 64 * (nodes * lanes),
        spec_table_bytes(nodes, lanes) < 64 + 64 * nodes + 64 * (nodes * lanes)
            + utility::PAGE_SIZE,
        spec_metadata_bytes(bytes) % (utility::PAGE_SIZE as int) == 0,
        spec_metadata_bytes(bytes) >= 64 + 128 * (bytes / (SEGMENT_BYTES as int)),
        spec_metadata_bytes(bytes) < 64 + 128 * (bytes / (SEGMENT_BYTES as int))
            + utility::PAGE_SIZE,
{
    assert(nodes * lanes >= 0) by (nonlinear_arith)
        requires
            nodes >= 0,
            lanes >= 0,
    ;
    assert(nodes * NODE_BYTES == 64 * nodes);
    assert(nodes * lanes * LANE_BYTES == 64 * (nodes * lanes));
    utility::lemma_round_up(
        STATE_BYTES + nodes * NODE_BYTES + nodes * lanes * LANE_BYTES,
        utility::PAGE_SIZE as int,
    );
    utility::lemma_round_up(
        bytes / (SEGMENT_BYTES as int) * SEGMENT_HEADER_BYTES + REGION_HEADER_BYTES,
        utility::PAGE_SIZE as int,
    );
}

/// A trim may be skipped only while both amounts that are cached are below their thresholds; it goes
/// by the time and the average of its context and by what was asked for.
pub proof fn law_trim_context(c: TrimContext, requested: usize, force: bool)
    ensures
        c.total_cached >= c.small_threshold ==> !c.quiet(),
        c.buddy_cached >= c.big_threshold ==> !c.quiet(),
        c.total_cached < c.small_threshold && c.buddy_cached < c.big_threshold ==> c.quiet(),
        c.policy(requested, force).requested == requested,
        c.policy(requested, force).force == force,
        c.policy(requested, force).now == c.now,
        c.policy(requested, force).average == c.average,
{
}

/// A trim takes the newer regions of a node first: where it cleaned a slot of a region, it had tried
/// every slot that it may take of the newer ones.
pub proof fn law_newer_regions_are_trimmed_first<F: Fn(usize, usize) -> bool>(
    before: &Node,
    after: &Node,
    policy: TrimPolicy,
    advise: F,
    freed: int,
    older: int,
    j: int,
    newer: int,
    k: int,
    i: int,
)
    requires
        0 <= freed,
        before.trimmed(after, policy, advise, freed),
        before.has(older, j),
        after.at(older, j) != before.at(older, j),
        older < newer,
        before.has(newer, k),
        0 <= i < 16,
        segment_trim::wanted(before.at(newer, k), policy, i),
    ensures
        after.at(newer, k).stamps()[i] == policy.now,
{
    let b = before.regions();
    let a = after.regions();
    assert(region_trimmed(b, a, policy, advise, freed, older));
    assert(region_trimmed(b, a, policy, advise, freed, newer));
    let at_older = freed + SLOT_BYTES * cleaned_regions(b, a, older + 1);
    lemma_cleaned_regions_grow(b, a, older + 1, older + 1);
    if policy.reached(at_older) {
        assert(segment_trim::trimmed_at(
            b[older].segments(),
            a[older].segments(),
            policy,
            advise,
            at_older,
            j,
        ));
        segment_trim::lemma_cleaned_segments_grow(b[older].segments(), a[older].segments(), 0, j);
    }
    assert(!policy.reached(at_older));
    let at_newer = freed + SLOT_BYTES * cleaned_regions(b, a, newer + 1);
    lemma_cleaned_regions_grow(b, a, older + 1, newer);
    lemma_cleaned_regions_grow(b, a, newer + 1, newer + 1);
    segment_trim::law_every_segment_is_trimmed(
        b[newer].segments(),
        a[newer].segments(),
        policy,
        advise,
        at_newer,
        k,
        i,
    );
}

/// Unless the request was met, a trim tried every slot that it may take in every segment; it leaves
/// alone what it may not take.
pub proof fn law_everything_old_is_tried<F: Fn(usize, usize) -> bool>(
    before: &BuddyAllocator,
    after: &BuddyAllocator,
    policy: TrimPolicy,
    advise: F,
    stats: TrimStats,
    n: int,
    r: int,
    k: int,
    i: int,
)
    requires
        before.trimmed(after, policy, advise, stats),
        before.has(n, r, k),
        0 <= i < 16,
    ensures
        !segment_trim::wanted(before.at(n, r, k), policy, i) ==> segment::dirty(
            after.at(n, r, k).word(),
            i,
        ) == segment::dirty(before.at(n, r, k).word(), i) && after.at(n, r, k).stamps()[i]
            == before.at(n, r, k).stamps()[i],
        segment_trim::wanted(before.at(n, r, k), policy, i) && (policy.requested == 0 || stats.bytes
            < policy.requested) ==> after.at(n, r, k).stamps()[i] == policy.now,
        segment::busy(after.at(n, r, k).word(), i) == segment::busy(before.at(n, r, k).word(), i),
{
    let b = before.nodes();
    let a = after.nodes();
    assert(node_trimmed(b, a, policy, advise, n));
    let freed = SLOT_BYTES * cleaned_nodes(b, a, n);
    lemma_cleaned_nodes_grow(b, a, 0, n);
    lemma_cleaned_nodes_grow(b, a, n + 1, b.len() as int);
    let br = b[n].regions();
    let ar = a[n].regions();
    assert(region_trimmed(br, ar, policy, advise, freed, r));
    let here = freed + SLOT_BYTES * cleaned_regions(br, ar, r + 1);
    lemma_cleaned_regions_grow(br, ar, 0, r);
    lemma_cleaned_regions_grow(br, ar, r + 1, r + 1);
    segment_trim::law_every_segment_is_trimmed(
        br[r].segments(),
        ar[r].segments(),
        policy,
        advise,
        here,
        k,
        i,
    );
    assert(segment_trim::kept(br[r].segments()[k], ar[r].segments()[k]));
}

proof fn lemma_cleaned_nodes_grow(before: Seq<Node>, after: Seq<Node>, lo: int, hi: int)
    requires
        0 <= lo <= hi,
    ensures
        0 <= cleaned_nodes(before, after, lo) <= cleaned_nodes(before, after, hi),
    decreases hi,
{
    if hi > 0 {
        lemma_cleaned_regions_grow(before[hi - 1].regions(), after[hi - 1].regions(), 0, 0);
        if lo < hi {
            lemma_cleaned_nodes_grow(before, after, lo, hi - 1);
        } else {
            lemma_cleaned_nodes_grow(before, after, hi - 1, hi - 1);
        }
    }
}

/// A measure of segments, of regions and of nodes is what each of them contributes, added up.
pub proof fn law_measures_add_up(
    segments: Seq<Segment>,
    s: Segment,
    regions: Seq<Region>,
    r: Region,
    nodes: Seq<Node>,
    n: Node,
    m: Measure,
)
    ensures
        measured_segments(Seq::empty(), m, 0) == 0,
        measured_segments(segments.push(s), m, segments.len() as int + 1) == measured_segments(
            segments,
            m,
            segments.len() as int,
        ) + m.below(s.word(), 16),
        measured_regions(Seq::empty(), m, 0) == 0,
        measured_regions(regions.push(r), m, 0) == measured_regions(regions, m, 0)
            + measured_segments(r.segments(), m, r.segments().len() as int),
        measured_nodes(Seq::empty(), m, 0) == 0,
        measured_nodes(nodes.push(n), m, nodes.len() as int + 1) == measured_nodes(
            nodes,
            m,
            nodes.len() as int,
        ) + measured_regions(n.regions(), m, 0),
        segments_from(Seq::empty(), 0) == 0,
        segments_from(regions.push(r), 0) == segments_from(regions, 0) + r.segments().len(),
        segments_below(nodes.push(n), nodes.len() as int + 1) == segments_below(nodes, nodes.len() as int)
            + segments_from(n.regions(), 0),
        regions_below(nodes.push(n), nodes.len() as int + 1) == regions_below(nodes, nodes.len() as int)
            + n.regions().len(),
{
    lemma_measured_prefix(segments, s, m, segments.len() as int);
    lemma_measured_push(regions, r, m, 0);
    lemma_measured_nodes_prefix(nodes, n, m, nodes.len() as int);
}

proof fn lemma_measured_prefix(segments: Seq<Segment>, s: Segment, m: Measure, hi: int)
    requires
        hi <= segments.len(),
    ensures
        measured_segments(segments.push(s), m, hi) == measured_segments(segments, m, hi),
    decreases hi,
{
    if hi > 0 {
        lemma_measured_prefix(segments, s, m, hi - 1);
    }
}

proof fn lemma_measured_push(regions: Seq<Region>, r: Region, m: Measure, lo: int)
    requires
        0 <= lo <= regions.len(),
    ensures
        measured_regions(regions.push(r), m, lo) == measured_regions(regions, m, lo)
            + measured_segments(r.segments(), m, r.segments().len() as int),
        segments_from(regions.push(r), lo) == segments_from(regions, lo) + r.segments().len(),
    decreases regions.len() - lo,
{
    let all = regions.push(r);
    if lo < regions.len() {
        lemma_measured_push(regions, r, m, lo + 1);
        assert(all[lo] == regions[lo]);
    } else {
        assert(all[lo] == r);
        assert(measured_regions(all, m, lo + 1) == 0);
        assert(segments_from(all, lo + 1) == 0);
    }
}

proof fn lemma_measured_nodes_prefix(nodes: Seq<Node>, n: Node, m: Measure, hi: int)
    requires
        hi <= nodes.len(),
    ensures
        measured_nodes(nodes.push(n), m, hi) == measured_nodes(nodes, m, hi),
        segments_below(nodes.push(n), hi) == segments_below(nodes, hi),
        regions_below(nodes.push(n), hi) == regions_below(nodes, hi),
    decreases hi,
{
    if hi > 0 {
        lemma_measured_nodes_prefix(nodes, n, m, hi - 1);
    }
}

/// A block that doubled in place is busy throughout, and no slot outside it is touched; one that
/// could not double is left as it was.
pub proof fn law_doubled_block_is_busy(before: Segment, after: Segment, addr: int, order: int, i: int)
    requires
        block_grown(before, after, addr, order),
        0 <= order,
    ensures
        ({
            let start = segment::slot_of(before.start() as int, addr);
            &&& grows(before, addr, order) && segment::in_block(i, start, order + 1)
                ==> segment::busy(after.word(), i)
            &&& grows(before, addr, order) && !segment::in_block(i, start, order + 1)
                ==> segment::busy(after.word(), i) == segment::busy(before.word(), i)
                && segment::dirty(after.word(), i) == segment::dirty(before.word(), i)
            &&& !grows(before, addr, order) ==> after.word() == before.word()
            &&& after.stamps() == before.stamps()
        }),
{
    let start = segment::slot_of(before.start() as int, addr);
    if grows(before, addr, order) {
        segment::law_orders_double(order);
        assert(segment::busy(after.word(), i) <==> segment::busy(before.word(), i)
            || segment::in_block(i, start + segment::span(order), order));
        assert(segment::dirty(after.word(), i) <==> segment::dirty(before.word(), i)
            || segment::in_block(i, start + segment::span(order), order));
        if segment::in_block(i, start, order + 1) {
            assert(segment::busy(before.word(), i) <==> segment::in_block(i, start, order));
        }
    }
}

/// A trim that was not asked for an amount looks at every region: the sums are over all of them.
pub proof fn law_sums_of_regions_add_up(
    before: Seq<Region>,
    after: Seq<Region>,
    b: Region,
    a: Region,
    policy: TrimPolicy,
    freed: int,
    other: int,
    lo: int,
)
    requires
        policy.requested == 0,
        after.len() == before.len(),
        0 <= freed,
        0 <= other,
        0 <= lo <= before.len(),
    ensures
        regions_sums(before, after, policy, freed, before.len() as int) == (0int, 0int),
        ({
            let rest = regions_sums(before, after, policy, other, lo);
            let one = segment_trim::segments_sums(
                b.segments(),
                a.segments(),
                policy,
                other,
                b.segments().len() as int,
            );
            let all = regions_sums(before.push(b), after.push(a), policy, freed, lo);
            all == (rest.0 + one.0, rest.1 + one.1)
        }),
    decreases before.len() - lo,
{
    let bs = before.push(b);
    let aa = after.push(a);
    let here = freed + SLOT_BYTES * cleaned_regions(bs, aa, lo + 1);
    let there = other + SLOT_BYTES * cleaned_regions(before, after, lo + 1);
    lemma_cleaned_regions_grow(bs, aa, lo + 1, lo + 1);
    lemma_cleaned_regions_grow(before, after, lo + 1, lo + 1);
    if lo < before.len() {
        law_sums_of_regions_add_up(before, after, b, a, policy, freed, other, lo + 1);
        assert(bs[lo] == before[lo] && aa[lo] == after[lo]);
        segment_trim::lemma_sums_prefix(
            before[lo].segments(),
            after[lo].segments(),
            before[lo].segments(),
            after[lo].segments(),
            policy,
            here,
            there,
            before[lo].segments().len() as int,
        );
    } else {
        assert(bs[lo] == b && aa[lo] == a);
        assert(regions_sums(bs, aa, policy, freed, lo + 1) == (0int, 0int));
        segment_trim::lemma_sums_prefix(
            b.segments(),
            a.segments(),
            b.segments(),
            a.segments(),
            policy,
            here,
            other,
            b.segments().len() as int,
        );
    }
}

/// A trim that was not asked for an amount looks at every node: the sums are over all of them.
pub proof fn law_sums_of_nodes_add_up(
    before: Seq<Node>,
    after: Seq<Node>,
    b: Node,
    a: Node,
    policy: TrimPolicy,
)
    requires
        policy.requested == 0,
        after.len() == before.len(),
    ensures
        nodes_sums(before, after, policy, 0) == (0int, 0int),
        ({
            let n = before.len() as int;
            let rest = nodes_sums(before, after, policy, n);
            let one = regions_sums(
                b.regions(),
                a.regions(),
                policy,
                SLOT_BYTES * cleaned_nodes(before, after, n),
                0,
            );
            let all = nodes_sums(before.push(b), after.push(a), policy, n + 1);
            all == (rest.0 + one.0, rest.1 + one.1)
        }),
        cleaned_nodes(before.push(b), after.push(a), before.len() as int + 1) == cleaned_nodes(
            before,
            after,
            before.len() as int,
        ) + cleaned_regions(b.regions(), a.regions(), 0),
{
    lemma_nodes_prefix(before, after, b, a, policy, before.len() as int);
}

proof fn lemma_nodes_prefix(
    before: Seq<Node>,
    after: Seq<Node>,
    b: Node,
    a: Node,
    policy: TrimPolicy,
    hi: int,
)
    requires
        after.len() == before.len(),
        hi <= before.len(),
    ensures
        nodes_sums(before.push(b), after.push(a), policy, hi) == nodes_sums(
            before,
            after,
            policy,
            hi,
        ),
        cleaned_nodes(before.push(b), after.push(a), hi) == cleaned_nodes(before, after, hi),
    decreases hi,
{
    if hi > 0 {
        lemma_nodes_prefix(before, after, b, a, policy, hi - 1);
    }
}

/// The slots that a trim cleaned in regions are those that it cleaned in each of them.
pub proof fn law_cleaned_regions_add_up(
    before: Seq<Region>,
    after: Seq<Region>,
    b: Region,
    a: Region,
    lo: int,
)
    requires
        after.len() == before.len(),
        0 <= lo <= before.len(),
    ensures
        cleaned_regions(before, after, before.len() as int) == 0,
        cleaned_regions(before.push(b), after.push(a), lo) == cleaned_regions(before, after, lo)
            + segment_trim::cleaned_segments(
            b.segments(),
            a.segments(),
            b.segments().len() as int,
        ),
    decreases before.len() - lo,
{
    let bs = before.push(b);
    let aa = after.push(a);
    if lo < before.len() {
        law_cleaned_regions_add_up(before, after, b, a, lo + 1);
        assert(bs[lo] == before[lo] && aa[lo] == after[lo]);
    } else {
        assert(bs[lo] == b && aa[lo] == a);
        assert(cleaned_regions(bs, aa, lo + 1) == 0);
    }
}

} // verus!
