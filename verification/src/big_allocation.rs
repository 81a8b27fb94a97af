//! Directly mapped allocations with a small cache of freed mappings.

use crate::internals::hashmap::BigAllocMap;
use crate::internals::hashmap::INITIAL_CAP;
use crate::internals::l3_main_radix;
use crate::internals::l3_main_radix::RadixTree;
use crate::utility;
use crate::utility::PAGE_SIZE;
use crate::BigAllocMeta;
use vstd::prelude::*;

verus! {

/// Size of a huge page.
pub const TWO_MB: usize = 0x20_0000;

/// Mappings that miss a huge page by no more than this are rounded up to it.
pub const HUGE_SLACK: usize = 0x1_0000;

/// Mappings of this size or more are never cached.
pub const BIG_CACHE_LIMIT: usize = 0x1000_0000;

/// Mappings that the cache can hold.
pub const CACHE_SLOTS: usize = 16;

/// A mapping that nobody uses.
#[derive(Clone, Copy, Debug, PartialEq, Eq, Structural)]
pub struct BigFreeBlock {
    pub ptr: usize,
    pub total_size: usize,
}

/// The size of a mapping for `size` bytes: whole huge pages when little is lost by that, whole
/// pages otherwise.
pub open spec fn mapping_size(size: int) -> int {
    if size % (TWO_MB as int) > 0 && TWO_MB - size % (TWO_MB as int) <= HUGE_SLACK {
        utility::round_up(size, TWO_MB as int)
    } else {
        utility::round_up(size, PAGE_SIZE as int)
    }
}

/// The size of a mapping for `size` bytes.
pub fn estimate_and_align_2mb(size: usize) -> (r: usize)
    requires
        size + TWO_MB <= usize::MAX,
    ensures
        r == mapping_size(size as int),
        size <= r < size + HUGE_SLACK + 1,
        r % PAGE_SIZE == 0,
{
    proof {
        utility::lemma_round_up(size as int, TWO_MB as int);
        utility::lemma_round_up(size as int, PAGE_SIZE as int);
    }
    let remainder: usize = size % TWO_MB;
    if remainder > 0 && TWO_MB - remainder <= HUGE_SLACK {
        utility::align_to(size, TWO_MB)
    } else {
        utility::align_to(size, PAGE_SIZE)
    }
}

/// Freed mappings that can be handed out again.
pub struct BigFreeCache {
    data: Vec<Option<BigFreeBlock>>,
}

/// Slot `i` is the first one that holds a block of at least `total` bytes.
pub open spec fn first_large(slots: Seq<Option<BigFreeBlock>>, total: int, i: int) -> bool {
    &&& 0 <= i < slots.len()
    &&& slots[i] matches Some(b) && b.total_size >= total
    &&& forall|j: int|
        0 <= j < i ==> !((#[trigger] slots[j]) matches Some(b) && b.total_size >= total)
}

/// Slot `i` is the first empty one.
pub open spec fn first_empty(slots: Seq<Option<BigFreeBlock>>, i: int) -> bool {
    &&& 0 <= i < slots.len()
    &&& slots[i] is None
    &&& forall|j: int| 0 <= j < i ==> (#[trigger] slots[j]) is Some
}

/// What is left of a block once `total` bytes were cut from its start.
pub open spec fn rest_of(block: BigFreeBlock, total: int) -> BigFreeBlock {
    BigFreeBlock {
        ptr: (block.ptr + total) as usize,
        total_size: (block.total_size - total) as usize,
    }
}

/// `after` is `before` once the block in slot `i` was taken and what is left of it beyond `total`
/// bytes, when that is a page or more, went to the first empty slot.
pub open spec fn cut_from(
    before: Seq<Option<BigFreeBlock>>,
    after: Seq<Option<BigFreeBlock>>,
    total: int,
    i: int,
) -> bool {
    let block = before[i]->0;
    let emptied = before.update(i, None);
    if block.total_size < total + PAGE_SIZE {
        after == emptied
    } else {
        exists|j: int| #[trigger]
            first_empty(emptied, j) && after == emptied.update(j, Some(rest_of(block, total)))
    }
}

/// Bytes that the first `hi` slots hold.
pub open spec fn cached_bytes(slots: Seq<Option<BigFreeBlock>>, hi: int) -> int
    decreases hi,
{
    if hi <= 0 {
        0
    } else {
        cached_bytes(slots, hi - 1) + match slots[hi - 1] {
            Some(b) => b.total_size as int,
            None => 0,
        }
    }
}

/// The blocks of the first `hi` slots.
pub open spec fn cached_blocks(slots: Seq<Option<BigFreeBlock>>, hi: int) -> Seq<BigFreeBlock>
    decreases hi,
{
    if hi <= 0 {
        Seq::empty()
    } else {
        match slots[hi - 1] {
            Some(b) => cached_blocks(slots, hi - 1).push(b),
            None => cached_blocks(slots, hi - 1),
        }
    }
}

impl BigFreeCache {
    pub closed spec fn slots(&self) -> Seq<Option<BigFreeBlock>> {
        self.data@
    }

    pub open spec fn wf(&self) -> bool {
        &&& self.slots().len() == CACHE_SLOTS
        &&& forall|i: int|
            0 <= i < CACHE_SLOTS ==> ((#[trigger] self.slots()[i]) matches Some(b) ==> b.ptr
                + b.total_size <= usize::MAX)
    }

    pub fn new() -> (r: Self)
        ensures
            r.wf(),
            forall|i: int| 0 <= i < CACHE_SLOTS ==> (#[trigger] r.slots()[i]) is None,
    {
        let mut data: Vec<Option<BigFreeBlock>> = Vec::new();
        while data.len() < CACHE_SLOTS
            invariant
                data@.len() <= CACHE_SLOTS,
                forall|i: int| 0 <= i < data@.len() ==> (#[trigger] data@[i]) is None,
            decreases CACHE_SLOTS - data@.len(),
        {
            data.push(None);
        }
        BigFreeCache { data }
    }

    fn find_empty(&self) -> (r: Option<usize>)
        requires
            self.wf(),
        ensures
            r matches Some(i) ==> first_empty(self.slots(), i as int),
            r is None ==> forall|i: int|
                0 <= i < CACHE_SLOTS ==> (#[trigger] self.slots()[i]) is Some,
    {
        let mut i: usize = 0;
        while i < self.data.len()
            invariant
                i <= self.slots().len(),
                self.slots().len() == CACHE_SLOTS,
                forall|j: int| 0 <= j < i ==> (#[trigger] self.slots()[j]) is Some,
            decreases self.slots().len() - i,
        {
            if self.data[i].is_none() {
                return Some(i);
            }
            i = i + 1;
        }
        None
    }

    /// Takes the first block of at least `total` bytes and keeps what is left of it, when that is a
    /// page or more, in the first empty slot.
    pub fn take(&mut self, total: usize) -> (r: Option<usize>)
        requires
            old(self).wf(),
            total + PAGE_SIZE <= usize::MAX,
        ensures
            final(self).wf(),
            r is None <==> forall|i: int| !#[trigger] first_large(old(self).slots(), total as int, i),
            r is None ==> *final(self) == *old(self),
            forall|i: int| #[trigger]
                first_large(old(self).slots(), total as int, i) ==> {
                    &&& r == Some((old(self).slots()[i]->0).ptr)
                    &&& cut_from(old(self).slots(), final(self).slots(), total as int, i)
                },
    {
        let ghost before = self.slots();
        let mut i: usize = 0;
        while i < self.data.len()
            invariant
                *self == *old(self),
                before == self.slots(),
                self.wf(),
                i <= self.slots().len(),
                total + PAGE_SIZE <= usize::MAX,
                forall|j: int|
                    0 <= j < i ==> !((#[trigger] before[j]) matches Some(b) && b.total_size
                        >= total),
            decreases self.slots().len() - i,
        {
            if let Some(block) = self.data[i] {
                if block.total_size >= total {
                    proof {
                        assert(before[i as int] == Some(block));
                        assert(first_large(before, total as int, i as int));
                        assert forall|k: int| #[trigger]
                            first_large(before, total as int, k) implies k == i by {
                            if k < i {
                                assert(!(before[k] matches Some(b) && b.total_size >= total));
                            }
                        }
                    }
                    self.data[i] = None;
                    let ghost emptied = self.slots();
                    assert(emptied =~= before.update(i as int, None));
                    if block.total_size >= total + PAGE_SIZE {
                        let rest = BigFreeBlock {
                            ptr: block.ptr + total,
                            total_size: block.total_size - total,
                        };
                        assert(emptied[i as int] is None);
                        if let Some(j) = self.find_empty() {
                            assert(first_empty(emptied, j as int));
                            self.data[j] = Some(rest);
                            assert(self.slots() =~= emptied.update(
                                j as int,
                                Some(rest_of(block, total as int)),
                            ));
                        }
                    }
                    return Some(block.ptr);
                }
            }
            i = i + 1;
        }
        assert forall|k: int| !#[trigger] first_large(before, total as int, k) by {}
        None
    }

    /// Keeps a block. When all slots are taken, the first block gives way, the others move up, and
    /// the new one goes last.
    pub fn put(&mut self, block: BigFreeBlock) -> (evicted: Option<BigFreeBlock>)
        requires
            old(self).wf(),
            block.ptr + block.total_size <= usize::MAX,
        ensures
            final(self).wf(),
            forall|i: int| #[trigger]
                first_empty(old(self).slots(), i) ==> evicted is None && final(self).slots() == old(
                    self).slots().update(i, Some(block)),
            (forall|i: int| !#[trigger] first_empty(old(self).slots(), i)) ==> evicted == old(
                self).slots()[0] && final(self).slots() == old(self).slots().subrange(
                1,
                CACHE_SLOTS as int,
            ).push(Some(block)),
    {
        let ghost before = self.slots();
        match self.find_empty() {
            Some(i) => {
                self.data[i] = Some(block);
                proof {
                    assert(first_empty(before, i as int));
                    assert forall|k: int| #[trigger] first_empty(before, k) implies k == i by {
                        if k < i {
                            assert(before[k] is Some);
                        } else if k > i {
                            assert(before[i as int] is Some);
                        }
                    }
                }
                None
            },
            None => {
                proof {
                    assert forall|k: int| !#[trigger] first_empty(before, k) by {
                        if 0 <= k < CACHE_SLOTS {
                            assert(before[k] is Some);
                        }
                    }
                }
                let evicted = self.data.remove(0);
                self.data.push(Some(block));
                assert(self.slots() =~= before.subrange(1, CACHE_SLOTS as int).push(Some(block)));
                assert forall|i: int| 0 <= i < CACHE_SLOTS implies ((
                #[trigger] self.slots()[i]) matches Some(b) ==> b.ptr + b.total_size
                    <= usize::MAX) by {
                    if i < CACHE_SLOTS - 1 {
                        assert(self.slots()[i] == before[i + 1]);
                    }
                }
                evicted
            },
        }
    }

    /// Empties the cache and gives all blocks, and their bytes, back.
    pub fn drain(&mut self) -> (r: (Vec<BigFreeBlock>, usize))
        requires
            old(self).wf(),
            cached_bytes(old(self).slots(), CACHE_SLOTS as int) <= usize::MAX,
        ensures
            final(self).wf(),
            forall|i: int| 0 <= i < CACHE_SLOTS ==> (#[trigger] final(self).slots()[i]) is None,
            r.0@ == cached_blocks(old(self).slots(), CACHE_SLOTS as int),
            r.1 == cached_bytes(old(self).slots(), CACHE_SLOTS as int),
    {
        let ghost before = self.slots();
        let mut blocks: Vec<BigFreeBlock> = Vec::new();
        let mut freed: usize = 0;
        let mut i: usize = 0;
        while i < self.data.len()
            invariant
                i <= self.slots().len(),
                self.slots().len() == CACHE_SLOTS,
                before.len() == CACHE_SLOTS,
                forall|j: int| i <= j < CACHE_SLOTS ==> #[trigger] self.slots()[j] == before[j],
                forall|j: int| 0 <= j < i ==> (#[trigger] self.slots()[j]) is None,
                blocks@ == cached_blocks(before, i as int),
                freed == cached_bytes(before, i as int),
                cached_bytes(before, CACHE_SLOTS as int) <= usize::MAX,
            decreases self.slots().len() - i,
        {
            proof {
                lemma_cached_bytes(before, i + 1, CACHE_SLOTS as int);
                assert(self.slots()[i as int] == before[i as int]);
            }
            if let Some(block) = self.data[i] {
                blocks.push(block);
                freed = freed + block.total_size;
                self.data[i] = None;
            }
            i = i + 1;
        }
        (blocks, freed)
    }
}

proof fn lemma_cached_bytes(slots: Seq<Option<BigFreeBlock>>, lo: int, hi: int)
    requires
        0 <= lo <= hi,
    ensures
        0 <= cached_bytes(slots, lo) <= cached_bytes(slots, hi),
    decreases hi,
{
    if hi > lo {
        lemma_cached_bytes(slots, lo, hi - 1);
    } else if hi > 0 {
        lemma_cached_bytes(slots, lo - 1, hi - 1);
    }
}

/// Outcome of a request for a mapping.
#[derive(Clone, Copy, Debug, PartialEq, Eq, Structural)]
pub enum BigStart {
    /// A cached mapping serves; this is the payload.
    Payload(usize),
    /// A mapping of this size has to be made first.
    NeedsMapping(usize),
}

/// What becomes of a mapping that is given back.
#[derive(Clone, Copy, Debug, PartialEq, Eq, Structural)]
pub enum BigEnd {
    /// No allocation is known at the address.
    Corrupt,
    /// It was cached.
    Cached,
    /// This mapping has to be given back to the system.
    Unmap(BigFreeBlock),
}

/// Directly mapped allocations: which pages they own, how large each is, and what is cached.
pub struct MappedHeap {
    cache: BigFreeCache,
    radix: RadixTree,
    map: BigAllocMap,
    /// Bytes in front of each payload.
    header: usize,
}

/// The metadata of a mapped allocation.
pub open spec fn meta_of(size: usize) -> BigAllocMeta {
    BigAllocMeta { size, order: 0, buddy_region: 0, aligned: false }
}

/// `after` owns the pages of the range besides those that `before` owns.
pub open spec fn range_set(
    before: RadixTree,
    after: RadixTree,
    addr: int,
    size: int,
    val: bool,
) -> bool {
    forall|chunk: int| #[trigger]
        after.owns(chunk) == if l3_main_radix::valid_range(addr, size) && l3_main_radix::page_of(
            addr,
        ) <= chunk <= l3_main_radix::page_of(addr + size - 1) {
            val
        } else {
            before.owns(chunk)
        }
}

impl MappedHeap {
    pub closed spec fn slots(&self) -> Seq<Option<BigFreeBlock>> {
        self.cache.slots()
    }

    pub closed spec fn radix(&self) -> RadixTree {
        self.radix
    }

    /// The size of each allocation by payload address.
    pub closed spec fn allocations(&self) -> Map<usize, BigAllocMeta> {
        self.map@
    }

    pub closed spec fn header(&self) -> int {
        self.header as int
    }

    pub closed spec fn table_capacity(&self) -> nat {
        self.map.capacity()
    }

    /// The table of `after` is as large as this one, or was enlarged.
    pub open spec fn table_kept(&self, after: &Self) -> bool {
        ||| after.table_capacity() == self.table_capacity()
        ||| after.table_capacity() == if 2 * self.table_capacity() > INITIAL_CAP {
            2 * self.table_capacity()
        } else {
            INITIAL_CAP as nat
        }
    }

    pub closed spec fn wf(&self) -> bool {
        &&& self.cache.wf()
        &&& self.radix.wf()
        &&& self.radix.ready()
        &&& self.map.wf()
        &&& self.header <= PAGE_SIZE
    }

    /// Bytes of the mapping for a payload.
    pub open spec fn total(&self, size: int) -> int {
        mapping_size(size + self.header())
    }

    /// A heap without allocations whose payloads have `header` bytes in front of them.
    pub fn new(header: usize) -> (r: Self)
        requires
            header <= PAGE_SIZE,
        ensures
            r.wf(),
            r.header() == header,
            r.table_capacity() == 0,
            r.allocations() == Map::<usize, BigAllocMeta>::empty(),
            r.slots().len() == CACHE_SLOTS,
            forall|i: int| 0 <= i < CACHE_SLOTS ==> (#[trigger] r.slots()[i]) is None,
            forall|chunk: int| !#[trigger] r.radix().owns(chunk),
    {
        MappedHeap {
            cache: BigFreeCache::new(),
            radix: RadixTree::new(),
            map: BigAllocMap::new(),
            header,
        }
    }

    /// Serves a payload of `size` bytes from the cache, or tells the size of the mapping to make.
    pub fn big_malloc(&mut self, size: usize) -> (r: BigStart)
        requires
            old(self).wf(),
            size + PAGE_SIZE + 2 * TWO_MB <= usize::MAX,
            old(self).table_capacity() <= usize::MAX / 20,
        ensures
            final(self).wf(),
            final(self).header() == old(self).header(),
            final(self).radix() == old(self).radix(),
            (forall|i: int|
                !#[trigger] first_large(old(self).slots(), old(self).total(size as int), i)) ==> {
                &&& r == BigStart::NeedsMapping(old(self).total(size as int) as usize)
                &&& final(self).slots() == old(self).slots()
                &&& final(self).allocations() == old(self).allocations()
                &&& final(self).table_capacity() == old(self).table_capacity()
            },
            old(self).table_kept(final(self)),
            forall|i: int| #[trigger]
                first_large(old(self).slots(), old(self).total(size as int), i) ==> {
                    let payload = (old(self).slots()[i]->0).ptr + old(self).header();
                    &&& r == BigStart::Payload(payload as usize)
                    &&& final(self).allocations() == old(self).allocations().insert(
                        payload as usize,
                        meta_of(size),
                    )
                    &&& cut_from(
                        old(self).slots(),
                        final(self).slots(),
                        old(self).total(size as int),
                        i,
                    )
                },
    {
        let total: usize = estimate_and_align_2mb(size + self.header);
        let ghost before = self.slots();
        match self.cache.take(total) {
            None => BigStart::NeedsMapping(total),
            Some(ptr) => {
                proof {
                    let i = choose|i: int| #[trigger] first_large(before, total as int, i);
                    assert(before[i] is Some);
                    assert forall|k: int| #[trigger] first_large(before, total as int, k) implies k
                        == i by {
                        if k < i {
                            assert(!(before[k] matches Some(b) && b.total_size >= total));
                        } else if k > i {
                            assert(!(before[i] matches Some(b) && b.total_size >= total));
                        }
                    }
                }
                let payload: usize = ptr + self.header;
                self.map.insert(
                    payload,
                    BigAllocMeta { size, order: 0, buddy_region: 0, aligned: false },
                );
                BigStart::Payload(payload)
            },
        }
    }

    /// Continues after a mapping for a payload of `size` bytes was made at `ptr`.
    pub fn big_malloc_mapped(&mut self, size: usize, ptr: usize) -> (payload: usize)
        requires
            old(self).wf(),
            size + PAGE_SIZE + 2 * TWO_MB <= usize::MAX,
            ptr + old(self).total(size as int) <= usize::MAX,
            old(self).table_capacity() <= usize::MAX / 20,
        ensures
            final(self).wf(),
            final(self).header() == old(self).header(),
            final(self).slots() == old(self).slots(),
            old(self).table_kept(final(self)),
            payload == ptr + old(self).header(),
            range_set(
                old(self).radix(),
                final(self).radix(),
                ptr as int,
                old(self).total(size as int),
                true,
            ),
            final(self).allocations() == old(self).allocations().insert(payload, meta_of(size)),
    {
        let total: usize = estimate_and_align_2mb(size + self.header);
        self.radix.set_range(ptr, total, true);
        let payload: usize = ptr + self.header;
        self.map.insert(
            payload,
            BigAllocMeta { size, order: 0, buddy_region: 0, aligned: false },
        );
        payload
    }

    /// Gives an allocation back: small mappings are cached, which may push another one out, large
    /// ones go back to the system.
    pub fn big_free(&mut self, ptr: usize) -> (r: BigEnd)
        requires
            old(self).wf(),
            old(self).allocations().dom().contains(ptr) ==> {
                let size = old(self).allocations()[ptr].size;
                &&& ptr >= old(self).header()
                &&& size + PAGE_SIZE + 2 * TWO_MB <= usize::MAX
                &&& ptr - old(self).header() + old(self).total(size as int) <= usize::MAX
            },
        ensures
            final(self).wf(),
            final(self).header() == old(self).header(),
            final(self).allocations() == old(self).allocations().remove(ptr),
            final(self).table_capacity() == old(self).table_capacity(),
            r is Corrupt <==> !old(self).allocations().dom().contains(ptr),
            r is Corrupt ==> final(self).slots() == old(self).slots() && final(self).radix() == old(
                self).radix(),
            old(self).allocations().dom().contains(ptr) ==> {
                let total = old(self).total(old(self).allocations()[ptr].size as int);
                let block = BigFreeBlock {
                    ptr: (ptr - old(self).header()) as usize,
                    total_size: total as usize,
                };
                &&& total >= BIG_CACHE_LIMIT ==> r == BigEnd::Unmap(block) && final(self).slots()
                    == old(self).slots() && range_set(
                    old(self).radix(),
                    final(self).radix(),
                    block.ptr as int,
                    total,
                    false,
                )
                &&& total < BIG_CACHE_LIMIT ==> {
                    &&& forall|i: int| #[trigger]
                        first_empty(old(self).slots(), i) ==> r is Cached && final(self).slots()
                            == old(self).slots().update(i, Some(block)) && final(self).radix()
                            == old(self).radix()
                    &&& (forall|i: int| !#[trigger] first_empty(old(self).slots(), i)) ==> {
                        let first = old(self).slots()[0]->0;
                        &&& r == BigEnd::Unmap(first)
                        &&& final(self).slots() == old(self).slots().subrange(
                            1,
                            CACHE_SLOTS as int,
                        ).push(Some(block))
                        &&& range_set(
                            old(self).radix(),
                            final(self).radix(),
                            first.ptr as int,
                            first.total_size as int,
                            false,
                        )
                    }
                }
            },
    {
        let meta: BigAllocMeta = match self.map.remove(ptr) {
            Some(meta) => meta,
            None => {
                return BigEnd::Corrupt;
            },
        };
        let total: usize = estimate_and_align_2mb(meta.size + self.header);
        let block = BigFreeBlock { ptr: ptr - self.header, total_size: total };
        if total >= BIG_CACHE_LIMIT {
            self.radix.set_range(block.ptr, total, false);
            return BigEnd::Unmap(block);
        }
        let ghost before = self.slots();
        match self.cache.put(block) {
            None => {
                proof {
                    if forall|i: int| !#[trigger] first_empty(before, i) {
                        lemma_no_empty(before);
                    }
                }
                BigEnd::Cached
            },
            Some(evicted) => {
                self.radix.set_range(evicted.ptr, evicted.total_size, false);
                BigEnd::Unmap(evicted)
            },
        }
    }

    /// Empties the cache: gives the mappings to hand back to the system, and their bytes.
    pub fn trim_big_allocations(&mut self) -> (r: (Vec<BigFreeBlock>, usize))
        requires
            old(self).wf(),
            cached_bytes(old(self).slots(), CACHE_SLOTS as int) <= usize::MAX,
        ensures
            final(self).wf(),
            final(self).header() == old(self).header(),
            final(self).allocations() == old(self).allocations(),
            final(self).table_capacity() == old(self).table_capacity(),
            forall|i: int| 0 <= i < CACHE_SLOTS ==> (#[trigger] final(self).slots()[i]) is None,
            r.0@ == cached_blocks(old(self).slots(), CACHE_SLOTS as int),
            r.1 == cached_bytes(old(self).slots(), CACHE_SLOTS as int),
            forall|chunk: int| #[trigger]
                final(self).radix().owns(chunk) <==> old(self).radix().owns(chunk)
                    && !in_blocks(r.0@, chunk, r.0@.len() as int),
    {
        let ghost before = self.radix();
        let (blocks, freed) = self.cache.drain();
        let mut i: usize = 0;
        while i < blocks.len()
            invariant
                i <= blocks@.len(),
                self.wf(),
                self.header() == old(self).header(),
                self.allocations() == old(self).allocations(),
                self.table_capacity() == old(self).table_capacity(),
                forall|j: int| 0 <= j < CACHE_SLOTS ==> (#[trigger] self.slots()[j]) is None,
                forall|chunk: int| #[trigger]
                    self.radix().owns(chunk) <==> before.owns(chunk) && !in_blocks(
                        blocks@,
                        chunk,
                        i as int,
                    ),
            decreases blocks@.len() - i,
        {
            let ghost mid = self.radix();
            let ghost slots = self.slots();
            self.radix.set_range(blocks[i].ptr, blocks[i].total_size, false);
            assert(self.slots() == slots);
            assert forall|chunk: int| #[trigger] self.radix().owns(chunk) <==> before.owns(chunk)
                && !in_blocks(blocks@, chunk, i + 1) by {
                assert(mid.owns(chunk) <==> before.owns(chunk) && !in_blocks(
                    blocks@,
                    chunk,
                    i as int,
                ));
            }
            i = i + 1;
        }
        (blocks, freed)
    }
}

/// A page lies in one of the first `hi` blocks.
pub open spec fn in_blocks(blocks: Seq<BigFreeBlock>, chunk: int, hi: int) -> bool
    decreases hi,
{
    hi > 0 && (in_blocks(blocks, chunk, hi - 1) || (l3_main_radix::valid_range(
        blocks[hi - 1].ptr as int,
        blocks[hi - 1].total_size as int,
    ) && l3_main_radix::page_of(blocks[hi - 1].ptr as int) <= chunk <= l3_main_radix::page_of(
        blocks[hi - 1].ptr + blocks[hi - 1].total_size - 1,
    )))
}

/// Without a first empty slot every slot is taken.
proof fn lemma_no_empty(slots: Seq<Option<BigFreeBlock>>)
    requires
        forall|i: int| !#[trigger] first_empty(slots, i),
    ensures
        forall|i: int| 0 <= i < slots.len() ==> (#[trigger] slots[i]) is Some,
{
    assert forall|i: int| 0 <= i < slots.len() implies (#[trigger] slots[i]) is Some by {
        lemma_taken_below(slots, i + 1);
    }
}

proof fn lemma_taken_below(slots: Seq<Option<BigFreeBlock>>, hi: int)
    requires
        forall|i: int| !#[trigger] first_empty(slots, i),
        0 <= hi <= slots.len(),
    ensures
        forall|i: int| 0 <= i < hi ==> (#[trigger] slots[i]) is Some,
    decreases hi,
{
    if hi > 0 {
        lemma_taken_below(slots, hi - 1);
        assert(!first_empty(slots, hi - 1));
    }
}

/// Giving a mapping back to the system right after it was made leaves the known allocations and the
/// owned pages as they were.
pub proof fn law_big_free_undoes_big_malloc(
    before: MappedHeap,
    during: MappedHeap,
    after: MappedHeap,
    ptr: usize,
    payload: usize,
    size: usize,
)
    requires
        !before.allocations().dom().contains(payload),
        forall|chunk: int|
            l3_main_radix::page_of(ptr as int) <= chunk <= l3_main_radix::page_of(
                ptr + before.total(size as int) - 1,
            ) ==> !#[trigger] before.radix().owns(chunk),
        during.allocations() == before.allocations().insert(payload, meta_of(size)),
        range_set(
            before.radix(),
            during.radix(),
            ptr as int,
            before.total(size as int),
            true,
        ),
        after.allocations() == during.allocations().remove(payload),
        range_set(during.radix(), after.radix(), ptr as int, before.total(size as int), false),
    ensures
        after.allocations() == before.allocations(),
        forall|chunk: int| #[trigger] after.radix().owns(chunk) == before.radix().owns(chunk),
{
    assert(before.allocations().insert(payload, meta_of(size)).remove(payload)
        =~= before.allocations());
    assert forall|chunk: int| #[trigger] after.radix().owns(chunk) == before.radix().owns(
        chunk,
    ) by {
        assert(during.radix().owns(chunk) == during.radix().owns(chunk));
    }
}

/// A mapping holds its payload, in whole pages, and wastes less than a page, or, to fill huge pages,
/// no more than `HUGE_SLACK`.
pub proof fn law_mapping_is_close(size: int)
    requires
        0 <= size,
    ensures
        size <= mapping_size(size) <= size + HUGE_SLACK,
        mapping_size(size) % (PAGE_SIZE as int) == 0,
        mapping_size(size) % (TWO_MB as int) != 0 ==> mapping_size(size) < size + PAGE_SIZE,
        size % (TWO_MB as int) > TWO_MB - HUGE_SLACK ==> mapping_size(size) % (TWO_MB as int) == 0,
{
    utility::lemma_round_up(size, PAGE_SIZE as int);
    utility::lemma_round_up(size, TWO_MB as int);
    let page = utility::round_up(size, PAGE_SIZE as int);
    let huge = utility::round_up(size, TWO_MB as int);
    let m = size % 0x20_0000;
    if m > 0 && 0x20_0000 - m <= 0x1_0000 {
        lemma_next_huge(size, huge);
        assert(mapping_size(size) == huge);
    } else {
        assert(mapping_size(size) == page);
    }
}

proof fn lemma_next_huge(size: int, huge: int)
    requires
        0 <= size,
        size % 0x20_0000 > 0,
        huge % 0x20_0000 == 0,
        size <= huge < size + 0x20_0000,
    ensures
        huge == size + 0x20_0000 - size % 0x20_0000,
        huge % 0x1000 == 0,
{
}

/// Cutting a payload from a cached mapping loses no byte and hands none out twice: the rest starts
/// where the payload ends and ends where the mapping did.
pub proof fn law_cutting_loses_nothing(block: BigFreeBlock, total: int)
    requires
        0 <= total <= block.total_size,
        block.ptr + block.total_size <= usize::MAX,
    ensures
        rest_of(block, total).ptr == block.ptr + total,
        rest_of(block, total).ptr + rest_of(block, total).total_size == block.ptr
            + block.total_size,
{
}

/// What the cache holds after a payload was cut from slot `i` is what it held before, without the
/// mapping and with its rest where that is a page or more.
pub proof fn law_cut_keeps_the_other_mappings(
    before: Seq<Option<BigFreeBlock>>,
    after: Seq<Option<BigFreeBlock>>,
    total: int,
    i: int,
)
    requires
        first_large(before, total, i),
        0 <= total,
        (before[i]->0).ptr + (before[i]->0).total_size <= usize::MAX,
        cut_from(before, after, total, i),
    ensures
        after.len() == before.len(),
        ({
            let block = before[i]->0;
            let kept = if block.total_size >= total + PAGE_SIZE {
                block.total_size - total
            } else {
                0
            };
            cached_bytes(after, after.len() as int) == cached_bytes(before, before.len() as int)
                - block.total_size + kept
        }),
        forall|j: int|
            0 <= j < before.len() && j != i && before[j] is Some ==> #[trigger] after[j]
                == before[j],
{
    let block = before[i]->0;
    let emptied = before.update(i, None);
    lemma_cached_update(before, i, None, before.len() as int);
    if block.total_size >= total + PAGE_SIZE {
        let j = choose|j: int| #[trigger]
            first_empty(emptied, j) && after == emptied.update(j, Some(rest_of(block, total)));
        lemma_cached_update(emptied, j, Some(rest_of(block, total)), before.len() as int);
    }
}

proof fn lemma_cached_update(
    slots: Seq<Option<BigFreeBlock>>,
    i: int,
    new: Option<BigFreeBlock>,
    hi: int,
)
    requires
        0 <= i < slots.len(),
        0 <= hi <= slots.len(),
    ensures
        cached_bytes(slots.update(i, new), hi) == cached_bytes(slots, hi) + (if i < hi {
            (match new {
                Some(b) => b.total_size as int,
                None => 0,
            }) - (match slots[i] {
                Some(b) => b.total_size as int,
                None => 0,
            })
        } else {
            0
        }),
    decreases hi,
{
    if hi > 0 {
        lemma_cached_update(slots, i, new, hi - 1);
    }
}

/// Draining the cache gives every mapping in it back, and nothing else.
pub proof fn law_drain_gives_every_mapping(
    slots: Seq<Option<BigFreeBlock>>,
    hi: int,
    b: BigFreeBlock,
)
    requires
        0 <= hi <= slots.len(),
    ensures
        cached_blocks(slots, hi).contains(b) <==> exists|i: int|
            0 <= i < hi && #[trigger] slots[i] == Some(b),
        cached_blocks(slots, hi).len() <= hi,
    decreases hi,
{
    if hi > 0 {
        law_drain_gives_every_mapping(slots, hi - 1, b);
        let rest = cached_blocks(slots, hi - 1);
        let all = cached_blocks(slots, hi);
        if rest.contains(b) {
            let k = choose|k: int| 0 <= k < rest.len() && rest[k] == b;
            assert(all[k] == b);
        }
        if slots[hi - 1] == Some(b) {
            assert(all[all.len() - 1] == b);
        }
        if all.contains(b) && slots[hi - 1] != Some(b) {
            let k = choose|k: int| 0 <= k < all.len() && all[k] == b;
            assert(rest[k] == b);
        }
    }
}

/// A page lies in a list of mappings exactly where it lies in one of them.
pub proof fn law_pages_of_mappings(blocks: Seq<BigFreeBlock>, chunk: int, hi: int)
    requires
        0 <= hi <= blocks.len(),
    ensures
        in_blocks(blocks, chunk, hi) <==> exists|i: int|
            0 <= i < hi && l3_main_radix::valid_range(
                (#[trigger] blocks[i]).ptr as int,
                blocks[i].total_size as int,
            ) && l3_main_radix::page_of(blocks[i].ptr as int) <= chunk <= l3_main_radix::page_of(
                blocks[i].ptr + blocks[i].total_size - 1,
            ),
    decreases hi,
{
    if hi > 0 {
        law_pages_of_mappings(blocks, chunk, hi - 1);
        let b = blocks[hi - 1];
    }
}

/// The recorded size is the one that was asked for.
pub proof fn law_recorded_size(size: usize)
    ensures
        meta_of(size).size == size,
        meta_of(size).buddy_region == 0,
{
}

/// A payload is cut from the first mapping that holds it, be it just as large; it gets none only
/// where none does.
pub proof fn law_first_mapping_that_holds_it(
    slots: Seq<Option<BigFreeBlock>>,
    total: int,
    i: int,
    j: int,
)
    requires
        0 <= j < slots.len(),
        slots[j] is Some,
        (slots[j]->0).total_size >= total,
    ensures
        first_large(slots, total, i) ==> i <= j && slots[i] is Some && (slots[i]->0).total_size
            >= total,
        exists|k: int| #[trigger] first_large(slots, total, k),
    decreases j,
{
    if first_large(slots, total, j) {
    } else {
        let k = choose|k: int|
            0 <= k < j && ((#[trigger] slots[k]) matches Some(b) && b.total_size >= total);
        law_first_mapping_that_holds_it(slots, total, i, k);
    }
}

/// The bytes that are cached are those of each mapping, added up: a mapping that is added or taken
/// changes them by its size.
pub proof fn law_cached_bytes_add_up(
    slots: Seq<Option<BigFreeBlock>>,
    i: int,
    b: BigFreeBlock,
    hi: int,
)
    requires
        0 <= hi <= slots.len(),
        0 <= i < slots.len(),
        slots[i] is None,
    ensures
        i < hi ==> cached_bytes(slots.update(i, Some(b)), hi) == cached_bytes(slots, hi)
            + b.total_size,
        i >= hi ==> cached_bytes(slots.update(i, Some(b)), hi) == cached_bytes(slots, hi),
        (forall|k: int| 0 <= k < hi ==> (#[trigger] slots[k]) is None) ==> cached_bytes(slots, hi)
            == 0,
    decreases hi,
{
    if hi > 0 {
        law_cached_bytes_add_up(slots, i, b, hi - 1);
    }
}

} // verus!
