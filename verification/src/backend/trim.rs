//! Giving the pages of cached blocks back to the system.

use crate::utility;
use crate::utility::PAGE_SIZE;
use crate::Flags;
use vstd::prelude::*;

verus! {

/// Cached blocks that go back to their list at once.
pub const TRIM_REPUSH_BATCH: usize = 16;

/// Longest time, in time stamps, that a class remembers.
pub const LONGEST_TIME: u32 = 100;

/// Low readings in a row after which large blocks are served again.
pub const ENABLE_AFTER: usize = 2;

/// Memory pressure that is assumed when nothing is known about the memory.
pub const UNKNOWN_PRESSURE: usize = 50;

/// A cached block.
#[derive(Clone, Copy, Debug, PartialEq, Eq, Structural)]
pub struct Block {
    /// Address of the header.
    pub addr: usize,
    /// Time stamp of the last return, or zero.
    pub life_time: u32,
    pub flags: Flags,
}

/// Time from one stamp to another.
pub open spec fn time_since(now: u32, then: u32) -> int {
    if now >= then {
        now - then
    } else {
        0
    }
}

/// The block was in use and stayed in the cache for longer than usual.
pub open spec fn is_old(b: Block, stamp: u32, usual: u32) -> bool {
    time_since(stamp, b.life_time) > usual && b.flags == Flags::Allocated
}

/// The blocks of a list that are old, or those that are not, in order.
pub open spec fn selected(list: Seq<Block>, stamp: u32, usual: u32, old: bool) -> Seq<Block>
    decreases list.len(),
{
    if list.len() == 0 {
        Seq::empty()
    } else {
        let rest = selected(list.drop_last(), stamp, usual, old);
        if is_old(list.last(), stamp, usual) == old {
            rest.push(list.last())
        } else {
            rest
        }
    }
}

/// Batch `j` of blocks that go back: at most so many at once, each batch the other way round.
pub open spec fn batch(young: Seq<Block>, j: int) -> Seq<Block> {
    let end = if 16 * j + 16 < young.len() {
        16 * j + 16
    } else {
        young.len() as int
    };
    young.subrange(16 * j, end).reverse()
}

/// Sum of the times that the blocks of a list spent in the cache, as far as they are known.
pub open spec fn times(list: Seq<Block>, stamp: u32) -> int
    decreases list.len(),
{
    if list.len() == 0 {
        0
    } else {
        times(list.drop_last(), stamp) + if list.last().life_time != 0 {
            time_since(stamp, list.last().life_time)
        } else {
            0
        }
    }
}

/// Number of blocks of a list for which the time in the cache is known.
pub open spec fn timed(list: Seq<Block>) -> int
    decreases list.len(),
{
    if list.len() == 0 {
        0
    } else {
        timed(list.drop_last()) + if list.last().life_time != 0 {
            1int
        } else {
            0
        }
    }
}

/// The time that a class learns from a list: the average, kept between one and the longest. An
/// empty list counts as the longest time unless trimming is aggressive.
pub open spec fn learnt_time(list: Seq<Block>, stamp: u32, aggressive: bool) -> Option<int> {
    if list.len() == 0 {
        if aggressive {
            None
        } else {
            Some(LONGEST_TIME as int)
        }
    } else if timed(list) == 0 {
        None
    } else {
        let sum = if times(list, stamp) > u32::MAX {
            u32::MAX as int
        } else {
            times(list, stamp)
        };
        let average = sum / timed(list);
        Some(
            if average < 1 {
                1
            } else if average > LONGEST_TIME {
                LONGEST_TIME as int
            } else {
                average
            },
        )
    }
}

/// What is done with a list of cached blocks.
pub struct ListScan {
    /// The time that the class learns.
    pub time: Option<usize>,
    /// Batches that go back to the cache.
    pub batches: Vec<Vec<Block>>,
    /// Blocks whose pages are given back, in the order of the list.
    pub old: Vec<Block>,
}

proof fn lemma_lists(list: Seq<Block>, stamp: u32, usual: u32, i: int)
    requires
        0 <= i < list.len(),
    ensures
        list.subrange(0, i + 1).drop_last() == list.subrange(0, i),
        list.subrange(0, i + 1).last() == list[i],
        0 <= timed(list.subrange(0, i)) <= i,
        times(list.subrange(0, i), stamp) >= 0,
    decreases i,
{
    assert(list.subrange(0, i + 1).drop_last() =~= list.subrange(0, i));
    if i > 0 {
        lemma_lists(list, stamp, usual, i - 1);
    }
}

/// Adding a block that stays changes the last batch only.
proof fn lemma_batches(young: Seq<Block>, b: Block, n: int)
    requires
        n == young.len() / 16,
    ensures
        forall|j: int| 0 <= j < n ==> #[trigger] batch(young.push(b), j) == batch(young, j),
        batch(young.push(b), n) == seq![b] + young.subrange(16 * n, young.len() as int).reverse(),
{
    let more = young.push(b);
    assert forall|j: int| 0 <= j < n implies #[trigger] batch(more, j) == batch(young, j) by {
        assert(more.subrange(16 * j, 16 * j + 16) =~= young.subrange(16 * j, 16 * j + 16));
    }
    assert(batch(more, n) =~= seq![b] + young.subrange(16 * n, young.len() as int).reverse());
}

/// Parts the blocks of a list, which starts with the block that came last, by how long they were
/// in it.
pub fn scan_list(list: &Vec<Block>, stamp: u32, usual: u32, aggressive: bool) -> (r: ListScan)
    requires
        list@.len() <= u32::MAX,
    ensures
        r.old@ == selected(list@, stamp, usual, true),
        r.batches@.len() == (selected(list@, stamp, usual, false).len() + 15) / 16,
        forall|j: int|
            0 <= j < r.batches@.len() ==> (#[trigger] r.batches@[j])@ == batch(
                selected(list@, stamp, usual, false),
                j,
            ),
        r.time is Some <==> learnt_time(list@, stamp, aggressive) is Some,
        r.time matches Some(t) ==> learnt_time(list@, stamp, aggressive) == Some(t as int),
{
    let mut batches: Vec<Vec<Block>> = Vec::new();
    let mut old: Vec<Block> = Vec::new();
    if list.len() == 0 {
        let time: Option<usize> = if aggressive {
            None
        } else {
            Some(LONGEST_TIME as usize)
        };
        return ListScan { time, batches, old };
    }
    let mut current: Vec<Block> = Vec::new();
    let mut sum: u32 = 0;
    let mut total: u32 = 0;
    let mut i: usize = 0;
    let ghost mut young: Seq<Block> = Seq::empty();
    assert(list@.subrange(0, 0) =~= Seq::<Block>::empty());
    assert(current@ =~= young.subrange(0, 0).reverse());
    while i < list.len()
        invariant
            i <= list@.len() <= u32::MAX,
            old@ == selected(list@.subrange(0, i as int), stamp, usual, true),
            young == selected(list@.subrange(0, i as int), stamp, usual, false),
            batches@.len() == young.len() / 16,
            forall|j: int|
                0 <= j < batches@.len() ==> (#[trigger] batches@[j])@ == batch(young, j),
            current@ == young.subrange(16 * (young.len() as int / 16), young.len() as int).reverse(),
            total == timed(list@.subrange(0, i as int)),
            sum == if times(list@.subrange(0, i as int), stamp) > u32::MAX {
                u32::MAX as int
            } else {
                times(list@.subrange(0, i as int), stamp)
            },
        decreases list@.len() - i,
    {
        proof {
            lemma_lists(list@, stamp, usual, i as int);
        }
        let b: Block = list[i];
        let age: u32 = stamp.saturating_sub(b.life_time);
        if age > usual && matches!(b.flags, Flags::Allocated) {
            old.push(b);
        } else {
            let ghost n = (young.len() / 16) as int;
            proof {
                lemma_batches(young, b, n);
            }
            let ghost before = young;
            current.insert(0, b);
            assert(current@ =~= batch(young.push(b), n));
            proof {
                young = young.push(b);
            }
            if current.len() == TRIM_REPUSH_BATCH {
                batches.push(current);
                current = Vec::new();
                assert(young.len() == 16 * (n + 1));
                assert(current@ =~= young.subrange(
                    16 * (young.len() as int / 16),
                    young.len() as int,
                ).reverse());
            } else {
                assert(young.len() / 16 == n);
                assert(current@ =~= young.subrange(
                    16 * (young.len() as int / 16),
                    young.len() as int,
                ).reverse());
            }
        }
        if b.life_time != 0 {
            sum = sum.saturating_add(age);
            total = total + 1;
        }
        i = i + 1;
    }
    assert(list@.subrange(0, list@.len() as int) =~= list@);
    let time: Option<usize> = if total > 0 {
        let average: u32 = sum / total;
        Some(
            (if average < 1 {
                1
            } else if average > LONGEST_TIME {
                LONGEST_TIME
            } else {
                average
            }) as usize,
        )
    } else {
        None
    };
    if current.len() > 0 {
        assert(current@ =~= batch(young, (young.len() / 16) as int));
        batches.push(current);
    }
    ListScan { time, batches, old }
}

/// The whole pages inside a payload of `size` bytes behind the header at `addr`.
pub open spec fn inner_pages(addr: int, header: int, size: int) -> (int, int) {
    let page = PAGE_SIZE as int;
    (utility::round_up(addr + header, page), (addr + header + size) / page * page)
}

/// The whole pages inside a payload of `size` bytes behind the header at `addr`: where they start,
/// and their bytes.
pub fn release_range(addr: usize, header: usize, size: usize) -> (r: Option<(usize, usize)>)
    requires
        addr + header + size + PAGE_SIZE <= usize::MAX,
    ensures
        ({
            let (start, end) = inner_pages(addr as int, header as int, size as int);
            r == if start >= end {
                None
            } else {
                Some((start as usize, (end - start) as usize))
            }
        }),
{
    let start: usize = utility::align_to(addr + header, PAGE_SIZE);
    let end: usize = (addr + header + size) / PAGE_SIZE * PAGE_SIZE;
    if start >= end {
        return None;
    }
    Some((start, end - start))
}

/// What became of an old block.
#[derive(Clone, Copy, Debug, PartialEq, Eq, Structural)]
pub struct Released {
    pub block: Block,
    /// Its pages were given back.
    pub trimmed: bool,
}

/// Number of the first `hi` blocks whose pages were given back.
pub open spec fn trimmed_count(blocks: Seq<Released>, hi: int) -> int
    decreases hi,
{
    if hi <= 0 {
        0
    } else {
        trimmed_count(blocks, hi - 1) + if blocks[hi - 1].trimmed {
            1int
        } else {
            0
        }
    }
}

/// The `len` bytes at `start` are the whole pages inside the payload of one of the blocks.
pub open spec fn listed_pages(
    blocks: Seq<Block>,
    header: int,
    size: int,
    start: int,
    len: int,
) -> bool {
    exists|i: int|
        0 <= i < blocks.len() && len > 0 && inner_pages(
            (#[trigger] blocks[i]).addr as int,
            header,
            size,
        ) == (start, start + len)
}

/// A walk over the cached lists of all processors and classes that gives pages back.
pub struct SlabTrim {
    /// Bytes to give back, zero standing for no limit.
    pub requested: usize,
    /// Bytes that were given back.
    pub trimmed: usize,
    pub cpus: usize,
    pub first_class: usize,
    pub classes: usize,
    /// The list that is next.
    pub cpu: usize,
    pub class: usize,
}

impl SlabTrim {
    pub open spec fn wf(&self) -> bool {
        &&& self.cpu <= self.cpus
        &&& self.first_class <= self.class <= self.classes
        &&& self.class == self.classes ==> self.first_class == self.classes
    }

    /// Starts a walk over the lists of the classes from `first_class` on. There is none while
    /// little is cached or another walk holds the lock.
    pub fn trim_small(
        cached: usize,
        threshold: usize,
        lock_is_free: bool,
        requested: usize,
        cpus: usize,
        first_class: usize,
        classes: usize,
    ) -> (r: Option<Self>)
        requires
            first_class <= classes,
        ensures
            r is Some <==> cached >= threshold && lock_is_free,
            r matches Some(t) ==> {
                &&& t.wf()
                &&& t.requested == requested
                &&& t.trimmed == 0
                &&& t.cpus == cpus
                &&& t.classes == classes
                &&& t.first_class == first_class
                &&& t.cpu == 0
                &&& t.class == first_class
            },
    {
        if cached < threshold || !lock_is_free {
            return None;
        }
        Some(
            SlabTrim {
                requested,
                trimmed: 0,
                cpus,
                first_class,
                classes,
                cpu: 0,
                class: first_class,
            },
        )
    }

    /// The next list: all classes of a processor, then those of the next one.
    pub fn next(&mut self) -> (r: Option<(usize, usize)>)
        requires
            old(self).wf(),
        ensures
            final(self).wf(),
            final(self).requested == old(self).requested,
            final(self).trimmed == old(self).trimmed,
            final(self).cpus == old(self).cpus,
            final(self).classes == old(self).classes,
            final(self).first_class == old(self).first_class,
            r == (if old(self).cpu < old(self).cpus && old(self).class < old(self).classes {
                Some((old(self).cpu, old(self).class))
            } else {
                None
            }),
            r is None ==> *final(self) == *old(self),
            r is Some ==> (if old(self).class + 1 < old(self).classes {
                final(self).cpu == old(self).cpu && final(self).class == old(self).class + 1
            } else {
                final(self).cpu == old(self).cpu + 1 && final(self).class == old(self).first_class
            }),
    {
        if self.cpu >= self.cpus || self.class >= self.classes {
            return None;
        }
        let place = (self.cpu, self.class);
        if self.class + 1 < self.classes {
            self.class = self.class + 1;
        } else {
            self.cpu = self.cpu + 1;
            self.class = self.first_class;
        }
        Some(place)
    }

    /// More bytes are wanted once `trimmed` were given back.
    pub open spec fn wants(&self, trimmed: int) -> bool {
        self.requested == 0 || trimmed < self.requested
    }

    /// `done` is what became of a block for which `before` bytes had been given back.
    pub open spec fn released<A: Fn(usize, usize) -> bool>(
        &self,
        block: Block,
        done: Released,
        before: int,
        header: int,
        size: int,
        stamp: u32,
        advise: A,
    ) -> bool {
        let (start, end) = inner_pages(block.addr as int, header, size);
        &&& done.block == (Block {
            addr: block.addr,
            life_time: stamp,
            flags: if done.trimmed {
                Flags::Trimmed
            } else {
                block.flags
            },
        })
        &&& if self.wants(before) && start < end {
            call_ensures(advise, (start as usize, (end - start) as usize), done.trimmed)
        } else {
            !done.trimmed
        }
    }

    /// Gives the pages of old blocks of `size` bytes back, the block that came first going first,
    /// until enough bytes were given back.
    pub fn release_list<A: Fn(usize, usize) -> bool>(
        &mut self,
        old_blocks: &Vec<Block>,
        header: usize,
        size: usize,
        stamp: u32,
        advise: &A,
    ) -> (r: Vec<Released>)
        requires
            old(self).wf(),
            old(self).trimmed + size * old_blocks@.len() <= usize::MAX,
            forall|i: int|
                0 <= i < old_blocks@.len() ==> (#[trigger] old_blocks@[i]).addr + header + size
                    + PAGE_SIZE <= usize::MAX,
            forall|start: usize, len: usize|
                listed_pages(
                    old_blocks@,
                    header as int,
                    size as int,
                    start as int,
                    len as int,
                ) ==> #[trigger] call_requires(*advise, (start, len)),
        ensures
            final(self).wf(),
            r@.len() == old_blocks@.len(),
            final(self).requested == old(self).requested,
            final(self).cpus == old(self).cpus,
            final(self).classes == old(self).classes,
            final(self).first_class == old(self).first_class,
            final(self).cpu == old(self).cpu,
            final(self).class == old(self).class,
            final(self).trimmed == old(self).trimmed + size * trimmed_count(r@, r@.len() as int),
            forall|k: int|
                0 <= k < r@.len() ==> old(self).released(
                    old_blocks@[r@.len() - 1 - k],
                    #[trigger] r@[k],
                    old(self).trimmed + size * trimmed_count(r@, k),
                    header as int,
                    size as int,
                    stamp,
                    *advise,
                ),
    {
        let ghost before = *self;
        let mut r: Vec<Released> = Vec::new();
        let n: usize = old_blocks.len();
        while r.len() < n
            invariant
                n == old_blocks@.len(),
                r@.len() <= n,
                self.wf(),
                before.trimmed + size * n <= usize::MAX,
                before.wf(),
                self.requested == before.requested,
                self.cpus == before.cpus,
                self.classes == before.classes,
                self.first_class == before.first_class,
                self.cpu == before.cpu,
                self.class == before.class,
                0 <= trimmed_count(r@, r@.len() as int) <= r@.len(),
                self.trimmed == before.trimmed + size * trimmed_count(r@, r@.len() as int),
                forall|i: int|
                    0 <= i < old_blocks@.len() ==> (#[trigger] old_blocks@[i]).addr + header
                        + size + PAGE_SIZE <= usize::MAX,
                forall|start: usize, len: usize|
                    listed_pages(
                        old_blocks@,
                        header as int,
                        size as int,
                        start as int,
                        len as int,
                    ) ==> #[trigger] call_requires(*advise, (start, len)),
                forall|k: int|
                    0 <= k < r@.len() ==> before.released(
                        old_blocks@[n - 1 - k],
                        #[trigger] r@[k],
                        before.trimmed + size * trimmed_count(r@, k),
                        header as int,
                        size as int,
                        stamp,
                        *advise,
                    ),
            decreases n - r@.len(),
        {
            let ghost shorter = r@;
            let k: usize = r.len();
            let b: Block = old_blocks[n - 1 - k];
            let ghost so_far = self.trimmed as int;
            let mut trimmed: bool = false;
            if self.requested == 0 || self.trimmed < self.requested {
                if let Some((start, len)) = release_range(b.addr, header, size) {
                    proof {
                        utility::lemma_round_up(b.addr + header, PAGE_SIZE as int);
                        assert(old_blocks@[n - 1 - k] == b);
                        assert(listed_pages(
                            old_blocks@,
                            header as int,
                            size as int,
                            start as int,
                            len as int,
                        ));
                    }
                    trimmed = advise(start, len);
                }
            }
            proof {
                let c = trimmed_count(shorter, k as int);
                assert(size * (c + 1) == size * c + size) by (nonlinear_arith);
                assert(size * (c + 1) <= size * n) by (nonlinear_arith)
                    requires
                        c + 1 <= n,
                        size >= 0,
                ;
            }
            if trimmed {
                self.trimmed = self.trimmed + size;
            }
            let done = Released {
                block: Block {
                    addr: b.addr,
                    life_time: stamp,
                    flags: if trimmed {
                        Flags::Trimmed
                    } else {
                        b.flags
                    },
                },
                trimmed,
            };
            r.push(done);
            proof {
                lemma_count_prefix(shorter, r@, k as int);
                assert(trimmed_count(r@, k + 1) == trimmed_count(r@, k as int) + if trimmed {
                    1int
                } else {
                    0
                });
                assert(before.released(
                    b,
                    done,
                    so_far,
                    header as int,
                    size as int,
                    stamp,
                    *advise,
                ));
                assert forall|j: int| 0 <= j < r@.len() implies before.released(
                    old_blocks@[n - 1 - j],
                    #[trigger] r@[j],
                    before.trimmed + size * trimmed_count(r@, j),
                    header as int,
                    size as int,
                    stamp,
                    *advise,
                ) by {
                    lemma_count_prefix(shorter, r@, j);
                    if j < k {
                        assert(r@[j] == shorter[j]);
                    }
                }
            }
        }
        r
    }
}

/// What was counted does not depend on what follows.
proof fn lemma_count_prefix(shorter: Seq<Released>, longer: Seq<Released>, hi: int)
    requires
        hi <= shorter.len() <= longer.len(),
        forall|i: int| 0 <= i < shorter.len() ==> longer[i] == #[trigger] shorter[i],
    ensures
        trimmed_count(longer, hi) == trimmed_count(shorter, hi),
    decreases hi,
{
    if hi > 0 {
        lemma_count_prefix(shorter, longer, hi - 1);
        assert(longer[hi - 1] == shorter[hi - 1]);
    }
}

/// Sum of numbers.
pub open spec fn sum_of(times: Seq<u32>) -> int
    decreases times.len(),
{
    if times.len() == 0 {
        0
    } else {
        sum_of(times.drop_last()) + times.last()
    }
}

/// The average over the times of all classes, when there is any class.
pub fn average_time(times: &Vec<u32>) -> (r: Option<u32>)
    requires
        times@.len() <= u32::MAX,
    ensures
        times@.len() == 0 ==> r is None,
        times@.len() > 0 ==> r == Some((sum_of(times@) / times@.len() as int) as u32) && 0 <= sum_of(
            times@,
        ) / times@.len() as int <= u32::MAX,
{
    let mut sum: u64 = 0;
    let mut i: usize = 0;
    assert(times@.subrange(0, 0) =~= Seq::<u32>::empty());
    while i < times.len()
        invariant
            i <= times@.len() <= u32::MAX,
            sum == sum_of(times@.subrange(0, i as int)),
            sum <= i * 0xffff_ffff,
        decreases times@.len() - i,
    {
        assert(times@.subrange(0, i + 1).drop_last() =~= times@.subrange(0, i as int));
        sum = sum + times[i] as u64;
        i = i + 1;
    }
    assert(times@.subrange(0, times@.len() as int) =~= times@);
    if i == 0 {
        return None;
    }
    proof {
        let n = times@.len() as int;
        assert(sum as int / n <= 0xffff_ffff) by (nonlinear_arith)
            requires
                sum <= n * 0xffff_ffff,
                n > 0,
        ;
    }
    Some((sum / (i as u64)) as u32)
}

/// What the system tells about its memory.
#[derive(Clone, Copy, Debug, PartialEq, Eq, Structural)]
pub struct MemoryInfo {
    /// Bytes that the other numbers count.
    pub unit: u32,
    pub total_ram: u64,
    pub free_ram: u64,
    pub total_swap: u64,
    pub free_swap: u64,
}

/// A number of units in bytes, kept within the address space.
pub open spec fn in_bytes(n: int, unit: int) -> int {
    if n * unit > u64::MAX {
        u64::MAX as int
    } else {
        n * unit
    }
}

/// The share of the memory that is in use, in percent.
pub open spec fn pressure(info: MemoryInfo) -> int {
    let unit = info.unit as int;
    let total = in_bytes(info.total_ram as int, unit) + in_bytes(info.total_swap as int, unit);
    let available = in_bytes(info.free_ram as int, unit) + in_bytes(info.free_swap as int, unit);
    if total == 0 {
        UNKNOWN_PRESSURE as int
    } else if available >= total {
        0
    } else {
        (total - available) * 100 / total
    }
}

fn to_bytes(n: u64, unit: u32) -> (r: u128)
    ensures
        r == in_bytes(n as int, unit as int),
{
    proof {
        assert(0 <= n * unit <= 0xffff_ffff_ffff_ffff * 0xffff_ffff) by (nonlinear_arith)
            requires
                0 <= n <= 0xffff_ffff_ffff_ffff,
                0 <= unit <= 0xffff_ffff,
        ;
    }
    let bytes: u128 = n as u128 * unit as u128;
    if bytes > u64::MAX as u128 {
        u64::MAX as u128
    } else {
        bytes
    }
}

/// The share of the memory that is in use, in percent.
pub fn memory_pressure(info: MemoryInfo) -> (r: usize)
    ensures
        r == pressure(info),
        r <= 100,
{
    let total: u128 = to_bytes(info.total_ram, info.unit) + to_bytes(info.total_swap, info.unit);
    let available: u128 = to_bytes(info.free_ram, info.unit) + to_bytes(
        info.free_swap,
        info.unit,
    );
    if total == 0 {
        return UNKNOWN_PRESSURE;
    }
    if available >= total {
        return 0;
    }
    let used: u128 = total - available;
    proof {
        assert(used as int * 100 / total as int <= 100) by (nonlinear_arith)
            requires
                0 <= used <= total,
                total > 0,
        ;
    }
    (used * 100 / total) as usize
}

/// Reads the memory of the system with `rustix::system::sysinfo`. Nothing is claimed about the
/// numbers, which are what the system tells at that time.
#[verifier::external_body]
fn system_memory() -> (r: MemoryInfo) {
    let info = rustix::system::sysinfo();
    MemoryInfo {
        unit: info.mem_unit as u32,
        total_ram: info.totalram as u64,
        free_ram: info.freeram as u64,
        total_swap: info.totalswap as u64,
        free_swap: info.freeswap as u64,
    }
}

/// The share of the memory of this system that is in use, in percent.
pub fn check_memory_pressure() -> (r: usize)
    ensures
        exists|info: MemoryInfo| r == #[trigger] pressure(info),
        r <= 100,
{
    let info = system_memory();
    memory_pressure(info)
}

/// Stops large blocks from being cached while memory is short.
#[derive(Clone, Copy, Debug, PartialEq, Eq, Structural)]
pub struct Relief {
    /// Large blocks are not cached.
    pub disabled: bool,
    /// Low readings in a row since.
    pub under: usize,
    pub disable_percentage: usize,
    pub enable_percentage: usize,
}

impl Relief {
    pub open spec fn wf(&self) -> bool {
        self.under < ENABLE_AFTER
    }

    pub fn new(disable_percentage: usize, enable_percentage: usize) -> (r: Self)
        ensures
            r.wf(),
            !r.disabled,
            r.under == 0,
            r.disable_percentage == disable_percentage,
            r.enable_percentage == enable_percentage,
    {
        Relief { disabled: false, under: 0, disable_percentage, enable_percentage }
    }

    /// The state after a reading: a high one disables, two low ones in a row enable again.
    pub open spec fn after(self, pressure: int) -> Relief {
        if pressure >= self.disable_percentage && !self.disabled {
            Relief { disabled: true, under: 0, ..self }
        } else if self.disabled && pressure <= self.enable_percentage {
            if self.under + 1 >= ENABLE_AFTER {
                Relief { disabled: false, under: 0, ..self }
            } else {
                Relief { under: (self.under + 1) as usize, ..self }
            }
        } else {
            Relief { under: 0, ..self }
        }
    }

    /// Takes a reading of the memory pressure; tells whether everything cached has to go.
    pub fn relief_paths(&mut self, pressure: usize) -> (r: bool)
        requires
            old(self).wf(),
        ensures
            final(self).wf(),
            *final(self) == old(self).after(pressure as int),
            r <==> pressure >= old(self).disable_percentage && !old(self).disabled,
    {
        if pressure >= self.disable_percentage && !self.disabled {
            self.disabled = true;
            self.under = 0;
            return true;
        }
        if self.disabled && pressure <= self.enable_percentage {
            let under: usize = self.under + 1;
            if under >= ENABLE_AFTER {
                self.disabled = false;
                self.under = 0;
            } else {
                self.under = under;
            }
        } else {
            self.under = 0;
        }
        false
    }
}

/// The rhythm of the background thread.
#[derive(Clone, Copy, Debug, PartialEq, Eq, Structural)]
pub struct Trimmer {
    /// Ticks since the memory pressure was last due.
    pub ticks: u8,
    /// Time stamp of the last trim.
    pub latest: u32,
}

impl Trimmer {
    pub open spec fn wf(&self) -> bool {
        self.ticks < 3
    }

    pub fn new() -> (r: Self)
        ensures
            r.wf(),
            r.ticks == 0,
            r.latest == 0,
    {
        Trimmer { ticks: 0, latest: 0 }
    }

    /// One tick of 100 milliseconds passed: every third time the memory pressure is looked at,
    /// unless that is switched off.
    pub fn tick(&mut self, disable_relief: bool) -> (r: bool)
        requires
            old(self).wf(),
        ensures
            final(self).wf(),
            final(self).latest == old(self).latest,
            final(self).ticks == (old(self).ticks + 1) % 3,
            r <==> final(self).ticks == 0 && !disable_relief,
    {
        self.ticks = if self.ticks == 2 {
            0
        } else {
            self.ticks + 1
        };
        self.ticks == 0 && !disable_relief
    }

    /// A trim is due: more time than blocks usually stay free, and than 30 time stamps, passed
    /// since the last one.
    pub open spec fn due(&self, stamp: u32, average: u32, disabled: bool) -> bool {
        time_since(stamp, self.latest) > if average < 30 {
            30
        } else {
            average
        } && !disabled
    }

    /// Tells whether a trim is due and remembers it.
    pub fn trim_due(&mut self, stamp: u32, average: u32, disabled: bool) -> (r: bool)
        requires
            old(self).wf(),
        ensures
            final(self).wf(),
            final(self).ticks == old(self).ticks,
            r == old(self).due(stamp, average, disabled),
            final(self).latest == if r {
                stamp
            } else {
                old(self).latest
            },
    {
        let limit: u32 = if average < 30 {
            30
        } else {
            average
        };
        if stamp.saturating_sub(self.latest) > limit && !disabled {
            self.latest = stamp;
            true
        } else {
            false
        }
    }
}

/// Lets only one background thread run.
#[derive(Clone, Copy, Debug, PartialEq, Eq, Structural)]
pub struct TrimGuard {
    pub started: bool,
}

impl TrimGuard {
    /// Tells whether the thread has to be started now: enough is cached and none runs.
    pub fn maybe_start_trimmer(&mut self, cached: usize, threshold: usize) -> (r: bool)
        ensures
            r <==> cached >= threshold && !old(self).started,
            final(self).started == (old(self).started || r),
    {
        if cached < threshold || self.started {
            return false;
        }
        self.started = true;
        true
    }

    /// The thread could not be started.
    pub fn start_failed(&mut self)
        ensures
            !final(self).started,
    {
        self.started = false;
    }
}

/// No block of a list is lost, and none is there twice: each either goes back or is given back.
pub proof fn law_no_block_is_lost(list: Seq<Block>, stamp: u32, usual: u32)
    ensures
        selected(list, stamp, usual, true).to_multiset().add(
            selected(list, stamp, usual, false).to_multiset(),
        ) =~= list.to_multiset(),
    decreases list.len(),
{
    broadcast use vstd::seq_lib::group_to_multiset_ensures;

    if list.len() > 0 {
        let rest = list.drop_last();
        let b = list.last();
        law_no_block_is_lost(rest, stamp, usual);
        assert(list =~= rest.push(b));
        let one = selected(rest, stamp, usual, true).to_multiset();
        let two = selected(rest, stamp, usual, false).to_multiset();
        assert(one.insert(b).add(two) =~= one.add(two).insert(b));
        assert(one.add(two.insert(b)) =~= one.add(two).insert(b));
    }
}

/// Every block that goes back is in exactly the batch that its place tells.
pub proof fn law_batches_hold_every_block(young: Seq<Block>, k: int)
    requires
        0 <= k < young.len(),
    ensures
        k / 16 < (young.len() + 15) / 16,
        k % 16 < batch(young, k / 16).len(),
        batch(young, k / 16)[batch(young, k / 16).len() - 1 - k % 16] == young[k],
{
}

/// The pages that are given back lie inside the payload.
pub proof fn law_released_pages_are_inside(addr: int, header: int, size: int)
    requires
        addr >= 0 && header >= 0 && size >= 0,
        inner_pages(addr, header, size).0 < inner_pages(addr, header, size).1,
    ensures
        addr + header <= inner_pages(addr, header, size).0,
        inner_pages(addr, header, size).1 <= addr + header + size,
        inner_pages(addr, header, size).0 % (PAGE_SIZE as int) == 0,
        inner_pages(addr, header, size).1 % (PAGE_SIZE as int) == 0,
{
    utility::lemma_round_up(addr + header, PAGE_SIZE as int);
}

/// Every page that lies wholly inside the payload is among those that are given back, and where there
/// is none, nothing is.
pub proof fn law_every_inner_page_is_released(addr: int, header: int, size: int, page: int)
    requires
        addr >= 0 && header >= 0 && size >= 0,
        page % (PAGE_SIZE as int) == 0,
    ensures
        addr + header <= page && page + PAGE_SIZE <= addr + header + size <==> inner_pages(
            addr,
            header,
            size,
        ).0 <= page && page + PAGE_SIZE <= inner_pages(addr, header, size).1,
{
    let (start, end) = inner_pages(addr, header, size);
    utility::lemma_round_up(addr + header, PAGE_SIZE as int);
    if addr + header <= page {
        utility::law_round_up_is_least(addr + header, PAGE_SIZE as int, page);
    }
}

/// Once large blocks are disabled, one low reading is not enough to enable them, two in a row are,
/// and any other reading in between starts over.
pub proof fn law_relief_needs_two_low_readings(r: Relief, first: int, second: int)
    requires
        r.wf(),
        r.disabled,
        r.under == 0,
        first <= r.enable_percentage,
    ensures
        r.after(first).disabled,
        second <= r.enable_percentage ==> !r.after(first).after(second).disabled,
        second > r.enable_percentage ==> r.after(first).after(second).disabled
            && r.after(first).after(second).under == 0,
{
}

/// What is given back was in use and stayed in the cache for longer than usual; what goes back was
/// not, or did not. Nothing else is in either.
pub proof fn law_selection_is_by_age(list: Seq<Block>, stamp: u32, usual: u32, b: Block)
    ensures
        selected(list, stamp, usual, true).contains(b) <==> list.contains(b) && b.flags
            == Flags::Allocated && b.life_time + usual < stamp,
        selected(list, stamp, usual, false).contains(b) <==> list.contains(b) && (b.flags
            != Flags::Allocated || stamp <= b.life_time + usual),
    decreases list.len(),
{
    if list.len() > 0 {
        let rest = list.drop_last();
        let last = list.last();
        law_selection_is_by_age(rest, stamp, usual, b);
        assert(list =~= rest.push(last));
        assert(list.contains(b) <==> rest.contains(b) || b == last) by {
            if rest.contains(b) {
                let i = choose|i: int| 0 <= i < rest.len() && rest[i] == b;
                assert(list[i] == b);
            }
            if b == last {
                assert(list[list.len() - 1] == b);
            }
        }
        lemma_push_contains(selected(rest, stamp, usual, true), last, b);
        lemma_push_contains(selected(rest, stamp, usual, false), last, b);
    }
}

proof fn lemma_push_contains(s: Seq<Block>, last: Block, b: Block)
    ensures
        s.push(last).contains(b) <==> s.contains(b) || b == last,
{
    if s.contains(b) {
        let i = choose|i: int| 0 <= i < s.len() && s[i] == b;
        assert(s.push(last)[i] == b);
    }
    assert(s.push(last)[s.len() as int] == last);
}

/// Blocks keep their order: selecting from two lists in a row is selecting from each.
pub proof fn law_selection_keeps_order(
    first: Seq<Block>,
    second: Seq<Block>,
    stamp: u32,
    usual: u32,
    old: bool,
)
    ensures
        selected(first + second, stamp, usual, old) == selected(first, stamp, usual, old)
            + selected(second, stamp, usual, old),
    decreases second.len(),
{
    let all = first + second;
    if second.len() == 0 {
        assert(all =~= first);
        assert(selected(first, stamp, usual, old) + selected(second, stamp, usual, old)
            =~= selected(first, stamp, usual, old));
    } else {
        let rest = second.drop_last();
        law_selection_keeps_order(first, rest, stamp, usual, old);
        assert(all.drop_last() =~= first + rest);
        assert(all.last() == second.last());
        assert(selected(all, stamp, usual, old) =~= selected(first, stamp, usual, old) + selected(
            second,
            stamp,
            usual,
            old,
        ));
    }
}

/// The time that a class learns lies between the shortest and the longest time that a block spent in
/// the cache, where those lie between one and the longest that is remembered.
pub proof fn law_learnt_time_is_an_average(
    list: Seq<Block>,
    stamp: u32,
    aggressive: bool,
    lo: int,
    hi: int,
)
    requires
        1 <= lo <= hi <= LONGEST_TIME,
        list.len() <= 0x100_0000,
        forall|i: int|
            0 <= i < list.len() ==> lo <= stamp - (#[trigger] list[i]).life_time <= hi
                && list[i].life_time != 0,
    ensures
        list.len() > 0 ==> (learnt_time(list, stamp, aggressive) matches Some(t) && lo <= t <= hi),
        list.len() == 0 ==> learnt_time(list, stamp, aggressive) == (if aggressive {
            None::<int>
        } else {
            Some(LONGEST_TIME as int)
        }),
{
    lemma_times_between(list, stamp, lo, hi);
    if list.len() > 0 {
        let n = timed(list);
        let sum = times(list, stamp);
        assert(lo <= sum / n <= hi) by (nonlinear_arith)
            requires
                n > 0,
                lo * n <= sum <= hi * n,
        ;
        assert(sum <= u32::MAX) by (nonlinear_arith)
            requires
                sum <= hi * n,
                hi <= 100,
                0 < n <= 0x100_0000,
        ;
    }
}

proof fn lemma_times_between(list: Seq<Block>, stamp: u32, lo: int, hi: int)
    requires
        1 <= lo <= hi,
        forall|i: int|
            0 <= i < list.len() ==> lo <= stamp - (#[trigger] list[i]).life_time <= hi
                && list[i].life_time != 0,
    ensures
        timed(list) == list.len(),
        lo * timed(list) <= times(list, stamp) <= hi * timed(list),
    decreases list.len(),
{
    if list.len() > 0 {
        let rest = list.drop_last();
        lemma_times_between(rest, stamp, lo, hi);
        let n = timed(rest);
        assert(list[list.len() - 1] == list.last());
        assert(lo * (n + 1) == lo * n + lo && hi * (n + 1) == hi * n + hi) by (nonlinear_arith);
    }
}

/// Blocks whose return is not known teach nothing, and whatever is learnt lies between one and the
/// longest time that is remembered.
pub proof fn law_learnt_time_is_bounded(list: Seq<Block>, stamp: u32, aggressive: bool)
    ensures
        learnt_time(list, stamp, aggressive) matches Some(t) ==> 1 <= t <= LONGEST_TIME,
        list.len() > 0 && (forall|i: int|
            0 <= i < list.len() ==> (#[trigger] list[i]).life_time == 0) ==> learnt_time(
            list,
            stamp,
            aggressive,
        ) is None,
{
    if forall|i: int| 0 <= i < list.len() ==> (#[trigger] list[i]).life_time == 0 {
        lemma_untimed(list);
    }
}

proof fn lemma_untimed(list: Seq<Block>)
    requires
        forall|i: int| 0 <= i < list.len() ==> (#[trigger] list[i]).life_time == 0,
    ensures
        timed(list) == 0,
    decreases list.len(),
{
    if list.len() > 0 {
        assert(list[list.len() - 1] == list.last());
        lemma_untimed(list.drop_last());
    }
}

/// The blocks that were trimmed are counted, each once.
pub proof fn law_trimmed_blocks_are_counted(blocks: Seq<Released>, hi: int)
    requires
        0 <= hi <= blocks.len(),
    ensures
        trimmed_count(blocks, hi) == blocks.take(hi).filter(|b: Released| b.trimmed).len(),
    decreases hi,
{
    reveal(Seq::filter);
    if hi > 0 {
        law_trimmed_blocks_are_counted(blocks, hi - 1);
        assert(blocks.take(hi).drop_last() =~= blocks.take(hi - 1));
    }
}

/// A block is marked as trimmed exactly where the system took its pages, which it is asked for only
/// while bytes are wanted; its address is kept and the time recorded.
pub proof fn law_released_block<A: Fn(usize, usize) -> bool>(
    walk: SlabTrim,
    block: Block,
    done: Released,
    before: int,
    header: int,
    size: int,
    stamp: u32,
    advise: A,
)
    requires
        walk.released(block, done, before, header, size, stamp, advise),
    ensures
        done.block.addr == block.addr,
        done.block.life_time == stamp,
        done.trimmed ==> done.block.flags == Flags::Trimmed,
        !done.trimmed ==> done.block.flags == block.flags,
        done.trimmed ==> walk.requested == 0 || before < walk.requested,
        done.trimmed ==> call_ensures(
            advise,
            (
                inner_pages(block.addr as int, header, size).0 as usize,
                (inner_pages(block.addr as int, header, size).1 - inner_pages(
                    block.addr as int,
                    header,
                    size,
                ).0) as usize,
            ),
            true,
        ),
{
}

/// The pressure is the whole percentage of the memory that is in use: none with all memory free, all
/// with none free, and what lies between is rounded down.
pub proof fn law_pressure_is_the_used_share(info: MemoryInfo)
    requires
        info.unit == 1,
        info.total_ram + info.total_swap > 0,
    ensures
        ({
            let total = info.total_ram + info.total_swap;
            let free = info.free_ram + info.free_swap;
            let p = pressure(info);
            &&& 0 <= p <= 100
            &&& free >= total ==> p == 0
            &&& free == 0 ==> p == 100
            &&& free < total ==> p * total <= 100 * (total - free) < (p + 1) * total
        }),
{
    let total = info.total_ram + info.total_swap;
    let free = info.free_ram + info.free_swap;
    assert(info.total_ram * 1 == info.total_ram && info.total_swap * 1 == info.total_swap
        && info.free_ram * 1 == info.free_ram && info.free_swap * 1 == info.free_swap);
    if free < total {
        let used = (total - free) * 100;
        let p = used / total;
        vstd::arithmetic::div_mod::lemma_fundamental_div_mod(used, total);
        vstd::arithmetic::div_mod::lemma_mod_bound(used, total);
        assert(p * total <= used < (p + 1) * total && 0 <= p <= 100) by (nonlinear_arith)
            requires
                used == total * p + used % total,
                0 <= used % total < total,
                0 < used <= 100 * total,
                total > 0,
        ;
        if free == 0 {
            assert(p == 100) by (nonlinear_arith)
                requires
                    p * total <= 100 * total < (p + 1) * total,
                    total > 0,
            ;
        }
    }
}

/// Numbers are counted in units: as many bytes as the units have, unless those do not fit.
pub proof fn law_units_are_bytes(n: int, unit: int)
    requires
        0 <= n,
        0 <= unit,
    ensures
        in_bytes(n, unit) <= u64::MAX,
        in_bytes(n, unit) <= n * unit,
        n * unit <= u64::MAX ==> in_bytes(n, unit) == n * unit,
        n * unit > u64::MAX ==> in_bytes(n, unit) == u64::MAX,
{
}

/// Relief starts exactly with a reading that is high enough, lasts through every reading that is not
/// low, and changes neither percentage.
pub proof fn law_relief_starts_with_a_high_reading(r: Relief, pressure: int)
    requires
        r.wf(),
    ensures
        r.after(pressure).wf(),
        r.after(pressure).disable_percentage == r.disable_percentage,
        r.after(pressure).enable_percentage == r.enable_percentage,
        !r.disabled ==> (r.after(pressure).disabled <==> pressure >= r.disable_percentage),
        r.disabled && pressure > r.enable_percentage ==> r.after(pressure).disabled
            && r.after(pressure).under == 0,
        r.disabled && r.under == 0 ==> r.after(pressure).disabled,
{
}

/// A trim is due only once more time than usual, and more than three seconds, went by since the last
/// one, and never while trimming is disabled; after that it is.
pub proof fn law_trims_keep_their_distance(t: Trimmer, stamp: u32, average: u32, disabled: bool)
    ensures
        t.due(stamp, average, disabled) <==> !disabled && stamp > t.latest + 30 && stamp
            > t.latest + average,
{
}

/// Time goes by from the earlier stamp to the later one, and never backwards.
pub proof fn law_time_since(now: u32, then: u32)
    ensures
        now >= then ==> then + time_since(now, then) == now,
        now < then ==> time_since(now, then) == 0,
{
}

/// The average over the times of all classes lies between the shortest and the longest.
pub proof fn law_average_time_is_between(times: Seq<u32>, lo: int, hi: int)
    requires
        times.len() > 0,
        forall|i: int| 0 <= i < times.len() ==> lo <= #[trigger] times[i] <= hi,
    ensures
        lo <= sum_of(times) / times.len() as int <= hi,
{
    lemma_sum_between(times, lo, hi);
    let n = times.len() as int;
    let sum = sum_of(times);
    assert(lo <= sum / n <= hi) by (nonlinear_arith)
        requires
            n > 0,
            lo * n <= sum <= hi * n,
    ;
}

proof fn lemma_sum_between(times: Seq<u32>, lo: int, hi: int)
    requires
        forall|i: int| 0 <= i < times.len() ==> lo <= #[trigger] times[i] <= hi,
    ensures
        lo * times.len() <= sum_of(times) <= hi * times.len(),
    decreases times.len(),
{
    if times.len() > 0 {
        let rest = times.drop_last();
        lemma_sum_between(rest, lo, hi);
        assert(times[times.len() - 1] == times.last());
        let n = rest.len() as int;
        assert(lo * (n + 1) == lo * n + lo && hi * (n + 1) == hi * n + hi) by (nonlinear_arith);
    } else {
        assert(lo * 0 == 0 && hi * 0 == 0);
    }
}

} // verus!
