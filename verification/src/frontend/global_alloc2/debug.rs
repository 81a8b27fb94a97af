//! Statistics of the allocator.

use crate::big_allocations::report::BuddyBackendReport;
use crate::frontend::global_alloc2::rsmalloc::RSMalloc;
use crate::internals::l3_main_radix::CHUNK_SIZE;
use vstd::prelude::*;

verus! {

pub const RSMALLOC_BUDDY_NUM_ORDERS: usize = 5;

/// A number kept within the address space.
pub open spec fn capped(n: int) -> int {
    if n > usize::MAX {
        usize::MAX as int
    } else {
        n
    }
}

/// Sum of numbers.
pub open spec fn sum_of(s: Seq<usize>) -> int
    decreases s.len(),
{
    if s.len() == 0 {
        0
    } else {
        sum_of(s.drop_last()) + s.last()
    }
}

/// The least of some numbers, the largest number of all when there are none.
pub open spec fn least_of(s: Seq<usize>) -> usize
    decreases s.len(),
{
    if s.len() == 0 {
        usize::MAX
    } else if s.last() < least_of(s.drop_last()) {
        s.last()
    } else {
        least_of(s.drop_last())
    }
}

/// The largest of some numbers, zero when there are none.
pub open spec fn largest_of(s: Seq<usize>) -> usize
    decreases s.len(),
{
    if s.len() == 0 {
        0
    } else if s.last() > largest_of(s.drop_last()) {
        s.last()
    } else {
        largest_of(s.drop_last())
    }
}

/// The numbers that are not zero, in order.
pub open spec fn nonzero(s: Seq<usize>) -> Seq<usize>
    decreases s.len(),
{
    if s.len() == 0 {
        Seq::empty()
    } else if s.last() != 0 {
        nonzero(s.drop_last()).push(s.last())
    } else {
        nonzero(s.drop_last())
    }
}

/// What the processors hold in their caches.
#[derive(Clone, Copy, Debug, PartialEq, Eq, Structural)]
pub struct CpuUsage {
    pub total: usize,
    pub min: usize,
    pub max: usize,
    /// Processors that hold anything.
    pub nonempty: usize,
}

/// What the processors hold of one size class, over those that hold any.
#[derive(Clone, Copy, Debug, PartialEq, Eq, Structural)]
pub struct ClassUsage {
    pub cached: usize,
    pub active: usize,
    pub min: usize,
    pub max: usize,
    pub avg: usize,
}

/// What processors with so many bytes each hold.
pub open spec fn cpu_usage(bytes: Seq<usize>) -> CpuUsage {
    CpuUsage {
        total: capped(sum_of(bytes)) as usize,
        min: if bytes.len() == 0 {
            0
        } else {
            least_of(bytes)
        },
        max: largest_of(bytes),
        nonempty: nonzero(bytes).len() as usize,
    }
}

/// What processors with so many bytes of a class each hold of it.
pub open spec fn class_usage(bytes: Seq<usize>) -> ClassUsage {
    let active = nonzero(bytes);
    ClassUsage {
        cached: capped(sum_of(bytes)) as usize,
        active: active.len() as usize,
        min: if active.len() == 0 {
            0
        } else {
            least_of(active)
        },
        max: largest_of(active),
        avg: if active.len() == 0 {
            0
        } else {
            (capped(sum_of(bytes)) / active.len() as int) as usize
        },
    }
}

proof fn lemma_prefix(s: Seq<usize>, i: int)
    requires
        0 <= i < s.len(),
    ensures
        s.subrange(0, i + 1).drop_last() == s.subrange(0, i),
        s.subrange(0, i + 1).last() == s[i],
        sum_of(s.subrange(0, i)) >= 0,
        nonzero(s.subrange(0, i)).len() <= i,
    decreases i,
{
    assert(s.subrange(0, i + 1).drop_last() =~= s.subrange(0, i));
    if i > 0 {
        lemma_prefix(s, i - 1);
    }
}

/// Sums up what the processors hold.
pub fn summarize_cpus(bytes: &Vec<usize>) -> (r: CpuUsage)
    ensures
        r == cpu_usage(bytes@),
{
    let mut r = CpuUsage { total: 0, min: usize::MAX, max: 0, nonempty: 0 };
    let mut i: usize = 0;
    assert(bytes@.subrange(0, 0) =~= Seq::<usize>::empty());
    while i < bytes.len()
        invariant
            i <= bytes@.len(),
            r.total == capped(sum_of(bytes@.subrange(0, i as int))),
            r.min == least_of(bytes@.subrange(0, i as int)),
            r.max == largest_of(bytes@.subrange(0, i as int)),
            r.nonempty == nonzero(bytes@.subrange(0, i as int)).len(),
        decreases bytes@.len() - i,
    {
        proof {
            lemma_prefix(bytes@, i as int);
        }
        let n: usize = bytes[i];
        r.total = r.total.saturating_add(n);
        if n < r.min {
            r.min = n;
        }
        if n > r.max {
            r.max = n;
        }
        if n != 0 {
            r.nonempty = r.nonempty + 1;
        }
        i = i + 1;
    }
    assert(bytes@.subrange(0, bytes@.len() as int) =~= bytes@);
    if i == 0 {
        r.min = 0;
    }
    r
}

/// Sums up what the processors hold of one size class.
pub fn summarize_class(bytes: &Vec<usize>) -> (r: ClassUsage)
    ensures
        r == class_usage(bytes@),
{
    let mut cached: usize = 0;
    let mut active: usize = 0;
    let mut min: usize = usize::MAX;
    let mut max: usize = 0;
    let mut i: usize = 0;
    assert(bytes@.subrange(0, 0) =~= Seq::<usize>::empty());
    while i < bytes.len()
        invariant
            i <= bytes@.len(),
            cached == capped(sum_of(bytes@.subrange(0, i as int))),
            active == nonzero(bytes@.subrange(0, i as int)).len(),
            min == least_of(nonzero(bytes@.subrange(0, i as int))),
            max == largest_of(nonzero(bytes@.subrange(0, i as int))),
        decreases bytes@.len() - i,
    {
        proof {
            lemma_prefix(bytes@, i as int);
        }
        let n: usize = bytes[i];
        cached = cached.saturating_add(n);
        if n != 0 {
            proof {
                let before = nonzero(bytes@.subrange(0, i as int));
                assert(before.push(n).drop_last() =~= before);
            }
            active = active + 1;
            if n < min {
                min = n;
            }
            if n > max {
                max = n;
            }
        }
        i = i + 1;
    }
    assert(bytes@.subrange(0, bytes@.len() as int) =~= bytes@);
    ClassUsage {
        cached,
        active,
        min: if active == 0 {
            0
        } else {
            min
        },
        max,
        avg: if active == 0 {
            0
        } else {
            cached / active
        },
    }
}

/// Bytes of blocks of one order of the buddy allocator.
pub open spec fn order_bytes(blocks: int, order: int) -> int {
    if order == 0 {
        capped(blocks * 0x40_0000)
    } else if order == 1 {
        capped(blocks * 0x80_0000)
    } else if order == 2 {
        capped(blocks * 0x100_0000)
    } else if order == 3 {
        capped(blocks * 0x200_0000)
    } else {
        capped(blocks * 0x400_0000)
    }
}

/// Bytes of blocks of all orders of the buddy allocator.
pub open spec fn all_order_bytes(blocks: Seq<usize>) -> int {
    order_bytes(blocks[0] as int, 0) + order_bytes(blocks[1] as int, 1) + order_bytes(
        blocks[2] as int,
        2,
    ) + order_bytes(blocks[3] as int, 3) + order_bytes(blocks[4] as int, 4)
}

fn capped_product(blocks: usize, size: usize) -> (r: usize)
    ensures
        r == capped(blocks * size),
{
    match blocks.checked_mul(size) {
        Some(n) => n,
        None => usize::MAX,
    }
}

/// Bytes of blocks of one order of the buddy allocator.
pub fn bytes_of_order(blocks: usize, order: usize) -> (r: usize)
    requires
        order < RSMALLOC_BUDDY_NUM_ORDERS,
    ensures
        r == order_bytes(blocks as int, order as int),
{
    if order == 0 {
        capped_product(blocks, 0x40_0000)
    } else if order == 1 {
        capped_product(blocks, 0x80_0000)
    } else if order == 2 {
        capped_product(blocks, 0x100_0000)
    } else if order == 3 {
        capped_product(blocks, 0x200_0000)
    } else {
        capped_product(blocks, 0x400_0000)
    }
}

/// Bytes of blocks of all orders of the buddy allocator.
pub fn bytes_of_orders(blocks: &[usize; 5]) -> (r: usize)
    requires
        all_order_bytes(blocks@) <= usize::MAX,
    ensures
        r == all_order_bytes(blocks@),
{
    bytes_of_order(blocks[0], 0) + bytes_of_order(blocks[1], 1) + bytes_of_order(blocks[2], 2)
        + bytes_of_order(blocks[3], 3) + bytes_of_order(blocks[4], 4)
}

/// Number of blocks of all orders.
pub open spec fn all_blocks(blocks: Seq<usize>) -> int {
    blocks[0] + blocks[1] + blocks[2] + blocks[3] + blocks[4]
}

/// The numbers of a report of the buddy allocator can be added up.
pub open spec fn adds_up(buddy: &BuddyBackendReport) -> bool {
    &&& all_blocks(buddy.free_blocks@) <= usize::MAX
    &&& all_order_bytes(buddy.never_allocated_by_order@) <= usize::MAX
    &&& all_order_bytes(buddy.reused_by_order@) <= usize::MAX
    &&& all_order_bytes(buddy.trimmed_by_order@) <= usize::MAX
}

/// What is derived from a report of the buddy allocator.
#[derive(Clone, Copy, Debug, PartialEq, Eq, Structural)]
pub struct BuddyTotals {
    pub used_bytes: usize,
    pub free_blocks: usize,
    pub never_allocated_bytes: usize,
    pub reused_bytes: usize,
    pub trimmed_bytes: usize,
}

/// What is derived from a report of the buddy allocator.
pub open spec fn totals_of(buddy: &BuddyBackendReport) -> BuddyTotals {
    BuddyTotals {
        used_bytes: (if buddy.total_region_bytes >= buddy.free_bytes {
            buddy.total_region_bytes - buddy.free_bytes
        } else {
            0
        }) as usize,
        free_blocks: all_blocks(buddy.free_blocks@) as usize,
        never_allocated_bytes: all_order_bytes(buddy.never_allocated_by_order@) as usize,
        reused_bytes: all_order_bytes(buddy.reused_by_order@) as usize,
        trimmed_bytes: all_order_bytes(buddy.trimmed_by_order@) as usize,
    }
}

/// Adds up a report of the buddy allocator.
pub fn buddy_totals(buddy: &BuddyBackendReport) -> (r: BuddyTotals)
    requires
        adds_up(buddy),
    ensures
        r == totals_of(buddy),
{
    let free = &buddy.free_blocks;
    BuddyTotals {
        used_bytes: buddy.total_region_bytes.saturating_sub(buddy.free_bytes),
        free_blocks: free[0] + free[1] + free[2] + free[3] + free[4],
        never_allocated_bytes: bytes_of_orders(&buddy.never_allocated_by_order),
        reused_bytes: bytes_of_orders(&buddy.reused_by_order),
        trimmed_bytes: bytes_of_orders(&buddy.trimmed_by_order),
    }
}

/// Pages that the allocator owns, and the tables that record them.
#[derive(Clone, Copy, Debug, PartialEq, Eq, Structural)]
pub struct RadixReport {
    pub l1_nodes: usize,
    pub l2_nodes: usize,
    pub leaves: usize,
    pub owned_chunks: usize,
    pub metadata_bytes: usize,
}

/// Counters that are reported as they are.
#[derive(Clone, Copy, Debug, PartialEq, Eq, Structural)]
pub struct Counters {
    pub pid: u32,
    pub uptime_ms: usize,
    pub mmap_calls: usize,
    pub mmap_bytes_requested: usize,
    pub arenas_lived: usize,
    pub arenas_removed: usize,
    pub arena_size: usize,
    pub total_refills: usize,
    pub refill_under_predicts: usize,
    pub refill_over_predicts: usize,
    pub rseq_aborts: usize,
    pub slab_cached_va: usize,
    pub buddy_cached_va: usize,
    pub high_water_slab_cached_va: usize,
    pub high_water_buddy_cached_va: usize,
    pub high_water_total_cached_va: usize,
    pub numa_enabled: bool,
    pub numa_cpus: usize,
    pub numa_nodes: usize,
    pub numa_ranges: usize,
    pub trim_calls: usize,
    pub trimmed_va: usize,
    pub buddy_disabled: bool,
}

/// What the statistics are derived from besides the counters.
pub struct StatsSource {
    pub counters: Counters,
    /// The current time stamp.
    pub stamp: u32,
    /// Average time stamps that small and large blocks stay free.
    pub average_small: u32,
    pub average_buddy: u32,
    /// Arenas of each node.
    pub arena_counts: Vec<usize>,
    /// Bytes that each processor holds.
    pub cpu_bytes: Vec<usize>,
    /// Bytes of the payloads of each size class.
    pub size_classes: Vec<usize>,
    /// Refills of each size class.
    pub refills_by_class: Vec<usize>,
    /// Bytes that each processor holds of each size class.
    pub class_bytes: Vec<Vec<usize>>,
    pub radix: RadixReport,
}

/// Statistics of the allocator.
pub struct RSMallocStats {
    pub counters: Counters,
    pub clock_ms: u64,
    pub total_arenas: usize,
    pub total_misses: usize,
    pub total_cached_va: usize,
    pub rseq_cpu_count: usize,
    /// Bytes that each processor holds.
    pub rseq_cpu_cached_bytes: Vec<usize>,
    pub cpus: CpuUsage,
    pub size_classes: Vec<usize>,
    pub refills_by_class: Vec<usize>,
    pub classes: Vec<ClassUsage>,
    pub avg_small_life_ms: u32,
    pub avg_buddy_life_ms: u32,
    pub buddy: BuddyTotals,
    /// Regions, bytes and free blocks, by order and by what is known about them.
    pub buddy_report: BuddyBackendReport,
    pub radix: RadixReport,
    pub radix_chunk_size: usize,
    pub radix_owned_bytes: usize,
}

/// A time in milliseconds from time stamps of a tenth of a second, as far as it fits.
pub open spec fn stamps_to_millis(stamps: u32) -> int {
    if stamps * 100 > u32::MAX {
        u32::MAX as int
    } else {
        stamps * 100
    }
}

fn millis(stamps: u32) -> (r: u32)
    ensures
        r == stamps_to_millis(stamps),
{
    match stamps.checked_mul(100) {
        Some(n) => n,
        None => u32::MAX,
    }
}

fn total_count(counts: &Vec<usize>) -> (r: usize)
    requires
        sum_of(counts@) <= usize::MAX,
    ensures
        r == sum_of(counts@),
{
    let mut total: usize = 0;
    let mut i: usize = 0;
    assert(counts@.subrange(0, 0) =~= Seq::<usize>::empty());
    while i < counts.len()
        invariant
            i <= counts@.len(),
            total == sum_of(counts@.subrange(0, i as int)),
            sum_of(counts@) <= usize::MAX,
        decreases counts@.len() - i,
    {
        proof {
            lemma_prefix(counts@, i as int);
            lemma_sum_grows(counts@, i + 1);
        }
        total = total + counts[i];
        i = i + 1;
    }
    assert(counts@.subrange(0, counts@.len() as int) =~= counts@);
    total
}

proof fn lemma_sum_grows(s: Seq<usize>, i: int)
    requires
        0 <= i <= s.len(),
    ensures
        sum_of(s.subrange(0, i)) <= sum_of(s),
    decreases s.len() - i,
{
    if i < s.len() {
        lemma_sum_grows(s, i + 1);
        lemma_prefix(s, i);
    } else {
        assert(s.subrange(0, i) =~= s);
    }
}

impl RSMalloc {
    /// Derives the statistics.
    pub fn get_stats(&self, source: StatsSource, buddy: &BuddyBackendReport) -> (r: RSMallocStats)
        requires
            adds_up(buddy),
            sum_of(source.arena_counts@) <= usize::MAX,
        ensures
            r.counters == source.counters,
            r.clock_ms == source.stamp * 100,
            r.total_arenas == sum_of(source.arena_counts@),
            r.total_misses == capped(
                source.counters.refill_under_predicts + source.counters.refill_over_predicts,
            ),
            r.total_cached_va == capped(
                source.counters.slab_cached_va + source.counters.buddy_cached_va,
            ),
            r.rseq_cpu_count == source.cpu_bytes@.len(),
            r.rseq_cpu_cached_bytes@ == source.cpu_bytes@,
            r.cpus == cpu_usage(source.cpu_bytes@),
            r.size_classes@ == source.size_classes@,
            r.refills_by_class@ == source.refills_by_class@,
            r.classes@.len() == source.class_bytes@.len(),
            forall|c: int|
                0 <= c < r.classes@.len() ==> #[trigger] r.classes@[c] == class_usage(
                    source.class_bytes@[c]@,
                ),
            r.avg_small_life_ms == stamps_to_millis(source.average_small),
            r.avg_buddy_life_ms == stamps_to_millis(source.average_buddy),
            r.buddy == totals_of(buddy),
            r.buddy_report == *buddy,
            r.radix == source.radix,
            r.radix_chunk_size == CHUNK_SIZE,
            r.radix_owned_bytes == capped(source.radix.owned_chunks * CHUNK_SIZE),
    {
        let mut classes: Vec<ClassUsage> = Vec::new();
        let mut c: usize = 0;
        while c < source.class_bytes.len()
            invariant
                c <= source.class_bytes@.len(),
                classes@.len() == c,
                forall|i: int|
                    0 <= i < c ==> #[trigger] classes@[i] == class_usage(
                        source.class_bytes@[i]@,
                    ),
            decreases source.class_bytes@.len() - c,
        {
            classes.push(summarize_class(&source.class_bytes[c]));
            c = c + 1;
        }
        let counters = source.counters;
        RSMallocStats {
            counters,
            clock_ms: source.stamp as u64 * 100,
            total_arenas: total_count(&source.arena_counts),
            total_misses: counters.refill_under_predicts.saturating_add(
                counters.refill_over_predicts,
            ),
            total_cached_va: counters.slab_cached_va.saturating_add(counters.buddy_cached_va),
            rseq_cpu_count: source.cpu_bytes.len(),
            cpus: summarize_cpus(&source.cpu_bytes),
            rseq_cpu_cached_bytes: source.cpu_bytes,
            size_classes: source.size_classes,
            refills_by_class: source.refills_by_class,
            classes,
            avg_small_life_ms: millis(source.average_small),
            avg_buddy_life_ms: millis(source.average_buddy),
            buddy: buddy_totals(buddy),
            buddy_report: *buddy,
            radix: source.radix,
            radix_chunk_size: CHUNK_SIZE,
            radix_owned_bytes: capped_product(source.radix.owned_chunks, CHUNK_SIZE),
        }
    }

    /// Derives the statistics that cost more to count.
    pub fn get_exact_stats(
        &self,
        stats: RSMallocStats,
        locks: LockCounters,
        transfers: Option<TransferStats>,
        calls: Option<CallCounters>,
        trims: TrimCounters,
    ) -> (r: RSMallocExactStats)
        ensures
            r.stats == stats,
            r.locks == locks,
            r.transfers == transfers,
            r.calls == calls,
            r.trimmed_blocks_small == trims.blocks,
            r.avg_madvise_cycles_small == (if trims.blocks == 0 {
                trims.cycles as int
            } else {
                trims.cycles as int / trims.blocks as int
            }),
            r.under_vs_over == ({
                let d = stats.counters.refill_under_predicts
                    - stats.counters.refill_over_predicts;
                if d > 0 {
                    d
                } else {
                    0
                }
            }),
            r.over_vs_under == ({
                let d = stats.counters.refill_over_predicts
                    - stats.counters.refill_under_predicts;
                if d > 0 {
                    d
                } else {
                    0
                }
            }),
    {
        let under: usize = stats.counters.refill_under_predicts;
        let over: usize = stats.counters.refill_over_predicts;
        RSMallocExactStats {
            stats,
            locks,
            transfers,
            calls,
            trimmed_blocks_small: trims.blocks,
            avg_madvise_cycles_small: if trims.blocks == 0 {
                trims.cycles
            } else {
                trims.cycles / trims.blocks
            },
            under_vs_over: under.saturating_sub(over),
            over_vs_under: over.saturating_sub(under),
        }
    }
}

/// How often locks were taken and waited for.
#[derive(Clone, Copy, Debug, PartialEq, Eq, Structural)]
pub struct LockCounters {
    pub total_locks: usize,
    pub total_lock_retries: usize,
    pub total_try_locks: usize,
    pub total_try_lock_misses: usize,
    pub total_spin_waits: usize,
}

/// Small blocks whose pages were given back, and the cycles that it took.
#[derive(Clone, Copy, Debug, PartialEq, Eq, Structural)]
pub struct TrimCounters {
    pub blocks: usize,
    pub cycles: usize,
}

/// How often blocks moved between processors, where that is counted.
#[derive(Clone, Copy, Debug, PartialEq, Eq, Structural)]
pub struct TransferStats {
    pub total_transfer_pop_calls: usize,
    pub total_transfer_push_calls: usize,
    pub total_transfer_steals: usize,
    pub total_transfer_retries: usize,
    pub dry_transfer_steals: usize,
}

/// How often payloads were handed out and given back, where that is counted.
#[derive(Clone, Copy, Debug, PartialEq, Eq, Structural)]
pub struct CallCounters {
    pub alloc_calls: usize,
    pub free_calls: usize,
}

/// Statistics that cost more to count.
pub struct RSMallocExactStats {
    pub stats: RSMallocStats,
    pub locks: LockCounters,
    pub transfers: Option<TransferStats>,
    pub calls: Option<CallCounters>,
    pub trimmed_blocks_small: usize,
    pub avg_madvise_cycles_small: usize,
    pub under_vs_over: usize,
    pub over_vs_under: usize,
}

/// The average over the processors that hold any of a class lies between the least and the most
/// that one of them holds, as long as the sum fits.
pub proof fn law_average_is_between(bytes: Seq<usize>)
    requires
        sum_of(bytes) <= usize::MAX,
        nonzero(bytes).len() > 0,
        nonzero(bytes).len() <= usize::MAX,
    ensures
        class_usage(bytes).min <= class_usage(bytes).avg <= class_usage(bytes).max,
{
    lemma_bounds(bytes);
    let n = nonzero(bytes).len() as int;
    let lo = least_of(nonzero(bytes)) as int;
    let hi = largest_of(nonzero(bytes)) as int;
    let sum = sum_of(bytes);
    assert(lo <= sum / n <= hi) by (nonlinear_arith)
        requires
            n > 0,
            lo * n <= sum <= hi * n,
    ;
}

proof fn lemma_bounds(bytes: Seq<usize>)
    ensures
        nonzero(bytes).len() > 0 ==> least_of(nonzero(bytes)) * nonzero(bytes).len() <= sum_of(
            bytes,
        ),
        sum_of(bytes) <= largest_of(nonzero(bytes)) * nonzero(bytes).len(),
        nonzero(bytes).len() == 0 ==> sum_of(bytes) == 0,
        sum_of(bytes) >= 0,
    decreases bytes.len(),
{
    if bytes.len() > 0 {
        let rest = bytes.drop_last();
        lemma_bounds(rest);
        let b = bytes.last() as int;
        if b != 0 {
            let s = nonzero(rest);
            assert(nonzero(bytes).drop_last() =~= s);
            let n = s.len() as int;
            let lo = least_of(s) as int;
            let hi = largest_of(s) as int;
            let lo2 = least_of(nonzero(bytes)) as int;
            let hi2 = largest_of(nonzero(bytes)) as int;
            let sum = sum_of(rest);
            assert(sum + b <= hi2 * (n + 1)) by (nonlinear_arith)
                requires
                    sum <= hi * n,
                    hi <= hi2,
                    b <= hi2,
                    n >= 0,
            ;
            if n > 0 {
                assert(lo2 * (n + 1) <= sum + b) by (nonlinear_arith)
                    requires
                        lo * n <= sum,
                        lo2 <= lo,
                        lo2 <= b,
                        n >= 0,
                ;
            } else {
                assert(lo2 * (n + 1) <= sum + b) by (nonlinear_arith)
                    requires
                        n == 0,
                        lo2 <= b,
                        sum == 0,
                ;
            }
        }
    }
}

/// The least and the largest of some numbers are among them, and no other is less or larger.
pub proof fn law_extremes(s: Seq<usize>, i: int)
    requires
        0 <= i < s.len(),
    ensures
        least_of(s) <= s[i] <= largest_of(s),
        s.contains(least_of(s)),
        s.contains(largest_of(s)),
    decreases s.len(),
{
    let rest = s.drop_last();
    assert(s[s.len() - 1] == s.last());
    if rest.len() > 0 {
        law_extremes(
            rest,
            if i < rest.len() {
                i
            } else {
                0
            },
        );
        let a = choose|a: int| 0 <= a < rest.len() && rest[a] == least_of(rest);
        let b = choose|b: int| 0 <= b < rest.len() && rest[b] == largest_of(rest);
        assert(s[a] == rest[a] && s[b] == rest[b]);
        assert(i < rest.len() ==> s[i] == rest[i]);
    } else {
        assert(least_of(rest) == usize::MAX && largest_of(rest) == 0);
        assert(s[0] == s.last());
    }
}

/// Sums are those of all numbers, in whatever parts they are added.
pub proof fn law_sums(a: Seq<usize>, b: Seq<usize>)
    ensures
        sum_of(a + b) == sum_of(a) + sum_of(b),
        forall|n: usize| #[trigger] sum_of(seq![n]) == n,
        sum_of(Seq::empty()) == 0,
    decreases b.len(),
{
    assert forall|n: usize| #[trigger] sum_of(seq![n]) == n by {
        assert(seq![n].drop_last() =~= Seq::<usize>::empty());
        assert(sum_of(Seq::<usize>::empty()) == 0);
    }
    if b.len() == 0 {
        assert(a + b =~= a);
    } else {
        law_sums(a, b.drop_last());
        assert((a + b).drop_last() =~= a + b.drop_last());
        assert((a + b).last() == b.last());
    }
}

/// The numbers that are not zero are all of those and no others, in order.
pub proof fn law_nonzero(s: Seq<usize>)
    ensures
        nonzero(s) == s.filter(|n: usize| n != 0),
    decreases s.len(),
{
    reveal(Seq::filter);
    if s.len() > 0 {
        law_nonzero(s.drop_last());
    }
}

/// What processors hold is summed up over all of them, and of a class over those that hold any.
pub proof fn law_usage(bytes: Seq<usize>)
    requires
        sum_of(bytes) <= usize::MAX,
        bytes.len() <= usize::MAX,
    ensures
        cpu_usage(bytes).total == sum_of(bytes),
        class_usage(bytes).cached == sum_of(bytes),
        cpu_usage(bytes).nonempty == bytes.filter(|n: usize| n != 0).len(),
        class_usage(bytes).active == bytes.filter(|n: usize| n != 0).len(),
        bytes.len() > 0 ==> cpu_usage(bytes).min == least_of(bytes),
        bytes.len() == 0 ==> cpu_usage(bytes).min == 0,
        cpu_usage(bytes).max == largest_of(bytes),
        class_usage(bytes).active > 0 ==> {
            &&& class_usage(bytes).min == least_of(bytes.filter(|n: usize| n != 0))
            &&& class_usage(bytes).max == largest_of(bytes.filter(|n: usize| n != 0))
            &&& class_usage(bytes).avg * class_usage(bytes).active <= sum_of(bytes)
            &&& sum_of(bytes) < (class_usage(bytes).avg + 1) * class_usage(bytes).active
        },
        class_usage(bytes).active == 0 ==> class_usage(bytes).min == 0 && class_usage(bytes).avg
            == 0,
{
    law_nonzero(bytes);
    lemma_bounds(bytes);
    lemma_nonzero_len(bytes);
    let n = nonzero(bytes).len() as int;
    let sum = sum_of(bytes);
    if n > 0 {
        vstd::arithmetic::div_mod::lemma_fundamental_div_mod(sum, n);
        vstd::arithmetic::div_mod::lemma_mod_bound(sum, n);
        let q = sum / n;
        assert(q * n <= sum < (q + 1) * n && 0 <= q <= sum) by (nonlinear_arith)
            requires
                sum == n * q + sum % n,
                0 <= sum % n < n,
                n > 0,
                sum >= 0,
        ;
    }
}

proof fn lemma_nonzero_len(s: Seq<usize>)
    ensures
        nonzero(s).len() <= s.len(),
    decreases s.len(),
{
    if s.len() > 0 {
        lemma_nonzero_len(s.drop_last());
    }
}

/// Blocks of each order have twice the bytes of those of the order before, the smallest as many as a
/// slot, and all are added up.
pub proof fn law_bytes_of_orders(blocks: Seq<usize>, order: int, n: int)
    requires
        blocks.len() == 5,
        0 <= order < 5,
        0 <= n,
    ensures
        n * crate::big_allocations::segment::block_bytes(order) <= usize::MAX ==> order_bytes(
            n,
            order,
        ) == n * crate::big_allocations::segment::block_bytes(order),
        n * crate::big_allocations::segment::block_bytes(order) > usize::MAX ==> order_bytes(
            n,
            order,
        ) == usize::MAX,
        all_order_bytes(blocks) == order_bytes(blocks[0] as int, 0) + order_bytes(
            blocks[1] as int,
            1,
        ) + order_bytes(blocks[2] as int, 2) + order_bytes(blocks[3] as int, 3) + order_bytes(
            blocks[4] as int,
            4,
        ),
        all_blocks(blocks) == sum_of(blocks),
{
    reveal_with_fuel(sum_of, 6);
}

/// What is used and what is free are all the bytes of the regions.
pub proof fn law_used_and_free(buddy: &BuddyBackendReport)
    requires
        adds_up(buddy),
        buddy.free_bytes <= buddy.total_region_bytes,
    ensures
        totals_of(buddy).used_bytes + buddy.free_bytes == buddy.total_region_bytes,
        totals_of(buddy).free_blocks == buddy.free_blocks@[0] + buddy.free_blocks@[1]
            + buddy.free_blocks@[2] + buddy.free_blocks@[3] + buddy.free_blocks@[4],
        totals_of(buddy).never_allocated_bytes == all_order_bytes(
            buddy.never_allocated_by_order@,
        ),
        totals_of(buddy).reused_bytes == all_order_bytes(buddy.reused_by_order@),
        totals_of(buddy).trimmed_bytes == all_order_bytes(buddy.trimmed_by_order@),
{
}

/// A time stamp is a tenth of a second, as far as the milliseconds fit, and numbers are kept within
/// the address space.
pub proof fn law_stamps_are_tenths(stamps: u32, n: int)
    ensures
        stamps <= 42_949_672 ==> stamps_to_millis(stamps) == 100 * stamps,
        stamps > 42_949_672 ==> stamps_to_millis(stamps) == u32::MAX,
        n <= usize::MAX ==> capped(n) == n,
        n > usize::MAX ==> capped(n) == usize::MAX,
{
}

} // verus!
