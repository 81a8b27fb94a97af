use rsmalloc::big_allocations::big_allocation::{BigBlock, BigHeap, BigOutcome, BigRelease};
use rsmalloc::big_allocations::buddy::{
    lane_count, lane_for_cpu, metadata_bytes, normalize_region_size, order_for, table_bytes,
    Allocation, BuddyAllocator, BuddyOutcome, Growth, TrimContext,
};
use rsmalloc::big_allocations::region::{create_region, RegionMemory, Reserve, ReserveStep};
use rsmalloc::big_allocations::segment::{
    alloc_step, candidates, claim_step, classify, dirty_free, finish_step, free_step, grow_step,
    range_mask, slot_mask, Segment, SEGMENT_BYTES, SLOT_BYTES,
};
use rsmalloc::big_allocations::segment_trim::{trim_segment, TrimPolicy, TrimStats};
use rsmalloc::inner::free::{rs_free, ForeignHandling, FreeStart};
use rsmalloc::inner::realloc::{big_realloc, ReallocStep};
use rsmalloc::internals::lock::{LockGuard, SpinLock};
use rsmalloc::internals::mask::{lowest, run_length};
use rsmalloc::{Flags, RSMallocError};
use std::cell::RefCell;

const BASE: usize = 0x1000_0000;

#[test]
fn masks_cover_their_slots() {
    assert_eq!(range_mask(2, 3), 0b1_1100);
    assert_eq!(range_mask(0, 16), 0xffff);
    assert_eq!(range_mask(5, 0), 0);
    assert_eq!(slot_mask(4, 2), 0xf0);
    assert_eq!(slot_mask(0, 4), 0xffff);
    assert_eq!(lowest(0b1010_0000), 5);
    assert_eq!(run_length(0b0111_0100, 4), 3);
    assert_eq!(run_length(0xffff, 3), 13);
}

#[test]
fn candidates_are_the_aligned_places_with_room() {
    assert_eq!(candidates(0, 0), 0xffff);
    assert_eq!(candidates(0b1, 1), 0x5554);
    assert_eq!(candidates(0b1_0000, 2), 0x1101);
    assert_eq!(candidates(0x0100, 3), 0x0001);
    assert_eq!(candidates(0, 4), 0x0001);
    assert_eq!(candidates(0x8000, 4), 0);
}

#[test]
fn words_remember_what_slots_went_through() {
    let (start, word, flags) = alloc_step(0, 1).unwrap();
    assert_eq!((start, flags), (0, Flags::NotAllocated));
    assert!(alloc_step(word, 4).is_none());
    let freed = free_step(word, slot_mask(0, 1));
    assert_eq!(classify(freed, slot_mask(0, 1)), Flags::Allocated);
    assert_eq!(classify(freed, slot_mask(2, 1)), Flags::NotAllocated);
    assert_eq!(dirty_free(freed), 0b11);
    let claimed = claim_step(freed, 0b11).unwrap();
    assert!(claim_step(claimed, 0b11).is_none());
    assert_eq!(dirty_free(claimed), 0);
    let cleaned = finish_step(claimed, 0b11, true);
    assert_eq!(classify(cleaned, 0b11), Flags::Trimmed);
    let kept = finish_step(claimed, 0b11, false);
    assert_eq!(kept, freed);
    let grown = grow_step(word, slot_mask(0, 1), slot_mask(0, 2)).unwrap();
    assert!(grow_step(grown, slot_mask(0, 1), slot_mask(0, 2)).is_none());
}

#[test]
fn segments_hand_out_the_lowest_aligned_block() {
    let mut s = Segment::new(BASE);
    assert_eq!(s.base(), BASE);
    assert_eq!(s.allocate(0), Some((BASE, Flags::NotAllocated)));
    assert_eq!(
        s.allocate(1),
        Some((BASE + 2 * SLOT_BYTES, Flags::NotAllocated))
    );
    assert_eq!(
        s.allocate(0),
        Some((BASE + SLOT_BYTES, Flags::NotAllocated))
    );
    assert_eq!(
        s.allocate(3),
        Some((BASE + 8 * SLOT_BYTES, Flags::NotAllocated))
    );
    assert!(!s.has_room(3));
    assert_eq!(s.allocate(3), None);
    assert!(s.has_room(2));
    // Nothing can have been handed out at these.
    let before = s.snapshot();
    s.free(BASE + 1, 0, 9);
    s.free(BASE + SLOT_BYTES, 1, 9);
    s.free(BASE + SEGMENT_BYTES, 0, 9);
    s.free(BASE, 5, 9);
    assert_eq!(s.snapshot(), before);
    s.free(BASE, 0, 9);
    assert_eq!(s.age(0, 19), 10);
    assert_eq!(s.age(0, 3), 0);
    assert_eq!(s.allocate(0), Some((BASE, Flags::Allocated)));
}

#[test]
fn giving_a_block_back_undoes_handing_it_out() {
    let mut s = Segment::new(BASE);
    let (kept, _) = s.allocate(2).unwrap();
    let (addr, _) = s.allocate(1).unwrap();
    assert!(addr >= kept + 4 * SLOT_BYTES || addr + 2 * SLOT_BYTES <= kept);
    s.free(addr, 1, 1);
    assert_eq!(s.allocate(1).unwrap().0, addr);
}

#[test]
fn segments_grow_blocks_in_place() {
    let mut s = Segment::new(BASE);
    assert_eq!(s.allocate(0).unwrap().0, BASE);
    assert!(s.grow(BASE, 0));
    assert_eq!(s.allocate(0).unwrap().0, BASE + 2 * SLOT_BYTES);
    assert!(!s.grow(BASE, 1));
    assert!(!s.grow(BASE + SLOT_BYTES, 0));
    assert!(s.grow(BASE + 2 * SLOT_BYTES, 0));
    assert!(s.grow(BASE + 2 * SLOT_BYTES, 1) == false);
}

#[test]
fn trims_give_old_slots_back_in_runs() {
    let mut s = Segment::new(BASE);
    for _ in 0..4 {
        s.allocate(0).unwrap();
    }
    s.free(BASE, 0, 100);
    s.free(BASE + SLOT_BYTES, 0, 100);
    s.free(BASE + 3 * SLOT_BYTES, 0, 990);
    let asked = RefCell::new(Vec::new());
    let mut stats = TrimStats::default();
    let policy = TrimPolicy {
        now: 1000,
        average: 50,
        force: false,
        requested: 0,
    };
    trim_segment(&mut s, policy, &mut stats, &|addr: usize, bytes: usize| {
        asked.borrow_mut().push((addr, bytes));
        true
    });
    assert_eq!(asked.into_inner(), vec![(BASE, 2 * SLOT_BYTES)]);
    assert_eq!(stats.bytes, 2 * SLOT_BYTES);
    assert_eq!(stats.samples, 3);
    assert_eq!(stats.ages, 900 + 900 + 10);
    assert_eq!(stats.average(), Some(600));
    assert_eq!(s.allocate(0), Some((BASE, Flags::Trimmed)));
    assert_eq!(s.allocate(0), Some((BASE + SLOT_BYTES, Flags::Trimmed)));
    assert_eq!(
        s.allocate(0),
        Some((BASE + 3 * SLOT_BYTES, Flags::Allocated))
    );
}

#[test]
fn trims_stop_at_what_was_asked_for_and_keep_what_fails() {
    let mut s = Segment::new(BASE);
    s.allocate(2).unwrap();
    s.free(BASE, 2, 1);
    let policy = TrimPolicy {
        now: 2,
        average: 500,
        force: true,
        requested: SLOT_BYTES + 1,
    };
    let mut stats = TrimStats::default();
    trim_segment(&mut s, policy, &mut stats, &|_: usize, _: usize| false);
    assert_eq!(stats.bytes, 0);
    assert_eq!(s.allocate(2), Some((BASE, Flags::Allocated)));
    s.free(BASE, 2, 1);
    let mut stats = TrimStats::default();
    trim_segment(&mut s, policy, &mut stats, &|_: usize, _: usize| true);
    assert_eq!(stats.bytes, 2 * SLOT_BYTES);
    assert_eq!(stats.average(), Some(10));
    assert_eq!(TrimStats::default().average(), None);
}

#[test]
fn sizes_of_tables_and_regions() {
    assert_eq!(normalize_region_size(0), SEGMENT_BYTES);
    assert_eq!(normalize_region_size(SEGMENT_BYTES + 1), 2 * SEGMENT_BYTES);
    assert_eq!(normalize_region_size(3 * SEGMENT_BYTES), 4 * SEGMENT_BYTES);
    assert_eq!(normalize_region_size(usize::MAX), SEGMENT_BYTES);
    assert_eq!(lane_count(0), 1);
    assert_eq!(lane_count(8), 8);
    assert_eq!(lane_count(1000), 96);
    assert_eq!(lane_for_cpu(3, 4), 3);
    assert_eq!(lane_for_cpu(9, 4), 1);
    assert_eq!(order_for(0), 0);
    assert_eq!(order_for(SLOT_BYTES), 0);
    assert_eq!(order_for(SLOT_BYTES + 1), 1);
    assert_eq!(order_for(SEGMENT_BYTES), 4);
    assert_eq!(table_bytes(1, 1), Some(4096));
    assert_eq!(table_bytes(2, 96), Some(16384));
    assert_eq!(table_bytes(usize::MAX, 2), None);
    assert_eq!(metadata_bytes(SEGMENT_BYTES), 4096);
    assert_eq!(metadata_bytes(64 * SEGMENT_BYTES), 12288);
}

#[test]
fn averages_are_blended_as_single_precision_does() {
    let mut seed = 7u64;
    for _ in 0..2000 {
        seed = seed.wrapping_mul(6364136223846793005).wrapping_add(1442695040888963407);
        let previous = 10 + (seed >> 33) as u32 % 591;
        let ages = (seed >> 20) % 5000;
        let samples = 1 + (seed >> 50) % 9;
        let stats = TrimStats {
            bytes: 0,
            ages,
            samples,
        };
        let average = (ages / samples).clamp(10, 600);
        let blended = (0.25f32 * average as f32 + 0.75f32 * previous as f32)
            .round()
            .clamp(10.0, 600.0) as u32;
        assert_eq!(stats.finish(previous), Some(blended));
    }
    assert_eq!(TrimStats::default().finish(100), None);
    let one = TrimStats { bytes: 0, ages: 10, samples: 1 };
    assert_eq!(one.finish(u32::MAX), Some(600));
}

#[test]
fn memory_for_regions_is_looked_for_in_turn() {
    let mut payload = Reserve::reserve(0x400_0000, false, 2);
    assert_eq!(payload.next(0x1000_0000), ReserveStep::Pages);
    assert_eq!(payload.next(0x400_0000), ReserveStep::Mapping);
    assert_eq!(payload.next(0x400_0000), ReserveStep::GiveUp);
    let mut tables = Reserve::reserve(0x400_0000, true, 1);
    assert_eq!(tables.next(0), ReserveStep::Pages);
    assert_eq!(
        create_region(SEGMENT_BYTES, None, true),
        RegionMemory::Failed
    );
    assert_eq!(
        create_region(SEGMENT_BYTES, Some(BASE), false),
        RegionMemory::Unmap {
            base: BASE,
            bytes: SEGMENT_BYTES
        }
    );
    assert_eq!(
        create_region(SEGMENT_BYTES, Some(BASE), true),
        RegionMemory::Ready {
            base: BASE,
            cached: SEGMENT_BYTES + 4096
        }
    );
}

fn ready(nodes: usize, segments: usize) -> BuddyAllocator {
    let mut b = BuddyAllocator::new();
    let ids = (0..nodes as u16).collect();
    b.init(
        nodes,
        2,
        ids,
        false,
        nodes > 1,
        0,
        Some((BASE, segments * SEGMENT_BYTES)),
    );
    b
}

fn served(o: BuddyOutcome) -> Allocation {
    match o {
        BuddyOutcome::Served(b) => b,
        other => panic!("not served: {:?}", other),
    }
}

#[test]
fn without_memory_nothing_is_served() {
    let mut b = BuddyAllocator::new();
    assert_eq!(b.allocate(1, 0, 0), BuddyOutcome::Refused);
    b.init(1, 1, vec![0], false, false, 0, None);
    assert!(!b.is_ready());
    assert_eq!(b.allocate(1, 0, 0), BuddyOutcome::Refused);
    let mut b = ready(1, 1);
    assert!(b.is_ready());
    assert_eq!(b.allocate(SEGMENT_BYTES + 1, 0, 0), BuddyOutcome::Refused);
}

#[test]
fn blocks_are_large_enough_and_apart() {
    let mut b = ready(1, 2);
    let mut live: Vec<(usize, usize)> = Vec::new();
    for size in [1, SLOT_BYTES, SLOT_BYTES + 1, 5 * SLOT_BYTES, 9 * SLOT_BYTES] {
        let block = served(b.allocate(size, 0, 1));
        let bytes = 1usize << block.order;
        assert!(bytes >= size && bytes / 2 < size.max(SLOT_BYTES));
        assert_eq!(block.addr % SLOT_BYTES, 0);
        assert!(BASE <= block.addr && block.addr + bytes <= BASE + 2 * SEGMENT_BYTES);
        for &(other, len) in &live {
            assert!(block.addr + bytes <= other || other + len <= block.addr);
        }
        live.push((block.addr, bytes));
    }
}

#[test]
fn full_nodes_grow_or_are_helped_out() {
    let mut b = ready(2, 1);
    let first = served(b.allocate(SEGMENT_BYTES, 0, 0));
    assert_eq!((first.addr, first.region, first.order), (BASE, BASE, 26));
    let growth = Growth {
        node: 0,
        order: 0,
        lane: 1,
    };
    assert_eq!(b.allocate(1, 0, 3), BuddyOutcome::NeedsRegion(growth));
    assert_eq!(b.expand(growth, None), None);
    let far = BASE + 16 * SEGMENT_BYTES;
    let second = b.expand(growth, Some(far)).unwrap();
    assert_eq!((second.addr, second.order), (far, 22));
    // The other node has nothing of its own and is helped out by the first one.
    let wanted = Growth {
        node: 1,
        order: 1,
        lane: 0,
    };
    assert_eq!(
        b.allocate(2 * SLOT_BYTES, 1, 2),
        BuddyOutcome::NeedsRegion(wanted)
    );
    let third = b.expand(wanted, None).unwrap();
    assert_eq!((third.addr, third.order), (far + 2 * SLOT_BYTES, 23));
    // Nodes that do not exist count as the first one.
    assert_eq!(served(b.allocate(1, 77, 0)).addr, far + SLOT_BYTES);
}

#[test]
fn freed_blocks_come_back_and_strange_ones_do_not() {
    let mut b = ready(1, 1);
    let block = served(b.allocate(SLOT_BYTES, 0, 0));
    b.free(block.region, block.addr, 21, 5);
    b.free(block.region + 1, block.addr, block.order, 5);
    assert_eq!(served(b.allocate(1, 0, 0)).addr, BASE + SLOT_BYTES);
    b.free(block.region, block.addr, block.order, 5);
    let again = served(b.allocate(1, 0, 0));
    assert_eq!((again.addr, again.flags), (BASE, Flags::Allocated));
}

#[test]
fn blocks_double_in_place_when_their_buddy_is_free() {
    let mut b = ready(1, 1);
    let block = served(b.allocate(1, 0, 0));
    assert_eq!(
        b.try_grow_inplace(block.region, block.addr, 22),
        Some((BASE, 23))
    );
    assert_eq!(
        b.try_grow_inplace(block.region, block.addr, 23),
        Some((BASE, 24))
    );
    let other = served(b.allocate(1, 0, 0));
    assert_eq!(other.addr, BASE + 4 * SLOT_BYTES);
    assert_eq!(b.try_grow_inplace(block.region, block.addr, 24), None);
    assert_eq!(b.try_grow_inplace(BASE + 1, block.addr, 24), None);
    assert_eq!(b.try_grow_inplace(block.region, block.addr, 26), None);
}

#[test]
fn reports_count_free_blocks_by_order() {
    let mut b = ready(1, 1);
    assert!(b.is_trimmable());
    assert!(BuddyAllocator::new().is_trimmable());
    let fresh = b.report();
    assert_eq!(fresh.regions, 1);
    assert_eq!(fresh.total_region_bytes, SEGMENT_BYTES);
    assert_eq!(fresh.free_bytes, SEGMENT_BYTES);
    assert_eq!(fresh.free_blocks, [0, 0, 0, 0, 1]);
    assert_eq!(fresh.never_allocated_by_order, [0, 0, 0, 0, 1]);
    let block = served(b.allocate(1, 0, 0));
    let one = b.report();
    assert_eq!(one.free_bytes, SEGMENT_BYTES - SLOT_BYTES);
    assert_eq!(one.free_blocks, [1, 1, 1, 1, 0]);
    assert_eq!(one.never_allocated_blocks, 4);
    b.free(block.region, block.addr, block.order, 1);
    let back = b.report();
    assert_eq!(back.free_bytes, SEGMENT_BYTES);
    assert_eq!(
        back.reused_blocks + back.trimmed_blocks + back.never_allocated_blocks,
        back.free_blocks.iter().sum::<usize>()
    );
}

#[test]
fn trims_wait_for_enough_cached_memory() {
    let mut b = ready(1, 1);
    let block = served(b.allocate(1, 0, 0));
    b.free(block.region, block.addr, block.order, 0);
    let context = TrimContext {
        now: 1000,
        average: 10,
        total_cached: 5,
        buddy_cached: 5,
        small_threshold: 10,
        big_threshold: 10,
    };
    let mut lock = SpinLock::new(());
    let advise = |_: usize, _: usize| true;
    assert_eq!(b.trim_old(0, context, &mut lock, &advise).bytes, 0);
    let busy = TrimContext {
        buddy_cached: 10,
        ..context
    };
    assert_eq!(b.trim_old(0, busy, &mut lock, &advise).bytes, SLOT_BYTES);
    let block = served(b.allocate(1, 0, 0));
    assert_eq!(block.flags, Flags::Trimmed);
    b.free(block.region, block.addr, block.order, 1000);
    lock.lock_for_fork();
    assert_eq!(b.trim(0, context, &mut lock, &advise).bytes, 0);
    lock.reset_at_fork();
    assert_eq!(b.trim(0, context, &mut lock, &advise).bytes, SLOT_BYTES);
    assert!(matches!(lock.try_lock(), LockGuard::Free(_)));
}

#[test]
fn live_payloads_share_no_byte() {
    let mut h = BigHeap::new(64, false, false);
    h.buddy
        .init(1, 1, vec![0], false, false, 0, Some((BASE, SEGMENT_BYTES)));
    h.radix.set_range(BASE, SEGMENT_BYTES, true);
    let size = 0x30_0000;
    let mut live: Vec<usize> = Vec::new();
    for _ in 0..16 {
        match h.big_malloc(size, false, 0, 0) {
            BigOutcome::Ready(BigBlock { payload, flags }) => {
                assert_eq!(flags, Flags::BigAlloc);
                live.push(payload);
            }
            other => panic!("{:?}", other),
        }
    }
    let growth = match h.big_malloc(size, false, 0, 0) {
        BigOutcome::NeedsRegion(g) => g,
        other => panic!("{:?}", other),
    };
    let far = BASE + 4 * SEGMENT_BYTES;
    match h.big_malloc_region(size, false, growth, Some(far)) {
        BigOutcome::Ready(block) => live.push(block.payload),
        other => panic!("{:?}", other),
    }
    let mapped = h.big_malloc_mapped(0x500_0000, false, 0x5000_0000);
    assert_eq!(mapped.payload, 0x5000_0040);
    for (i, &a) in live.iter().enumerate() {
        for &b in &live[i + 1..] {
            assert!(a + SLOT_BYTES <= b || b + SLOT_BYTES <= a);
        }
    }
    // All of them are recognized when they come back.
    for &p in live.iter().chain([mapped.payload].iter()) {
        assert_eq!(
            rs_free(&h.radix, p, ForeignHandling::Abort),
            FreeStart::Inspect
        );
    }
    assert!(matches!(h.big_free(mapped.payload, 1), BigRelease::Unmap(_)));
    assert_eq!(
        rs_free(&h.radix, mapped.payload, ForeignHandling::Abort),
        FreeStart::Abort(RSMallocError::ForeignPointer)
    );
    // One that goes makes room for its neighbour to grow, and for that one alone.
    assert_eq!(h.big_free(live[1], 7), BigRelease::Pooled);
    assert_eq!(
        big_realloc(&mut h, live[0], 0x60_0000, false),
        ReallocStep::Done(live[0])
    );
    assert!(matches!(
        big_realloc(&mut h, live[2], 0x60_0000, false),
        ReallocStep::Relocate(_)
    ));
    assert_eq!(h.big_free(live[1], 8), BigRelease::Corrupt);
}

#[test]
fn a_limited_trim_takes_the_lowest_slots() {
    let base = 1usize << 30;
    let mut seg = Segment::new(base);
    assert!(seg.allocate(2).is_some());
    seg.free(base, 2, 0);
    let calls = RefCell::new(Vec::new());
    let advise = |addr: usize, bytes: usize| {
        calls.borrow_mut().push((addr, bytes));
        true
    };
    let mut stats = TrimStats::default();
    let policy = TrimPolicy {
        now: 0,
        average: 100,
        force: true,
        requested: (1 << 22) + 1,
    };
    trim_segment(&mut seg, policy, &mut stats, &advise);
    assert_eq!(*calls.borrow(), vec![(base, 2 << 22)]);
    assert_eq!((stats.bytes, stats.samples, stats.ages), (2 << 22, 4, 0));
    assert_eq!(seg.snapshot() as u16, 0);
    assert_eq!(dirty_free(seg.snapshot()), 0b1100);
}

#[test]
fn a_failed_chunk_does_not_count() {
    let base = 1usize << 30;
    let mut seg = Segment::new(base);
    assert!(seg.allocate(2).is_some());
    seg.free(base, 2, 0);
    let calls = RefCell::new(Vec::new());
    let advise = |addr: usize, bytes: usize| {
        calls.borrow_mut().push((addr, bytes));
        addr != base
    };
    let mut stats = TrimStats::default();
    let policy = TrimPolicy {
        now: 200,
        average: 100,
        force: false,
        requested: 1,
    };
    trim_segment(&mut seg, policy, &mut stats, &advise);
    assert_eq!(
        *calls.borrow(),
        vec![(base, 1 << 22), (base + (1 << 22), 1 << 22)]
    );
    assert_eq!((stats.bytes, stats.samples, stats.ages), (1 << 22, 4, 800));
    assert_eq!(dirty_free(seg.snapshot()), 0b1101);
}

#[test]
fn fresh_allocators_have_nothing_to_give() {
    let mut b = BuddyAllocator::new();
    assert!(matches!(b.allocate(1, 0, 0), BuddyOutcome::Refused));
    let mut lock = SpinLock::new(());
    let context = TrimContext {
        now: 9,
        average: 0,
        total_cached: 1,
        buddy_cached: 1,
        small_threshold: 0,
        big_threshold: 0,
    };
    let advise = |_: usize, _: usize| true;
    assert_eq!(b.trim(5, context, &mut lock, &advise).bytes, 0);
    assert_eq!(b.trim_old(5, context, &mut lock, &advise).bytes, 0);
}
