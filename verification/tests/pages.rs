use rsmalloc::backend::page_allocator::{
    arena_request, fits_within_guard_segment, guard_align, guard_page_in_range, skip_guard_page,
    ArenaLimits, GuardPolicy, PageAllocator, PageOutcome,
};
use rsmalloc::big_allocation::{
    estimate_and_align_2mb, BigEnd, BigFreeBlock, BigFreeCache, BigStart, MappedHeap,
};
use rsmalloc::big_allocations::big_allocation;
use rsmalloc::internals::binder::{bind_node, node_mask_word, prefer_node};
use rsmalloc::internals::l3_main_radix::{Radix, RadixTree};
use rsmalloc::internals::lock::{LockGuard, LockState, SpinLock};
use rsmalloc::internals::once::{Caller, Once};
use rsmalloc::utility::{align_to, checked_align_to, checked_next_power_of_two, order_of};

#[test]
fn guard_pages_end_every_stretch() {
    assert_eq!(guard_align(GuardPolicy::Off), 0);
    assert_eq!(guard_align(GuardPolicy::PerHugePage), 0x20_0000);
    assert_eq!(guard_align(GuardPolicy::Dense), 0x1_0000);
    assert_eq!(
        guard_page_in_range(GuardPolicy::Dense, 0x1_0000, 0xf000),
        None
    );
    assert_eq!(
        guard_page_in_range(GuardPolicy::Dense, 0x1_0000, 0xf001),
        Some(0x1_f000)
    );
    assert_eq!(
        guard_page_in_range(GuardPolicy::Dense, 0x1_f800, 0x1_0000),
        Some(0x2_f000)
    );
    assert_eq!(
        guard_page_in_range(GuardPolicy::Off, 0x1_0000, 0x10_0000),
        None
    );
    assert!(fits_within_guard_segment(GuardPolicy::Dense, 0xf000));
    assert!(!fits_within_guard_segment(GuardPolicy::Dense, 0xf001));
    assert_eq!(
        skip_guard_page(GuardPolicy::Dense, 0x1_f000, 0x10_0000),
        (0x2_0000, true)
    );
    assert_eq!(
        skip_guard_page(GuardPolicy::Dense, 0x1_f000, 0x1_f000),
        (0x1_f000, false)
    );
}

const PLAIN: ArenaLimits = ArenaLimits {
    policy: GuardPolicy::Off,
    min_refill: 0x4000,
    arena_size: 0x1_0000,
};

#[test]
fn arenas_are_asked_for_in_whole_pages() {
    let r = arena_request(PLAIN, 2, 5).unwrap();
    assert_eq!((r.node, r.size), (2, 5));
    assert_eq!((r.data_size, r.map_size), (0x1_0000, 0x1_1000));
    let guarded = ArenaLimits {
        policy: GuardPolicy::Dense,
        ..PLAIN
    };
    let r = arena_request(guarded, 0, 0x1_0001).unwrap();
    assert_eq!((r.data_size, r.map_size), (0x1_2000, 0x1_3000));
    assert_eq!(arena_request(PLAIN, 0, usize::MAX), None);
}

#[test]
fn pages_come_from_arenas_one_behind_the_other() {
    let mut p = PageAllocator::new();
    p.init(2);
    let request = match p.allocate(PLAIN, 0, 1).0 {
        PageOutcome::NeedsArena(r) => r,
        other => panic!("{:?}", other),
    };
    let mem = 0x100_0000;
    let (first, guards) = p.add_arena(PLAIN, request, mem);
    let first = first.unwrap();
    assert!(guards.is_empty());
    assert!(mem <= first && first + 0x1000 <= mem + request.map_size);
    assert_eq!(p.arena_counts(), vec![1, 0]);
    assert_eq!(
        p.allocate(PLAIN, 0, 0x1001).0,
        PageOutcome::Served(first + 0x1000)
    );
    // The last allocation grows, the one before it does not.
    assert!(p.try_grow_inplace(PLAIN, 0, first + 0x1000, 0x2000, 0x3000));
    assert!(!p.try_grow_inplace(PLAIN, 0, first, 0x1000, 0x2000));
    assert_eq!(
        p.allocate(PLAIN, 0, 1).0,
        PageOutcome::Served(first + 0x4000)
    );
    assert_eq!(p.allocate(PLAIN, 0, usize::MAX).0, PageOutcome::Refused);
    p.lock_all_for_fork();
    p.reset_locks_on_fork();
    assert!(matches!(
        p.allocate(PLAIN, 1, 1).0,
        PageOutcome::NeedsArena(_)
    ));
}

#[test]
fn guarded_pages_lie_between_guards() {
    let limits = ArenaLimits {
        policy: GuardPolicy::Dense,
        min_refill: 0x4000,
        arena_size: 0x4_0000,
    };
    let mut p = PageAllocator::new();
    p.init(1);
    let request = match p.allocate(limits, 0, 0x8000).0 {
        PageOutcome::NeedsArena(r) => r,
        other => panic!("{:?}", other),
    };
    let (first, mut guards) = p.add_arena(limits, request, 0x100_0000);
    let mut served = vec![first.unwrap()];
    while let (PageOutcome::Served(at), more) = p.allocate(limits, 0, 0x8000) {
        served.push(at);
        guards.extend(more);
    }
    assert!(served.len() > 2);
    for &at in &served {
        assert_eq!(guard_page_in_range(GuardPolicy::Dense, at, 0x8000), None);
    }
    for &g in &guards {
        assert_eq!(g % 0x1_0000, 0xf000);
        for &at in &served {
            assert!(g + 0x1000 <= at || at + 0x8000 <= g);
        }
    }
}

#[test]
fn mappings_are_rounded_to_huge_pages_when_that_is_cheap() {
    assert_eq!(estimate_and_align_2mb(1), 4096);
    assert_eq!(estimate_and_align_2mb(0x20_0000 - 0x1000), 0x20_0000);
    assert_eq!(estimate_and_align_2mb(0x20_0000 - 0x8_0000), 0x18_0000);
    assert_eq!(big_allocation::estimate_and_align_2mb(4097, true), 8192);
    assert_eq!(
        big_allocation::estimate_and_align_2mb(0x20_0000 - 0x1000, true),
        0x1f_f000
    );
}

#[test]
fn freed_mappings_are_cut_and_kept() {
    let mut c = BigFreeCache::new();
    assert_eq!(c.take(1), None);
    assert_eq!(
        c.put(BigFreeBlock {
            ptr: 0x10_0000,
            total_size: 0x4000
        }),
        None
    );
    assert_eq!(c.take(0x5000), None);
    assert_eq!(c.take(0x1000), Some(0x10_0000));
    assert_eq!(c.take(0x3000), Some(0x10_1000));
    assert_eq!(c.take(0x1000), None);
    for i in 0..16 {
        c.put(BigFreeBlock {
            ptr: 0x100_0000 * (i + 1),
            total_size: 0x1000,
        });
    }
    let evicted = c.put(BigFreeBlock {
        ptr: 0x9_0000_0000,
        total_size: 0x2000,
    });
    assert!(evicted.is_some());
    let (blocks, bytes) = c.drain();
    assert_eq!(blocks.len(), 16);
    assert_eq!(bytes, blocks.iter().map(|b| b.total_size).sum::<usize>());
    assert_eq!(c.drain(), (Vec::new(), 0));
}

#[test]
fn mapped_payloads_are_reused_after_they_were_freed() {
    let mut h = MappedHeap::new(64);
    let total = match h.big_malloc(0x10_0000) {
        BigStart::NeedsMapping(total) => total,
        other => panic!("{:?}", other),
    };
    assert_eq!(total, 0x10_1000);
    let payload = h.big_malloc_mapped(0x10_0000, 0x4000_0000);
    assert_eq!(payload, 0x4000_0040);
    assert_eq!(h.big_free(0x4000_0041), BigEnd::Corrupt);
    assert_eq!(h.big_free(payload), BigEnd::Cached);
    assert_eq!(h.big_free(payload), BigEnd::Corrupt);
    assert_eq!(h.big_malloc(0x10_0000), BigStart::Payload(payload));
    assert_eq!(h.big_free(payload), BigEnd::Cached);
    assert_eq!(
        h.trim_big_allocations(),
        (
            vec![BigFreeBlock {
                ptr: 0x4000_0000,
                total_size: total
            }],
            total
        )
    );
    assert_eq!(h.big_malloc(0x10_0000), BigStart::NeedsMapping(total));
}

#[test]
fn very_large_mappings_go_back_to_the_system() {
    let mut h = MappedHeap::new(64);
    let size = 0x2000_0000;
    let total = match h.big_malloc(size) {
        BigStart::NeedsMapping(total) => total,
        other => panic!("{:?}", other),
    };
    let payload = h.big_malloc_mapped(size, 0x1_0000_0000);
    assert_eq!(
        h.big_free(payload),
        BigEnd::Unmap(BigFreeBlock {
            ptr: 0x1_0000_0000,
            total_size: total
        })
    );
}

#[test]
fn pages_are_owned_by_address() {
    let mut t = RadixTree::new();
    assert!(!t.is_owned(0x7000_0000_0000));
    t.set_range(0x7000_0000_0800, 0x1000, true);
    assert!(t.is_owned(0x7000_0000_0000));
    assert!(t.is_owned(0x7000_0000_1fff));
    assert!(!t.is_owned(0x7000_0000_2000));
    assert!(!t.is_owned(0x6fff_ffff_ffff));
    t.set_range(0x7000_0000_0000, 0x1000, false);
    assert!(!t.is_owned(0x7000_0000_0800));
    assert!(t.is_owned(0x7000_0000_1000));
    t.set_single_big(0x1234_5678, true);
    assert!(t.is_owned(0x1234_5000));
    assert!(!t.is_owned(0x1234_6000));
    t.set_range(0x5000, 0, true);
    assert!(!t.is_owned(0x5000));
    t.set_single_big(usize::MAX, true);
    assert!(!t.is_owned(usize::MAX));
    assert!(!RadixTree::new_const().is_owned(0x1000));
    assert_eq!(
        Radix::split(0x123_4567_89ab),
        (0x12, 0x345, 0x678, 0x9ab)
    );
}

#[test]
fn locks_open_and_close() {
    let mut lock = SpinLock::new(5);
    assert_eq!(lock.get_lock(), LockState::Free);
    match lock.try_lock() {
        LockGuard::Free(mut guard) => {
            *guard.deref_mut() = 6;
            guard.release();
        }
        LockGuard::Locked => panic!(),
    }
    let guard = lock.lock();
    assert_eq!(*guard.deref(), 6);
    guard.release();
    lock.lock_for_fork();
    assert_eq!(lock.get_lock(), LockState::Locked);
    assert!(matches!(lock.try_lock(), LockGuard::Locked));
    lock.reset_at_fork();
    assert_eq!(lock.get_lock(), LockState::Free);
}

#[test]
fn set_up_runs_once() {
    let mut once = Once::new();
    let mut runs = 0;
    once.call_once(|| runs += 1);
    once.call_once(|| runs += 10);
    assert_eq!(runs, 1);
    once.reset_at_fork_oncelock();
    assert!(once.begin());
    assert!(!once.begin());
    once.finish();
    assert!(!once.begin());
}

#[test]
fn of_two_callers_one_runs_and_both_wait_for_it() {
    let mut once = Once::new();
    let mut first = once.advance(Caller::Calling);
    let mut second = once.advance(Caller::Calling);
    assert_eq!((first, second), (Caller::Claiming, Caller::Claiming));
    second = once.advance(second);
    first = once.advance(first);
    assert_eq!((first, second), (Caller::Waiting, Caller::Running));
    first = once.advance(first);
    assert_eq!(first, Caller::Waiting);
    second = once.advance(second);
    assert_eq!(second, Caller::Waiting);
    assert_eq!(once.advance(first), Caller::Returned);
    assert_eq!(once.advance(second), Caller::Returned);
    assert_eq!(once.advance(Caller::Calling), Caller::Returned);
}

#[test]
fn nodes_are_bound_by_their_bit() {
    assert_eq!(node_mask_word(3), 8);
    let prefer = prefer_node(3).unwrap();
    assert_eq!((prefer.mode, prefer.mask, prefer.maxnode, prefer.flags), (1, 8, 4, 0x8000));
    let bind = bind_node(0).unwrap();
    assert_eq!((bind.mode, bind.mask, bind.maxnode, bind.flags), (2, 1, 1, 0x8000));
    assert_eq!(prefer_node(usize::BITS as u16), None);
    assert_eq!(bind_node(usize::BITS as u16), None);
}

#[test]
fn sizes_are_rounded() {
    assert_eq!(align_to(4097, 4096), 8192);
    assert_eq!(align_to(0, 4096), 0);
    assert_eq!(checked_align_to(10, 8), Some(16));
    assert_eq!(checked_align_to(usize::MAX, 8), None);
    assert_eq!(order_of(0), 0);
    assert_eq!(order_of(4096), 12);
    assert_eq!(order_of(4097), 13);
    assert_eq!(checked_next_power_of_two(5), Some(8));
    assert_eq!(checked_next_power_of_two(usize::MAX), None);
}
