use rsmalloc::core_prim::hw::{HardwareFeature, SafeToPrefetch};
use rsmalloc::core_prim::predictor::AdaptiveBatching;
use rsmalloc::core_prim::random::{align_tag, from_le_bytes, init_align, MagicInit};
use rsmalloc::core_prim::wrappers::{SafePointer, UnsafePointer};
use rsmalloc::global_vals::{get_clock, update_high_water, CachedVa, MmapCounter, RseqResult};
use rsmalloc::inner::free::{find_original_ptr, rs_free, zero_small_payload};
use rsmalloc::inner::free::{ForeignHandling, FreeStart};
use rsmalloc::inner::malloc::{
    check_owned, fill, observed_demand, probe_prediction, record_refill_prediction,
    settle_prediction, take_one_from_batch, usable_size, usable_start, Prediction, Probe, Refill,
    RefillStep, UsableStart,
};
use rsmalloc::internals::big_meta_map::BigMetaMap;
use rsmalloc::internals::l3_main_radix::RadixTree;
use rsmalloc::{BigAllocMeta, Flags, Header, Magic, RSMallocError};

#[test]
fn batches_follow_the_demand() {
    let mut p = AdaptiveBatching::new();
    assert_eq!(p.batch(0, 50), 1);
    assert_eq!(p.batch(8, 50), 8);
    p.update_refill(8, 9, 64);
    assert_eq!(p.batch(8, 50), 12);
    p.update_refill(8, 40, 64);
    assert_eq!(p.batch(8, 50), 40);
    p.update_refill_noninline(8, 1000, 64);
    assert_eq!(p.batch(8, 500), 64);
    assert_eq!(p.batch(8, 50), 50);
    for _ in 0..3 {
        p.update_refill(8, 15, 64);
        assert_eq!(p.batch(8, 500), 64);
    }
    p.update_refill(8, 15, 64);
    assert_eq!(p.batch(8, 500), 32);
    // A demand that is not low starts the count again.
    for demand in [0, 1, 2, 16, 1, 1, 1] {
        p.update_refill(8, demand, 64);
    }
    assert_eq!(p.batch(8, 500), 32);
}

#[test]
fn words_are_drawn_until_they_differ() {
    assert_eq!(from_le_bytes(&vec![1, 2, 3]), 0x03_0201);
    let mut m = MagicInit::new(false);
    m.draw(&vec![1, 0]);
    m.draw(&vec![1, 0]);
    m.draw(&vec![2, 0]);
    assert_eq!(m.finish(), None);
    m.draw(&vec![2, 0]);
    assert_eq!(m.finish(), None);
    m.draw(&vec![1, 0]);
    assert_eq!(m.finish(), None);
    m.draw(&vec![0, 1]);
    assert_eq!(
        m.finish(),
        Some(Magic {
            main: 1,
            freed: 2,
            big: 256
        })
    );
}

#[test]
fn words_come_from_the_system() {
    let mut all = Vec::new();
    for _ in 0..3 {
        let mut m = MagicInit::new(true);
        while m.finish().is_none() {
            m.init_magic().unwrap();
        }
        let magic = m.finish().unwrap();
        assert!(magic.main != magic.freed && magic.freed != magic.big && magic.big != magic.main);
        all.push(magic.main);
    }
    assert!(all[0] != all[1] || all[1] != all[2]);
    assert_eq!(align_tag(&vec![0; 8]), None);
    assert_eq!(align_tag(&vec![1, 0, 0, 0, 0, 0, 0, 0]), Some(1));
    let tags: Vec<Option<usize>> = (0..3).map(|_| init_align().unwrap()).collect();
    assert!(tags.iter().any(|t| *t != tags[0]));
}

#[test]
fn pointers_step_over_headers() {
    let p: UnsafePointer<u64> = UnsafePointer::new(64);
    assert!(!p.is_null());
    assert_eq!(p.walk_header().cast_usize(), 72);
    assert_eq!(p.get_actual_header().cast_usize(), 56);
    assert_eq!(p.walk_header().get_actual_header().as_ptr(), 64);
    assert_eq!(p.cast::<u8>().walk_header().cast_usize(), 65);
    let s = p.apply_safe();
    assert_eq!(s.walk_header().cast_usize(), 72);
    assert_eq!(s.apply_unsafe().cast_as_ptr(), 64);
    let from_number = UnsafePointer::<u64>::from(0x1234usize);
    assert_eq!(from_number.cast_usize(), 0x1234);
    assert_eq!(u64::from(from_number), 0x1234);
    let safe = SafePointer::<u64>::from(0x5678u64);
    assert_eq!(usize::from(safe), 0x5678);
    assert!(UnsafePointer::<u64>::null().is_null());
}

#[test]
fn clocks_and_counters() {
    let clock = HardwareFeature::new_cycle_clock(100);
    assert_eq!(clock.elapsed(130), 30);
    assert_eq!(SafeToPrefetch::<u8>::new(77).to_const(), 77);
    assert_eq!(get_clock(0), 0);
    assert_eq!(get_clock(1250), 12);
    let mut max = 5;
    update_high_water(&mut max, 3);
    assert_eq!(max, 5);
    update_high_water(&mut max, 9);
    assert_eq!(max, 9);
    let mut va = CachedVa::new();
    va.add_slab_cached_va(10);
    va.add_buddy_cached_va(20);
    assert_eq!((va.slab, va.buddy), (10, 20));
    assert_eq!((va.high_slab, va.high_buddy, va.high_total), (10, 20, 30));
    let mut c = MmapCounter { calls: 0, bytes: 0 };
    c.record_mmap_call(100);
    c.record_mmap_call(11);
    assert_eq!((c.calls, c.bytes), (2, 111));
    assert!(RseqResult(1).is_success() != RseqResult(1).is_failed());
}

#[test]
fn demand_is_read_off_the_batch() {
    assert_eq!(observed_demand(10, 20, 100), 10);
    assert_eq!(observed_demand(20, 20, 100), 25);
    assert_eq!(observed_demand(2, 2, 100), 3);
    assert_eq!(observed_demand(20, 20, 20), 20);
    assert_eq!(fill(true, 20, 20, 100), Some(25));
    assert_eq!(fill(false, 0, 20, 100), None);
    assert_eq!(
        take_one_from_batch(vec![7, 8, 9]),
        (7, vec![8, 9])
    );
}

#[test]
fn predictions_are_judged() {
    assert_eq!(record_refill_prediction(1, 9, 99), Prediction::Fair);
    assert_eq!(record_refill_prediction(4, 9, 99), Prediction::Over);
    assert_eq!(record_refill_prediction(5, 9, 99), Prediction::Fair);
    assert_eq!(record_refill_prediction(9, 9, 99), Prediction::Under);
    assert_eq!(record_refill_prediction(9, 9, 9), Prediction::Fair);
    assert_eq!(
        probe_prediction(0, 9, 99, true),
        Probe::Settled(Prediction::Fair)
    );
    assert_eq!(probe_prediction(4, 9, 99, true), Probe::Ask(5));
    assert_eq!(
        probe_prediction(4, 9, 99, false),
        Probe::Settled(Prediction::Over)
    );
    assert_eq!(probe_prediction(9, 9, 99, true), Probe::Ask(1));
    assert_eq!(settle_prediction(4, 9, 4), Prediction::Over);
    assert_eq!(settle_prediction(4, 9, 5), Prediction::Fair);
    assert_eq!(settle_prediction(9, 9, 1), Prediction::Under);
}

#[test]
fn refills_try_so_many_times() {
    let mut r = Refill::new(2);
    assert_eq!(r.next(), RefillStep::Carve);
    assert_eq!(r.refill(None, 8, 99), RefillStep::Carve);
    assert_eq!(r.refill(None, 8, 99), RefillStep::PopOne);
    let mut r = Refill::new(1);
    assert_eq!(r.refill(Some(8), 8, 99), RefillStep::Take(10));
    assert_eq!(Refill::new(0).next(), RefillStep::PopOne);
}

const MAGIC: Magic = Magic {
    main: 1,
    freed: 2,
    big: 3,
};

#[test]
fn usable_sizes_count_from_the_address_on() {
    let mut map = BigMetaMap::new();
    map.insert(
        0x5000,
        BigAllocMeta {
            size: 0x9000,
            order: 16,
            buddy_region: 0,
            aligned: false,
        },
    );
    let small = Header {
        class: 2,
        magic: 1,
        life_time: 0,
        flags: Flags::Allocated,
    };
    assert_eq!(
        usable_size(map.get(0x1000), 0x1010, 0x1000, small, MAGIC, 64),
        Ok(48)
    );
    let big = Header { magic: 3, ..small };
    assert_eq!(
        usable_size(map.get(0x5000), 0x5000, 0x5000, big, MAGIC, 64),
        Ok(0x9000)
    );
    assert_eq!(
        usable_size(map.get(0x6000), 0x6000, 0x6000, big, MAGIC, 64),
        Err(RSMallocError::MemoryCorruption)
    );
}

#[test]
fn foreign_addresses_are_handled_by_policy() {
    let mut radix = RadixTree::new();
    radix.set_range(0x10_0000, 0x1_0000, true);
    assert_eq!(
        rs_free(&radix, 0, ForeignHandling::Abort),
        FreeStart::Nothing
    );
    assert_eq!(
        rs_free(&radix, 0x10_0100, ForeignHandling::Abort),
        FreeStart::Inspect
    );
    assert_eq!(
        rs_free(&radix, 0x20_0000, ForeignHandling::Abort),
        FreeStart::Abort(RSMallocError::ForeignPointer)
    );
    assert_eq!(
        rs_free(&radix, 0x20_0000, ForeignHandling::Ignore),
        FreeStart::Nothing
    );
    assert_eq!(
        rs_free(&radix, 0x20_0000, ForeignHandling::Fallback),
        FreeStart::Fallback
    );
    assert_eq!(
        find_original_ptr(&radix, 0x10_0100, 7, 6, 0x10_0080),
        Ok(0x10_0100)
    );
    assert_eq!(
        find_original_ptr(&radix, 0x10_0100, 7, 7, 0x10_0080),
        Ok(0x10_0080)
    );
    assert_eq!(
        find_original_ptr(&radix, 0x10_0100, 7, 7, 0x30_0000),
        Err(RSMallocError::AttackOrCorruption)
    );
    assert_eq!(zero_small_payload(3, 64), 64);
    assert_eq!(zero_small_payload(4, 64), 0);
    assert_eq!(
        usable_start(&radix, 0x10_0100, false),
        UsableStart::Inspect
    );
    assert_eq!(
        usable_start(&radix, 0x20_0000, false),
        UsableStart::Nothing
    );
    assert_eq!(
        usable_start(&radix, 0x20_0000, true),
        UsableStart::Fallback
    );
    assert_eq!(check_owned(&radix, 0x10_0100, true), Ok(()));
    assert_eq!(check_owned(&radix, 0x20_0000, false), Ok(()));
    assert_eq!(
        check_owned(&radix, 0x20_0000, true),
        Err(RSMallocError::AttackOrCorruption)
    );
}
