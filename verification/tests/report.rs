use rsmalloc::big_allocations::buddy::BuddyAllocator;
use rsmalloc::big_allocations::report::BuddyBackendReport;
use rsmalloc::big_allocations::segment::{SEGMENT_BYTES, SLOT_BYTES};
use rsmalloc::debug_exit_printer::{print_report, ReportInput};
use rsmalloc::frontend::global_alloc2::debug::{
    buddy_totals, bytes_of_order, bytes_of_orders, summarize_class, summarize_cpus, Counters,
    CallCounters, LockCounters, RadixReport, StatsSource, TransferStats, TrimCounters,
};
use rsmalloc::frontend::global_alloc2::rsmalloc::RSMalloc;
use rsmalloc::internals::numa_parser::NumaCpuRange;
use rsmalloc::text::{fmt_bytes, fmt_bytes_short, number, truth};

fn long(bytes: usize) -> String {
    let value = bytes as f64;
    let kib = 1024.0;
    let mib = kib * 1024.0;
    let gib = mib * 1024.0;
    let tib = gib * 1024.0;
    if value >= tib {
        format!("{:.2} TiB ({} bytes)", value / tib, bytes)
    } else if value >= gib {
        format!("{:.2} GiB ({} bytes)", value / gib, bytes)
    } else if value >= mib {
        format!("{:.2} MiB ({} bytes)", value / mib, bytes)
    } else if value >= kib {
        format!("{:.2} KiB ({} bytes)", value / kib, bytes)
    } else {
        format!("{} B ({} bytes)", bytes, bytes)
    }
}

fn short(bytes: usize) -> String {
    let value = bytes as f64;
    let kib = 1024.0;
    let mib = kib * 1024.0;
    let gib = mib * 1024.0;
    if value >= gib {
        format!("{:.1} GiB", value / gib)
    } else if value >= mib {
        format!("{:.1} MiB", value / mib)
    } else if value >= kib {
        format!("{:.1} KiB", value / kib)
    } else {
        format!("{} B", bytes)
    }
}

#[test]
fn amounts_are_rounded_as_decimal_fractions_are() {
    assert_eq!(fmt_bytes(0), "0 B (0 bytes)");
    assert_eq!(fmt_bytes(1536), "1.50 KiB (1536 bytes)");
    assert_eq!(fmt_bytes_short(1536), "1.5 KiB");
    assert_eq!(fmt_bytes_short(1023), "1023 B");
    let mut x: u64 = 0x9e37_79b9_7f4a_7c15;
    for round in 0..4000u32 {
        x ^= x << 13;
        x ^= x >> 7;
        x ^= x << 17;
        let n = (x >> (round % 64)) as usize;
        assert_eq!(fmt_bytes(n), long(n));
        assert_eq!(fmt_bytes_short(n), short(n));
    }
    for shift in 0..64 {
        let p = 1usize << shift;
        for n in [p - 1, p, p + 1, p + p / 8, p + p / 2] {
            assert_eq!(fmt_bytes(n), long(n));
            assert_eq!(fmt_bytes_short(n), short(n));
        }
    }
    assert_eq!(fmt_bytes(usize::MAX), long(usize::MAX));
    assert_eq!(number(u64::MAX), u64::MAX.to_string());
    assert_eq!(truth(true), "true");
}

fn counters() -> Counters {
    Counters {
        pid: 42,
        uptime_ms: 1234,
        mmap_calls: 5,
        mmap_bytes_requested: 1 << 20,
        arenas_lived: 2,
        arenas_removed: 1,
        arena_size: 1 << 28,
        total_refills: 100,
        refill_under_predicts: 7,
        refill_over_predicts: 3,
        rseq_aborts: 0,
        slab_cached_va: 4096,
        buddy_cached_va: 8192,
        high_water_slab_cached_va: 5000,
        high_water_buddy_cached_va: 9000,
        high_water_total_cached_va: 14000,
        numa_enabled: true,
        numa_cpus: 2,
        numa_nodes: 1,
        numa_ranges: 1,
        trim_calls: 4,
        trimmed_va: 12288,
        buddy_disabled: false,
    }
}

fn radix() -> RadixReport {
    RadixReport {
        l1_nodes: 1,
        l2_nodes: 1,
        leaves: 2,
        owned_chunks: 10,
        metadata_bytes: 77777,
    }
}

fn buddy() -> BuddyBackendReport {
    let mut b = BuddyAllocator::new();
    b.init(
        1,
        1,
        vec![0],
        false,
        false,
        0,
        Some((0x1000_0000, SEGMENT_BYTES)),
    );
    b.allocate(1, 0, 0);
    b.report()
}

#[test]
fn caches_are_summed_up() {
    let cpus = summarize_cpus(&vec![0, 30, 10]);
    assert_eq!(
        (cpus.total, cpus.max, cpus.nonempty),
        (40, 30, 2)
    );
    let class = summarize_class(&vec![0, 30, 10]);
    assert_eq!(
        (class.cached, class.active, class.min, class.max, class.avg),
        (40, 2, 10, 30, 20)
    );
    assert!(class.min <= class.avg && class.avg <= class.max);
    assert_eq!(bytes_of_order(3, 1), 3 * 2 * SLOT_BYTES);
    assert_eq!(bytes_of_orders(&[1, 0, 0, 0, 1]), 17 * SLOT_BYTES);
    let totals = buddy_totals(&buddy());
    assert_eq!(totals.used_bytes, SLOT_BYTES);
    assert_eq!(totals.free_blocks, 4);
    assert_eq!(totals.never_allocated_bytes, 15 * SLOT_BYTES);
    assert_eq!(totals.reused_bytes, 0);
}

#[test]
fn statistics_are_derived_from_counters() {
    let source = StatsSource {
        counters: counters(),
        stamp: 55,
        average_small: 12,
        average_buddy: u32::MAX,
        arena_counts: vec![2, 3],
        cpu_bytes: vec![100, 0],
        size_classes: vec![16, 32],
        refills_by_class: vec![8, 4],
        class_bytes: vec![vec![100, 0], vec![0, 0]],
        radix: radix(),
    };
    let alloc = RSMalloc::new_default();
    let s = alloc.get_stats(source, &buddy());
    assert_eq!(s.rseq_cpu_cached_bytes, vec![100, 0]);
    assert_eq!(s.size_classes, vec![16, 32]);
    assert_eq!(s.refills_by_class, vec![8, 4]);
    assert_eq!(s.buddy_report.regions, buddy().regions);
    assert_eq!(s.buddy_report.free_blocks, buddy().free_blocks);
    assert_eq!(s.buddy_report.grow_order, buddy().grow_order);
    assert_eq!(s.clock_ms, 5500);
    assert_eq!(s.total_arenas, 5);
    assert_eq!(s.total_misses, 10);
    assert_eq!(s.total_cached_va, 12288);
    assert_eq!(s.rseq_cpu_count, 2);
    assert_eq!(s.classes.len(), 2);
    assert_eq!(s.classes[0].avg, 100);
    assert_eq!(s.avg_small_life_ms, 1200);
    assert_eq!(s.avg_buddy_life_ms, u32::MAX);
    assert_eq!(s.radix_owned_bytes, 40960);
    let locks = LockCounters {
        total_locks: 1,
        total_lock_retries: 2,
        total_try_locks: 3,
        total_try_lock_misses: 4,
        total_spin_waits: 5,
    };
    let transfers = Some(TransferStats {
        total_transfer_pop_calls: 1,
        total_transfer_push_calls: 2,
        total_transfer_steals: 3,
        total_transfer_retries: 4,
        dry_transfer_steals: 5,
    });
    let calls = Some(CallCounters {
        alloc_calls: 6,
        free_calls: 7,
    });
    let e = alloc.get_exact_stats(
        s,
        locks,
        transfers,
        calls,
        TrimCounters {
            blocks: 4,
            cycles: 100,
        },
    );
    assert_eq!(e.locks, locks);
    assert_eq!((e.transfers, e.calls), (transfers, calls));
    assert_eq!(e.stats.clock_ms, 5500);
    assert_eq!(e.avg_madvise_cycles_small, 25);
    assert_eq!((e.under_vs_over, e.over_vs_under), (4, 0));
    let none = alloc.get_exact_stats(
        e.stats,
        locks,
        None,
        None,
        TrimCounters {
            blocks: 0,
            cycles: 9,
        },
    );
    assert_eq!(none.avg_madvise_cycles_small, 9);
}

#[test]
fn the_report_names_what_was_counted() {
    let input = ReportInput {
        counters: counters(),
        stamp: 55,
        node_ids: vec![0],
        cpu_ranges: vec![NumaCpuRange {
            node_id: 0,
            start_cpu: 0,
            end_cpu: 1,
        }],
        cpu_bytes: vec![100, 0],
        class_sizes: vec![16, 32],
        class_refills: vec![8, 4],
        class_bytes: vec![vec![100, 0], vec![0, 0]],
        class_hints: vec![String::from("12"), String::from("3")],
        locks: None,
        transfer: None,
        trims: None,
        average_small: 12,
        average_buddy: 34,
        radix: radix(),
        miss_percent: String::from("10.00"),
        used_percent: String::from("6.25"),
        free_percent: String::from("93.75"),
        metadata_per_chunk: String::from("7777.70"),
    };
    let text = print_report(&input, &buddy());
    assert!(text.contains("10.00"));
    assert!(text.contains("6.25"));
    assert!(text.contains("93.75"));
    assert!(text.contains(&fmt_bytes(12288)));
    assert!(text.contains(&fmt_bytes(15 * SLOT_BYTES)));
    let lines = text.lines().count();
    let more = ReportInput {
        locks: Some(LockCounters {
            total_locks: 1111,
            total_lock_retries: 2222,
            total_try_locks: 3333,
            total_try_lock_misses: 4444,
            total_spin_waits: 5555,
        }),
        ..input
    };
    let longer = print_report(&more, &buddy());
    assert!(longer.lines().count() > lines);
    assert!(longer.contains("1111") && longer.contains("5555"));
}
