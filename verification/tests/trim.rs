use rsmalloc::backend::trim::{
    average_time, check_memory_pressure, memory_pressure, release_range, scan_list, Block,
    MemoryInfo, Relief, SlabTrim, TrimGuard, Trimmer,
};
use rsmalloc::Flags;
use std::cell::RefCell;

fn block(addr: usize, life_time: u32, flags: Flags) -> Block {
    Block {
        addr,
        life_time,
        flags,
    }
}

#[test]
fn lists_are_split_into_old_blocks_and_batches() {
    let mut list = Vec::new();
    for i in 0..20 {
        list.push(block(i, 95, Flags::Allocated));
    }
    list.push(block(100, 10, Flags::Allocated));
    list.push(block(101, 10, Flags::Trimmed));
    let scan = scan_list(&list, 100, 50, false);
    assert_eq!(scan.old, vec![block(100, 10, Flags::Allocated)]);
    assert_eq!(scan.batches.len(), 2);
    assert_eq!(scan.batches[0].len(), 16);
    // Each batch comes the other way round.
    assert_eq!(scan.batches[0][0].addr, 15);
    assert_eq!(scan.batches[0][15].addr, 0);
    assert_eq!(scan.batches[1][0].addr, 101);
    assert_eq!(scan.batches[1][4].addr, 16);
    let blocks: usize = scan.batches.iter().map(|b| b.len()).sum();
    assert_eq!(blocks + scan.old.len(), list.len());
    // Twenty blocks for five, two for ninety.
    assert_eq!(scan.time, Some((20 * 5 + 2 * 90) / 22));
}

#[test]
fn times_are_learnt_within_limits() {
    assert_eq!(scan_list(&Vec::new(), 100, 50, false).time, Some(100));
    assert_eq!(scan_list(&Vec::new(), 100, 50, true).time, None);
    let unknown = vec![block(1, 0, Flags::Allocated)];
    assert_eq!(scan_list(&unknown, 100, 500, false).time, None);
    let fresh = vec![block(1, 100, Flags::Allocated)];
    assert_eq!(scan_list(&fresh, 100, 500, false).time, Some(1));
    let ancient = vec![block(1, 1, Flags::Allocated)];
    assert_eq!(scan_list(&ancient, 5000, 9000, false).time, Some(100));
    assert_eq!(average_time(&vec![10, 20, 31]), Some(20));
    assert_eq!(average_time(&vec![]), None);
}

#[test]
fn only_whole_pages_inside_a_payload_are_released() {
    assert_eq!(release_range(0x1000, 0x20, 0x3000), Some((0x2000, 0x2000)));
    assert_eq!(release_range(0x1fe0, 0x20, 0x1000), Some((0x2000, 0x1000)));
    assert_eq!(release_range(0x1000, 0x20, 0x1fdf), None);
    assert_eq!(release_range(0x1000, 0x20, 0x10), None);
}

#[test]
fn walks_visit_every_list_once() {
    assert!(SlabTrim::trim_small(9, 10, true, 0, 2, 3, 5).is_none());
    assert!(SlabTrim::trim_small(10, 10, false, 0, 2, 3, 5).is_none());
    let mut t = SlabTrim::trim_small(10, 10, true, 0, 2, 3, 5).unwrap();
    let mut seen = Vec::new();
    while let Some(pair) = t.next() {
        seen.push(pair);
    }
    let mut sorted = seen.clone();
    sorted.sort();
    assert_eq!(sorted, vec![(0, 3), (0, 4), (1, 3), (1, 4)]);
    assert_eq!(t.next(), None);
}

#[test]
fn walks_release_until_enough_was_given_back() {
    let size = 0x2000;
    let mut t = SlabTrim::trim_small(10, 10, true, size, 1, 0, 1).unwrap();
    let old = vec![
        block(0x1_0fe0, 5, Flags::Allocated),
        block(0x2_0fe0, 5, Flags::Allocated),
        block(0x3_0fe0, 5, Flags::Allocated),
    ];
    let asked = RefCell::new(Vec::new());
    let done = t.release_list(&old, 0x20, size, 77, &|addr: usize, len: usize| {
        asked.borrow_mut().push((addr, len));
        asked.borrow().len() > 1
    });
    assert_eq!(
        asked.into_inner(),
        vec![(0x3_1000, 0x2000), (0x2_1000, 0x2000)]
    );
    assert_eq!(t.trimmed, size);
    let left: Vec<(usize, bool, Flags, u32)> = done
        .iter()
        .map(|d| (d.block.addr, d.trimmed, d.block.flags, d.block.life_time))
        .collect();
    assert_eq!(
        left,
        vec![
            (0x3_0fe0, false, Flags::Allocated, 77),
            (0x2_0fe0, true, Flags::Trimmed, 77),
            (0x1_0fe0, false, Flags::Allocated, 77),
        ]
    );
}

#[test]
fn pressure_is_the_share_in_use() {
    let info = MemoryInfo {
        unit: 4096,
        total_ram: 900,
        free_ram: 100,
        total_swap: 100,
        free_swap: 50,
    };
    assert_eq!(memory_pressure(info), 85);
    assert_eq!(
        memory_pressure(MemoryInfo {
            free_ram: 2000,
            ..info
        }),
        0
    );
    assert_eq!(memory_pressure(MemoryInfo { unit: 0, ..info }), 50);
    assert!(check_memory_pressure() <= 100);
}

#[test]
fn the_system_has_memory_and_some_of_it_is_in_use() {
    // Neither nothing nor everything, which is what made-up numbers would give.
    let p = check_memory_pressure();
    assert!(p < 100);
}

#[test]
fn relief_ends_after_two_low_readings() {
    let mut r = Relief::new(85, 80);
    assert!(!r.relief_paths(84));
    assert!(!r.disabled);
    assert!(r.relief_paths(85));
    assert!(r.disabled);
    assert!(!r.relief_paths(99));
    assert!(!r.relief_paths(80));
    assert!(r.disabled);
    assert!(!r.relief_paths(81));
    assert!(!r.relief_paths(10));
    assert!(r.disabled);
    assert!(!r.relief_paths(10));
    assert!(!r.disabled);
}

#[test]
fn relief_is_looked_at_every_third_tick() {
    let mut t = Trimmer::new();
    let due: Vec<bool> = (0..7).map(|_| t.tick(false)).collect();
    assert_eq!(due.iter().filter(|d| **d).count(), 2);
    let mut t = Trimmer::new();
    assert!((0..7).all(|_| !t.tick(true)));
}

#[test]
fn trims_are_due_after_the_average_time() {
    let mut t = Trimmer::new();
    t.latest = 100;
    // No sooner than after thirty stamps.
    assert!(!t.trim_due(130, 20, false));
    assert_eq!(t.latest, 100);
    assert!(t.trim_due(131, 20, false));
    assert_eq!(t.latest, 131);
    assert!(!t.trim_due(181, 50, false));
    assert!(t.trim_due(182, 50, false));
    assert!(!t.trim_due(900, 20, true));
}

#[test]
fn the_trimmer_is_started_once() {
    let mut g = TrimGuard { started: false };
    assert!(!g.maybe_start_trimmer(9, 10));
    assert!(g.maybe_start_trimmer(10, 10));
    assert!(!g.maybe_start_trimmer(10, 10));
    g.start_failed();
    assert!(g.maybe_start_trimmer(10, 10));
}
