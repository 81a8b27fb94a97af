use rsmalloc::big_allocations::big_allocation::{BigHeap, BigOutcome, BigRelease};
use rsmalloc::big_allocations::buddy::BuddyOutcome;
use rsmalloc::inner::align::{
    memalign_inner, place_aligned, posix_align_inner, AlignStart, NATURAL_ALIGNMENT,
};
use rsmalloc::inner::calloc::{calloc_size, rs_calloc};
use rsmalloc::inner::free::{
    find_original_ptr, free_block, rs_free, ForeignHandling, FreeEnd, FreeStart,
};
use rsmalloc::inner::malloc::rs_alloc;
use rsmalloc::inner::realloc::{
    big_realloc, big_remapped, kept_alignment, realloc_route, realloc_shifted, rs_realloc,
    small_realloc, small_remapped, Class, Effect, Move, ReallocStart, ReallocStep, Route,
};
use rsmalloc::{Flags, Header, Magic, RSMallocError, OFFSET_SIZE, TAG_SIZE};
use std::collections::HashMap;

const BASE: usize = 0x4000_0000;
const SPACE: usize = 0x80_0000;
const HEADER: usize = 32;
const ALIGN_TAG: usize = 0x5253_4d41_4c49_474e;
const MAGIC: Magic = Magic {
    main: 0x5352,
    freed: 0x4d52,
    big: 0x4252,
};
const CLASSES: [usize; 12] = [
    16, 32, 64, 80, 96, 128, 256, 512, 1024, 2048, 0x2_8000, 0x4_0000,
];

/// Memory with an allocator on it.
struct Sim {
    memory: Vec<u8>,
    headers: HashMap<usize, Header>,
    next: usize,
    heap: BigHeap,
    freed: Vec<usize>,
}

impl Sim {
    fn new() -> Self {
        let mut heap = BigHeap::new(HEADER, false, true);
        heap.radix.set_range(BASE, SPACE, true);
        Sim {
            memory: vec![0xEE; SPACE],
            headers: HashMap::new(),
            next: BASE,
            heap,
            freed: Vec::new(),
        }
    }

    fn take(&mut self, size: usize, page: bool) -> usize {
        if page {
            self.next = (self.next + 4095) / 4096 * 4096;
        }
        let at = self.next;
        match at.checked_add(size) {
            Some(end) if end <= BASE + SPACE => {
                self.next = (end + 15) / 16 * 16;
                at
            }
            _ => 0,
        }
    }

    fn class_of(size: usize) -> Option<Class> {
        CLASSES
            .iter()
            .position(|c| size <= *c)
            .map(|index| Class {
                index,
                size: CLASSES[index],
            })
    }

    fn alloc_big(&mut self, size: usize, aligned: bool) -> usize {
        let request = match self.heap.big_malloc(size, aligned, 0, 0) {
            BigOutcome::NeedsMapping(request) => request,
            BigOutcome::Failed => return 0,
            _ => unreachable!(),
        };
        let base = self.take(request.total, true);
        if base == 0 {
            return 0;
        }
        let block = self.heap.big_malloc_mapped(size, aligned, base);
        self.headers.insert(
            base,
            Header {
                class: 100,
                magic: MAGIC.big,
                life_time: 0,
                flags: block.flags,
            },
        );
        block.payload
    }

    fn get(&mut self, size: usize) -> usize {
        let class = match Sim::class_of(size) {
            Some(class) => class,
            None => return self.alloc_big(size, false),
        };
        let block = self.take(HEADER + class.size, class.size > 0x2_0000);
        let mut header = Header {
            class: class.index as u8,
            magic: 0,
            life_time: 0,
            flags: Flags::NotAllocated,
        };
        let payload =
            rs_alloc(&self.heap.radix, block, &mut header, HEADER, MAGIC, true).unwrap();
        if payload != 0 {
            self.headers.insert(block, header);
        }
        payload
    }

    fn memalign(&mut self, alignment: usize, size: usize) -> usize {
        let total = match memalign_inner(alignment, size, false) {
            AlignStart::Allocate(total) => total,
            AlignStart::Failed(_) => return 0,
        };
        let raw = self.get(total);
        let placed = match place_aligned(raw, alignment) {
            Ok(placed) => placed,
            Err(_) => return 0,
        };
        self.write_word(placed.tag_at, ALIGN_TAG);
        self.write_word(placed.original_at, placed.original);
        placed.aligned
    }

    fn write_word(&mut self, at: usize, word: usize) {
        let i = at - BASE;
        self.memory[i..i + 8].copy_from_slice(&word.to_le_bytes());
    }

    fn read_word(&self, at: usize) -> usize {
        let i = at - BASE;
        let mut bytes = [0u8; 8];
        bytes.copy_from_slice(&self.memory[i..i + 8]);
        usize::from_le_bytes(bytes)
    }

    fn original(&self, ptr: usize) -> usize {
        let tag = self.read_word(ptr - TAG_SIZE);
        let recovered = self.read_word(ptr - OFFSET_SIZE);
        find_original_ptr(&self.heap.radix, ptr, ALIGN_TAG, tag, recovered).unwrap()
    }

    fn free(&mut self, ptr: usize) {
        match rs_free(&self.heap.radix, ptr, ForeignHandling::Abort) {
            FreeStart::Nothing => return,
            FreeStart::Inspect => {}
            _ => panic!("foreign"),
        }
        let original = self.original(ptr);
        let header = self.headers.get_mut(&(original - HEADER)).unwrap();
        match free_block(header, MAGIC, 5, true) {
            FreeEnd::Push(_) => {}
            FreeEnd::Big => {
                assert!(matches!(
                    self.heap.big_free(original, 5),
                    BigRelease::Unmap(_)
                ));
                self.headers.remove(&(original - HEADER));
                // The pages of the arena stay with the allocator.
                self.heap.radix.set_range(BASE, SPACE, true);
            }
            _ => panic!("not freed"),
        }
        self.freed.push(ptr);
    }

    fn usable(&self, ptr: usize) -> usize {
        let original = self.original(ptr);
        let header = self.headers[&(original - HEADER)];
        let size = if header.magic == MAGIC.big {
            self.heap.map.get(original).unwrap().size
        } else {
            CLASSES[header.class as usize]
        };
        size - (ptr - original)
    }

    fn relocate(&mut self, m: Move) -> usize {
        let new = if m.align > NATURAL_ALIGNMENT {
            self.memalign(m.align, m.size)
        } else if m.big {
            self.alloc_big(m.size, false)
        } else {
            self.get(m.size)
        };
        for effect in m.effects(new) {
            match effect {
                Effect::Copy { from, to, bytes } => {
                    let (f, t) = (from - BASE, to - BASE);
                    let copied = self.memory[f..f + bytes].to_vec();
                    self.memory[t..t + bytes].copy_from_slice(&copied);
                }
                Effect::Free(p) => self.free(p),
            }
        }
        new
    }

    fn remap(&mut self, base: usize, old_total: usize, new_total: usize) -> Option<usize> {
        let new = self.take(new_total, true);
        if new == 0 {
            return None;
        }
        let n = old_total.min(new_total).min(BASE + SPACE - base);
        let copied = self.memory[base - BASE..base - BASE + n].to_vec();
        self.memory[new - BASE..new - BASE + n].copy_from_slice(&copied);
        let header = self.headers.remove(&base).unwrap();
        self.headers.insert(new, header);
        Some(new)
    }

    fn realloc(&mut self, ptr: usize, new_size: usize) -> usize {
        match rs_realloc(&self.heap.radix, ptr, new_size) {
            ReallocStart::Allocate(size) => return self.get(size),
            ReallocStart::Free => {
                self.free(ptr);
                return 0;
            }
            ReallocStart::Foreign => return 0,
            ReallocStart::Inspect => {}
        }
        let original = self.original(ptr);
        let header = self.headers[&(original - HEADER)];
        let class = Sim::class_of(new_size);
        let mut step = match realloc_route(ptr, original, header.magic == MAGIC.big, None) {
            Route::Shifted => {
                let alignment = kept_alignment(ptr, self.usable(original), None);
                realloc_shifted(ptr, self.usable(ptr), new_size, alignment)
            }
            Route::Big => big_realloc(&mut self.heap, ptr, new_size, class.is_some()),
            Route::Small => {
                let old = Class {
                    index: header.class as usize,
                    size: CLASSES[header.class as usize],
                };
                small_realloc(ptr, HEADER, old, new_size, class)
            }
        };
        loop {
            match step {
                ReallocStep::Done(p) => return p,
                ReallocStep::Reclassed { ptr, class } => {
                    self.headers.get_mut(&(ptr - HEADER)).unwrap().class = class as u8;
                    return ptr;
                }
                ReallocStep::Relocate(m) => return self.relocate(m),
                ReallocStep::Remap {
                    base,
                    old_total,
                    new_total,
                } => {
                    let result = self.remap(base, old_total, new_total);
                    step = if header.magic == MAGIC.big {
                        big_remapped(&mut self.heap, ptr, new_size, result)
                    } else {
                        let old = Class {
                            index: header.class as usize,
                            size: CLASSES[header.class as usize],
                        };
                        small_remapped(
                            &mut self.heap.radix,
                            ptr,
                            HEADER,
                            old,
                            new_size,
                            class.unwrap(),
                            result,
                        )
                    };
                }
            }
        }
    }

    fn fill_pattern(&mut self, ptr: usize, len: usize, seed: u8) {
        for i in 0..len {
            self.memory[ptr - BASE + i] = seed.wrapping_add((i as u8).wrapping_mul(13));
        }
    }

    fn assert_pattern(&self, ptr: usize, len: usize, seed: u8) {
        for i in 0..len {
            let expected = seed.wrapping_add((i as u8).wrapping_mul(13));
            assert_eq!(self.memory[ptr - BASE + i], expected, "byte mismatch at {}", i);
        }
    }
}

#[test]
fn realloc_null_allocates() {
    let mut s = Sim::new();
    let p = s.realloc(0, 256);
    assert!(p != 0);
    s.free(p);

    let z = s.realloc(0, 0);
    assert!(z != 0);
    s.free(z);
}

#[test]
fn realloc_zero_frees_and_returns_null() {
    let mut s = Sim::new();
    let p = s.get(128);
    assert!(p != 0);

    let out = s.realloc(p, 0);
    assert!(out == 0);
    assert_eq!(s.freed, vec![p]);

    let out2 = s.realloc(0, 0);
    assert!(out2 != 0);
    s.free(out2);
}

#[test]
fn realloc_small_growth_preserves_prefix() {
    let old_size = 96usize;
    let new_size = 2048usize;
    let seed = 0x5Au8;

    let mut s = Sim::new();
    let p = s.get(old_size);
    assert!(p != 0);
    s.fill_pattern(p, old_size, seed);

    let p2 = s.realloc(p, new_size);
    assert!(p2 != 0);
    s.assert_pattern(p2, old_size, seed);

    s.free(p2);
}

#[test]
fn realloc_small_shrink_preserves_prefix() {
    let old_size = 2048usize;
    let new_size = 96usize;
    let seed = 0x33u8;

    let mut s = Sim::new();
    let p = s.get(old_size);
    assert!(p != 0);
    s.fill_pattern(p, new_size, seed);

    let p2 = s.realloc(p, new_size);
    assert!(p2 != 0);
    s.assert_pattern(p2, new_size, seed);

    s.free(p2);
}

#[test]
fn realloc_same_class_keeps_data() {
    let old_size = 80usize;
    let new_size = 79usize;
    let seed = 0xA7u8;

    let mut s = Sim::new();
    let p = s.get(old_size);
    assert!(p != 0);
    s.fill_pattern(p, old_size, seed);

    let p2 = s.realloc(p, new_size);
    assert!(p2 != 0);
    s.assert_pattern(p2, old_size, seed);

    s.free(p2);
}

#[test]
fn realloc_failure_does_not_invalidate_old_ptr() {
    let old_size = 256usize;
    let huge_size = usize::MAX / 2;
    let seed = 0x11u8;

    let mut s = Sim::new();
    let p = s.get(old_size);
    assert!(p != 0);
    s.fill_pattern(p, old_size, seed);

    let out = s.realloc(p, huge_size);
    assert!(out == 0);
    assert!(s.freed.is_empty());

    s.assert_pattern(p, old_size, seed);
    s.free(p);
}

#[test]
fn realloc_memalign_growth_preserves_prefix() {
    let old_size = 128usize;
    let new_size = 1024usize;
    let seed = 0x6Du8;

    let mut s = Sim::new();
    let p = s.memalign(64, old_size);
    assert!(p != 0);
    assert_eq!(p % 64, 0);
    s.fill_pattern(p, old_size, seed);

    let p2 = s.realloc(p, new_size);
    assert!(p2 != 0);
    s.assert_pattern(p2, old_size, seed);

    s.free(p2);
}

#[test]
fn realloc_memalign_shrink_preserves_prefix() {
    let old_size = 256usize;
    let new_size = 96usize;
    let seed = 0x2Cu8;

    let mut s = Sim::new();
    let p = s.memalign(128, old_size);
    assert!(p != 0);
    assert_eq!(p % 128, 0);
    s.fill_pattern(p, new_size, seed);

    let p2 = s.realloc(p, new_size);
    assert!(p2 != 0);
    s.assert_pattern(p2, new_size, seed);

    s.free(p2);
}

#[test]
fn moved_payloads_keep_their_alignment() {
    let mut s = Sim::new();
    let p = s.memalign(256, 100);
    assert_eq!(p % 256, 0);
    s.fill_pattern(p, 100, 0x35);
    let p2 = s.realloc(p, 1500);
    assert!(p2 != 0 && p2 != p);
    assert_eq!(p2 % 256, 0);
    s.assert_pattern(p2, 100, 0x35);
    assert_eq!(s.realloc(p2, 50), p2);
    s.free(p2);

    assert_eq!(kept_alignment(0x1240, 0x1000, None), 0x40);
    assert_eq!(kept_alignment(0x1_0000, 0x300, None), 0x200);
    assert_eq!(kept_alignment(0x1240, 0x1000, Some(8)), 8);
    assert_eq!(kept_alignment(0x1001, 0x1000, None), 1);
    assert_eq!(
        realloc_shifted(0x1240, 0x100, 0x80, 0x1000),
        ReallocStep::Relocate(Move {
            from: 0x1240,
            bytes: 0x80,
            size: 0x80,
            big: false,
            align: 0x1000
        })
    );
    assert_eq!(
        realloc_shifted(0x1240, 0x100, 0x80, 0x40),
        ReallocStep::Done(0x1240)
    );
    assert_eq!(realloc_route(0x1240, 0x1240, true, Some(64)), Route::Shifted);
    assert_eq!(realloc_route(0x1240, 0x1240, true, Some(16)), Route::Big);
    assert_eq!(realloc_route(0x1240, 0x1240, false, None), Route::Small);
    assert_eq!(realloc_route(0x1240, 0x1200, true, None), Route::Shifted);
}

#[test]
fn resized_mappings_have_the_size_they_were_made_with() {
    let mut s = Sim::new();
    let p = s.get(0x5_0000);
    assert_eq!(
        big_realloc(&mut s.heap, p, 0x9_0000, false),
        ReallocStep::Remap {
            base: p - HEADER,
            old_total: 0x5_1000,
            new_total: 0x9_1000
        }
    );
}

#[test]
fn large_small_blocks_are_remapped() {
    let mut s = Sim::new();
    let p = s.get(0x2_8000);
    s.fill_pattern(p, 0x2_8000, 0x41);
    let p2 = s.realloc(p, 0x3_0000);
    assert!(p2 != p);
    assert!(s.freed.is_empty());
    s.assert_pattern(p2, 0x2_8000, 0x41);
    assert_eq!(s.headers[&(p2 - HEADER)].class, 11);
}

#[test]
fn large_payloads_are_remapped_and_recorded_anew() {
    let mut s = Sim::new();
    let p = s.get(0x5_0000);
    s.fill_pattern(p, 0x5_0000, 0x17);
    let p2 = s.realloc(p, 0x9_0000);
    assert!(p2 != 0 && p2 != p);
    s.assert_pattern(p2, 0x5_0000, 0x17);
    assert!(s.heap.map.get(p).is_none());
    let meta = s.heap.map.get(p2).unwrap();
    assert_eq!((meta.size, meta.order), (0x9_0000, 20));
    assert_eq!(s.realloc(p2, 0x8_0000), p2);
    s.free(p2);
    assert!(s.heap.map.get(p2).is_none());
}

#[test]
fn large_payloads_move_when_they_cannot_be_remapped() {
    let mut s = Sim::new();
    let p = s.get(0x5_0000);
    let step = big_realloc(&mut s.heap, p, 0x9_0000, false);
    assert!(matches!(step, ReallocStep::Remap { .. }));
    assert_eq!(
        big_remapped(&mut s.heap, p, 0x9_0000, None),
        ReallocStep::Relocate(Move {
            from: p,
            bytes: 0x5_0000,
            size: 0x9_0000,
            big: true,
            align: 1
        })
    );
    assert_eq!(
        big_realloc(&mut s.heap, 0x1234, 1, false),
        ReallocStep::Done(0)
    );
}

#[test]
fn pooled_payloads_grow_in_place_while_there_is_room() {
    let mut heap = BigHeap::new(HEADER, false, false);
    heap.buddy
        .init(1, 1, vec![0], false, false, 0, Some((0x4000_0000, 0x400_0000)));
    heap.radix.set_range(0x4000_0000, 0x400_0000, true);
    let first = match heap.big_malloc(0x30_0000, false, 0, 0) {
        BigOutcome::Ready(b) => b,
        _ => unreachable!(),
    };
    assert_eq!(first.payload, 0x4000_0000 + HEADER);
    assert_eq!(first.flags, Flags::BigAlloc);
    assert_eq!(heap.map.get(first.payload).unwrap().order, 22);
    assert_eq!(
        big_realloc(&mut heap, first.payload, 0xf0_0000, false),
        ReallocStep::Done(first.payload)
    );
    assert_eq!(heap.map.get(first.payload).unwrap().order, 24);

    let second = match heap.big_malloc(0x30_0000, false, 0, 0) {
        BigOutcome::Ready(b) => b,
        _ => unreachable!(),
    };
    assert_eq!(second.payload, 0x4100_0000 + HEADER);
    assert!(matches!(
        big_realloc(&mut heap, first.payload, 0x1f0_0000, false),
        ReallocStep::Relocate(m) if m.big && m.bytes == 0xf0_0000
    ));
    assert_eq!(heap.big_free(first.payload, 3), BigRelease::Pooled);
    assert_eq!(heap.big_free(first.payload, 3), BigRelease::Corrupt);
    assert!(matches!(
        heap.buddy.allocate(0x100_0000, 0, 0),
        BuddyOutcome::Served(b) if b.addr == 0x4000_0000
    ));
}

#[test]
fn full_pools_ask_for_regions_and_then_for_mappings() {
    let mut heap = BigHeap::new(HEADER, false, false);
    heap.buddy
        .init(1, 1, vec![0], false, false, 0, Some((0x4000_0000, 0x400_0000)));
    assert!(matches!(
        heap.big_malloc(0x3f0_0000, true, 0, 0),
        BigOutcome::Ready(_)
    ));
    let growth = match heap.big_malloc(0x30_0000, true, 0, 0) {
        BigOutcome::NeedsRegion(growth) => growth,
        _ => unreachable!(),
    };
    assert!(matches!(
        heap.big_malloc_region(0x30_0000, true, growth, None),
        BigOutcome::NeedsMapping(r) if r.total == 0x30_1000 && !r.huge
    ));
    let b = match heap.big_malloc_region(0x30_0000, true, growth, Some(0x6000_0000)) {
        BigOutcome::Ready(b) => b,
        _ => unreachable!(),
    };
    assert_eq!(b.payload, 0x6000_0000 + HEADER);
    assert!(heap.radix.is_owned(0x63ff_ffff));
    assert_eq!(heap.big_malloc(usize::MAX, false, 0, 0), BigOutcome::Failed);
    assert!(matches!(
        heap.big_malloc(0x7ff_0000 - HEADER, false, 0, 0),
        BigOutcome::NeedsMapping(r) if r.total == 0x800_0000 && r.huge
    ));
}

#[test]
fn giving_a_mapping_back_undoes_making_it() {
    let mut heap = BigHeap::new(HEADER, true, true);
    for aligned in [false, true] {
        let b = heap.big_malloc_mapped(0x5000, aligned, 0x7000_0000);
        assert!(heap.radix.is_owned(0x7000_0000));
        assert_eq!(heap.radix.is_owned(0x7000_5000), aligned);
        match heap.big_free(b.payload, 0) {
            BigRelease::Unmap(block) => {
                assert_eq!((block.ptr, block.total_size), (0x7000_0000, 0x6000))
            }
            _ => unreachable!(),
        }
        assert!(!heap.radix.is_owned(0x7000_0000));
        assert!(!heap.radix.is_owned(0x7000_5000));
        assert!(heap.map.get(b.payload).is_none());
    }
}

#[test]
fn double_frees_and_forgeries_are_found_out() {
    let mut s = Sim::new();
    let p = s.get(32);
    let mut header = s.headers[&(p - HEADER)];
    assert_eq!(free_block(&mut header, MAGIC, 9, true), FreeEnd::Push(1));
    assert_eq!((header.magic, header.life_time), (MAGIC.freed, 9));
    assert_eq!(
        free_block(&mut header, MAGIC, 9, true),
        FreeEnd::Abort(RSMallocError::DoubleFree)
    );
    header.magic = 1;
    assert_eq!(
        free_block(&mut header, MAGIC, 9, true),
        FreeEnd::Abort(RSMallocError::AttackOrCorruption)
    );
    assert_eq!(free_block(&mut header, MAGIC, 9, false), FreeEnd::Nothing);

    let radix = &s.heap.radix;
    assert_eq!(
        find_original_ptr(radix, p, ALIGN_TAG, ALIGN_TAG, 0x10),
        Err(RSMallocError::AttackOrCorruption)
    );
    assert_eq!(find_original_ptr(radix, p, ALIGN_TAG, 0, 0x10), Ok(p));
    assert_eq!(
        rs_free(radix, 0x10, ForeignHandling::Abort),
        FreeStart::Abort(RSMallocError::ForeignPointer)
    );
    assert_eq!(
        rs_free(radix, 0x10, ForeignHandling::Fallback),
        FreeStart::Fallback
    );
    assert_eq!(
        rs_free(radix, 0x10, ForeignHandling::Ignore),
        FreeStart::Nothing
    );
    let mut fresh = header;
    assert_eq!(
        rs_alloc(radix, 0x10, &mut fresh, HEADER, MAGIC, true),
        Err(RSMallocError::AttackOrCorruption)
    );
    assert_eq!(fresh, header);
}

#[test]
fn cleared_payloads_are_cleared_where_they_may_be_dirty() {
    assert_eq!(calloc_size(8, 4), Some(32));
    assert_eq!(calloc_size(8, 0), Some(1));
    assert_eq!(calloc_size(usize::MAX, 1), None);
    assert_eq!(calloc_size(1 << 40, 1 << 40), None);
    assert_eq!(rs_calloc(Flags::NotAllocated, 64, 40, false), 0);
    assert_eq!(rs_calloc(Flags::Allocated, 64, 40, false), 40);
    assert_eq!(rs_calloc(Flags::BigAlloc, 32, 40, false), 32);
    assert_eq!(rs_calloc(Flags::Trimmed, 64, 40, false), 0);
    assert_eq!(rs_calloc(Flags::Trimmed, 64, 40, true), 40);
}

#[test]
fn alignments_are_checked() {
    assert_eq!(posix_align_inner(true, 16, 8), AlignStart::Failed(22));
    assert_eq!(posix_align_inner(false, 4, 8), AlignStart::Failed(22));
    assert_eq!(posix_align_inner(false, 24, 8), AlignStart::Failed(22));
    assert_eq!(
        posix_align_inner(false, 16, usize::MAX - 20),
        AlignStart::Failed(12)
    );
    assert_eq!(posix_align_inner(false, 64, 100), AlignStart::Allocate(180));
    assert_eq!(memalign_inner(1, 100, true), AlignStart::Allocate(124));
    assert_eq!(memalign_inner(48, 100, false), AlignStart::Failed(22));
    assert_eq!(place_aligned(0, 64), Err(12));
    let p = place_aligned(0x1001, 64).unwrap();
    assert_eq!((p.aligned, p.tag_at, p.original_at, p.original), (0x1040, 0x1030, 0x1038, 0x1001));
}
