use rsmalloc::abi::{
    aligned_alloc, aligned_alloc_strict, malloc_trim, malloc_trim_any, malloc_trim_rest, pvalloc,
    reallocarray, recallocarray, Recalloc,
};
use rsmalloc::api_surface::{assert_sizes, stable_api_surface, ItemKind};
use rsmalloc::backend::bootstrap::{
    bootstrap, buddy_cache_size, environment_fits, main_bootstrap,
};
use rsmalloc::frontend::global_alloc2::allocation_api::{
    AllocationAPI, AllocationError, AllocationSize, AllocationSizeAPI, HeapRequest,
};
use rsmalloc::frontend::global_alloc2::config::{
    Bytes, Config, ForeignPointerPolicy, MagicSafety, MagicSafetyDisable, PerCacheLimit,
    Percentage, ReliefSettings, ReliefState, SecurityCritical, THPSettings, TrimSettings,
    TrimThread, Tuning, BuddyTHP, THP,
};
use rsmalloc::frontend::global_alloc2::raw::{AdvancedTrimSize, TrimReport};
use rsmalloc::frontend::global_alloc2::rsmalloc::{
    NonZeroBytes, RSMalloc, RSMallocCoreAPI, SimpleTrimSize,
};
use rsmalloc::global_alloc;
use rsmalloc::RSMallocError;

fn environ(entries: &[&str]) -> Vec<Vec<u8>> {
    entries.iter().map(|e| e.as_bytes().to_vec()).collect()
}

#[test]
fn an_empty_environment_gives_the_defaults() {
    let none = environ(&[]);
    assert!(environment_fits(&none));
    let c = bootstrap(&none);
    assert_eq!(c.arena_size, 256 * 1024 * 1024);
    assert_eq!(c.max_refill, 3);
    assert_eq!(c.init_batch, 128);
    assert_eq!(c.segmented_bitmap_max_cache, 64 * 1024 * 1024);
    assert!(!c.segmented_bitmap_attempt_huge);
    assert!(!c.disable_trimmer);
    assert_eq!(c.small_trim_threshold, 10 * 1024 * 1024);
    assert_eq!(c.big_trim_threshold, 10 * 1024 * 1024);
    assert!(c.disable_relief);
    assert_eq!(c.segmented_bitmap_disable_percentage, 85);
    assert_eq!(c.segmented_bitmap_enable_percentage, 80);
    assert!(!c.disable_thp);
    assert!(c.random_magic);
    assert!(!c.foreign_pointer_abort);
}

#[test]
fn the_environment_overrides_the_defaults_within_limits() {
    let e = environ(&[
        "PATH=/bin",
        "RS_ARENA_SIZE=1",
        "RS_MAX_REFILL_RETRIES=7",
        "RS_PREDICTOR_INIT_BATCH=16",
        "RS_BUDDY_PER_CACHE_SIZE=67108865",
        "RS_BUDDY_ATTEMPT_HUGEPAGE=1",
        "RS_DISABLE_TRIM_THREAD=1",
        "RS_TRIMMER_THRESHOLD=5",
        "RS_ENABLE_RELIEF=0",
        "RS_BUDDY_RELIEF_DISABLE_PERCENTAGE=500",
        "RS_BUDDY_RELIEF_ENABLE_PERCENTAGE=300",
        "RS_DISABLE_THP=2",
        "RS_DISABLE_RANDOMIZING=1",
    ]);
    assert!(environment_fits(&e));
    let c = bootstrap(&e);
    assert_eq!(c.arena_size, 256 * 1024);
    assert_eq!(c.max_refill, 7);
    assert_eq!(c.init_batch, 16);
    assert_eq!(c.segmented_bitmap_max_cache, 128 * 1024 * 1024);
    assert!(c.segmented_bitmap_attempt_huge);
    assert!(c.disable_trimmer);
    assert_eq!(c.small_trim_threshold, 5);
    assert!(!c.disable_relief);
    assert_eq!(c.segmented_bitmap_disable_percentage, 100);
    assert_eq!(c.segmented_bitmap_enable_percentage, 100);
    assert!(!c.disable_thp);
    assert!(!c.random_magic);
    assert!(!environment_fits(&environ(&[
        "RS_ARENA_SIZE=99999999999999999999999"
    ])));
    assert_eq!(buddy_cache_size(0), 0x400_0000);
    assert_eq!(buddy_cache_size(usize::MAX), 0x8000_0000_0000);
}

#[test]
fn the_set_up_needs_restartable_sequences() {
    let mut c = bootstrap(&environ(&[]));
    c.arena_size = 5;
    c.segmented_bitmap_attempt_huge = true;
    assert_eq!(
        main_bootstrap(c, 0, 8),
        Err(RSMallocError::RseqUnavailable)
    );
    assert_eq!(
        main_bootstrap(c, 32, 0),
        Err(RSMallocError::RseqUnavailable)
    );
    let s = main_bootstrap(c, 32, 8).unwrap();
    assert_eq!(s.arena_size, 256 * 1024);
    assert!(s.buddy_thp);
    assert_eq!(s.predictor_init_batch, 128);
    c.disable_thp = true;
    assert!(!main_bootstrap(c, 32, 8).unwrap().buddy_thp);
}

#[test]
fn configurations_are_built_step_by_step() {
    let tuning = Tuning::default()
        .with_thp(THPSettings::new(THP::Disabled, BuddyTHP::Force))
        .with_refill_init_batch(9)
        .with_max_refill_retries(4)
        .with_max_per_buddy_cache(PerCacheLimit::Bytes(0x1000_0000))
        .with_trim(TrimSettings::new(TrimThread::Enabled, Bytes(77)))
        .with_relief(ReliefSettings::new(
            ReliefState::Enabled,
            Percentage::new(90),
            Percentage::new(70),
        ))
        .with_arena_min_size(Bytes(0x10_0000));
    let c = Config::new(tuning).bootstrap();
    assert_eq!(c.init_batch, 9);
    assert_eq!(c.max_refill, 4);
    assert_eq!(c.segmented_bitmap_max_cache, 0x1000_0000);
    assert!(c.segmented_bitmap_attempt_huge);
    assert!(c.disable_thp);
    assert!(!c.disable_trimmer);
    assert_eq!(c.small_trim_threshold, 77);
    assert!(!c.disable_relief);
    assert_eq!(c.segmented_bitmap_disable_percentage, 90);
    assert_eq!(c.segmented_bitmap_enable_percentage, 70);
    assert_eq!(c.arena_size, 0x10_0000);
    assert!(c.random_magic);
    assert!(c.foreign_pointer_abort);
    let relaxed = Config::default().with_security_critical(SecurityCritical::new(
        MagicSafety::Fixed(MagicSafetyDisable::acknowledge_safety_risk()),
        ForeignPointerPolicy::Ignore,
    ));
    let c = relaxed.bootstrap();
    assert!(!c.random_magic);
    assert!(!c.foreign_pointer_abort);
    assert_eq!(Percentage::new(500).get(), 100);
}

#[test]
fn the_first_interface_turns_its_configuration_into_settings() {
    let alloc = global_alloc::RSMalloc::new_default();
    assert_eq!(
        alloc.init(0, 0),
        Err(RSMallocError::RseqUnavailable)
    );
    let (s, unchecked) = alloc.init(32, 8).unwrap();
    assert!(!unchecked);
    assert!(s.foreign_pointer_abort);
    assert_eq!(s.max_refill_retries, 3);
    assert_eq!(s.predictor_init_batch, 128);
    assert!(s.disable_trim_thread);
    let config = global_alloc::RSMallocConfig::default()
        .with_max_refill_retries(8)
        .with_refill_predictor_settings(global_alloc::RefillPredictorSettings::new(3))
        .with_foreign_pointer(global_alloc::ForeignPointerSettings::new(
            global_alloc::ForeignPointerPolicy::Ignore,
        ));
    let (s, _) = global_alloc::RSMalloc::new_with_config(config)
        .init(32, 8)
        .unwrap();
    assert!(!s.foreign_pointer_abort);
    let disabled = global_alloc::RSMallocConfig::default().with_magic_safety(
        global_alloc::MagicSafety::Disabled(global_alloc::DisableMagic::acknowledge_safety_risk()),
    );
    let (d, unchecked) = global_alloc::RSMalloc::new_with_config(disabled)
        .init(32, 8)
        .unwrap();
    assert!(unchecked && !d.random_magic);
    assert_eq!(s.max_refill_retries, 8);
    assert_eq!(s.predictor_init_batch, 3);
    assert_eq!(alloc.get_capabilities().version, "0.1.0");
}

#[test]
fn trims_of_the_first_interface_report_what_they_gave() {
    let alloc = global_alloc::RSMalloc::new_default();
    let trim = global_alloc::RSMallocTrim::Request(100);
    assert_eq!(alloc.trim_rest(trim, 30), Some(70));
    let status = alloc.rs_trim(trim, 30, 20);
    assert_eq!(status, global_alloc::RSTrimStatus::Trimmed(50));
    assert_eq!(status.get_trim_size(), 50);
    assert!(status.succeeded());
    assert_eq!(trim.get_request_size(), 100);
    assert_eq!(alloc.trim_rest(trim, 100), None);
    let enough = alloc.rs_trim(trim, 100, 20);
    assert_eq!(enough, global_alloc::RSTrimStatus::Trimmed(100));
    let all = global_alloc::RSMallocTrim::All;
    assert_eq!(all.get_request_size(), 0);
    assert_eq!(alloc.trim_rest(all, 30), Some(0));
    assert_eq!(
        alloc.rs_trim(all, 30, 20),
        global_alloc::RSTrimStatus::Trimmed(50)
    );
    assert!(!global_alloc::RSTrimStatus::NothingToTrim.succeeded());
    assert!(global_alloc::RSTrimStatus::Disabled.disabled());
    assert_eq!(alloc.rs_usable_size(0), global_alloc::Size::NotRS);
    assert_eq!(alloc.rs_usable_size(5), global_alloc::Size::RS(5));
}

#[test]
fn marks_differ_and_come_from_the_system() {
    let m = global_alloc::marks(0, false);
    assert_eq!((m.main, m.freed, m.big), (0, 0xffff, 0xfffe));
    assert_eq!(
        global_alloc::marks_drawn(&vec![0x02, 0x01], false),
        global_alloc::marks(0x102, false)
    );
    assert_eq!(
        global_alloc::marks_drawn(&vec![1, 0, 0, 0, 0, 0, 0, 0x80], true),
        global_alloc::marks(0x8000_0000_0000_0001, true)
    );
    let m = global_alloc::marks(1, true);
    assert_eq!((m.main, m.freed, m.big), (1, 0, u64::MAX));
    let words: Vec<u64> = (0..4)
        .map(|_| global_alloc::init_magic(true).unwrap().main)
        .collect();
    assert!(words.iter().any(|w| *w != words[0]));
    assert!(words.iter().any(|w| *w != 0));
}

#[test]
fn requests_of_the_interface() {
    let alloc = RSMalloc::new_default();
    let ten = <AllocationSize as AllocationSizeAPI>::from_bytes(10);
    assert_eq!(AllocationAPI::allocate(&alloc, ten), HeapRequest::Allocate { size: 10 });
    assert_eq!(
        alloc.allocate_zeroed(ten),
        HeapRequest::AllocateZeroed { size: 10 }
    );
    assert_eq!(
        alloc.allocate_aligned(ten, 64),
        Ok(HeapRequest::AllocateAligned {
            size: 10,
            alignment: 64
        })
    );
    assert_eq!(
        alloc.allocate_aligned(ten, 48),
        Err(AllocationError::InvalidAlignment)
    );
    assert_eq!(
        alloc.allocate_aligned(ten, 0),
        Err(AllocationError::InvalidAlignment)
    );
    assert_eq!(
        alloc.reallocate(5, AllocationSize::from_bytes(0)),
        Err(AllocationError::NotSupported)
    );
    assert_eq!(
        alloc.reallocate(5, ten),
        Ok(HeapRequest::Reallocate {
            pointer: 5,
            size: 10,
            align: None
        })
    );
    assert_eq!(alloc.deallocate(5), HeapRequest::Free { pointer: 5 });
    assert_eq!(alloc.complete(0), Err(AllocationError::OutOfMemory));
    assert_eq!(alloc.complete(5), Ok(5));
    assert_eq!(
        AllocationAPI::usable_size(&alloc, 0),
        Err(AllocationError::NotOwned)
    );
    assert_eq!(alloc.rs_usable_size(8), Some(8));
    assert_eq!(AllocationSize::array_bytes::<u32>(3).unwrap().bytes(), 12);
    assert_eq!(
        AllocationSize::array_bytes::<u32>(usize::MAX),
        Err(AllocationError::SizeOverflow)
    );
    assert_eq!(
        AllocationError::SizeOverflow.message(""),
        "allocation size overflowed usize"
    );
    assert_eq!(
        AllocationError::OsError(12).message("Cannot allocate memory (os error 12)"),
        "operating system error 12: Cannot allocate memory (os error 12)"
    );
    assert_eq!(
        AllocationError::OsError(-5).message("unknown"),
        "operating system error -5: unknown"
    );
}

#[test]
fn layouts_above_the_natural_alignment_are_aligned() {
    let alloc = RSMalloc::new_default();
    assert_eq!(
        alloc.layout_request(8, 16, true),
        HeapRequest::AllocateZeroed { size: 8 }
    );
    assert_eq!(
        alloc.layout_request(8, 32, true),
        HeapRequest::AllocateAligned {
            size: 8,
            alignment: 32
        }
    );
    assert_eq!(alloc.layout_cleared(8, 32, true), 8);
    assert_eq!(alloc.layout_cleared(8, 16, true), 0);
    assert_eq!(
        alloc.resize_request(4, 0, 64),
        HeapRequest::Reallocate {
            pointer: 4,
            size: 1,
            align: Some(64)
        }
    );
    assert_eq!(alloc.grown_cleared(8, 20), (8, 12));
}

fn bytes(count: usize) -> NonZeroBytes {
    NonZeroBytes::new(count).unwrap()
}

#[test]
fn trims_ask_the_buddy_allocator_first() {
    assert_eq!(NonZeroBytes::new(0), None);
    assert_eq!(bytes(7).get(), 7);
    let alloc = RSMalloc::new_default();
    let hundred = SimpleTrimSize::Bytes(bytes(100));
    assert_eq!(alloc.trim_request(&hundred), 100);
    assert_eq!(alloc.trim_request(&SimpleTrimSize::All), 0);
    assert_eq!(alloc.trim_rest(&hundred, 40), Some(60));
    assert_eq!(alloc.trim_rest(&hundred, 100), None);
    assert_eq!(alloc.trim(hundred, 40, 10), Some(50));
    assert_eq!(alloc.trim(hundred, 40, 0), None);
    assert_eq!(alloc.trim(hundred, 100, 10), None);
    let raw = alloc.raw();
    assert_eq!(raw.trim_buddy(AdvancedTrimSize::AllSlab), None);
    assert_eq!(raw.trim_buddy(AdvancedTrimSize::Bytes(bytes(9))), Some(9));
    assert_eq!(raw.trim_slab(AdvancedTrimSize::Bytes(bytes(9)), 4), Some(5));
    assert_eq!(
        raw.trim(AdvancedTrimSize::Bytes(bytes(9)), 9, 7),
        TrimReport {
            buddy_bytes: 9,
            slab_bytes: 0
        }
    );
    assert_eq!(
        raw.trim(AdvancedTrimSize::SlabBytes(bytes(9)), 9, 7),
        TrimReport {
            buddy_bytes: 0,
            slab_bytes: 7
        }
    );
}

#[test]
fn the_c_interface_checks_its_arguments() {
    assert!(aligned_alloc(32));
    assert!(!aligned_alloc(0));
    assert!(!aligned_alloc(24));
    assert_eq!(aligned_alloc_strict(32, 64), Ok(()));
    assert_eq!(aligned_alloc_strict(32, 65), Err(22));
    assert_eq!(aligned_alloc_strict(0, 0), Err(22));
    assert_eq!(pvalloc(0), Some(4096));
    assert_eq!(pvalloc(4097), Some(8192));
    assert_eq!(pvalloc(usize::MAX), None);
    assert_eq!(reallocarray(3, 5), Ok(15));
    assert_eq!(reallocarray(usize::MAX, 2), Err(12));
    assert_eq!(recallocarray(true, 9, 1, 4), Recalloc::Fresh);
    assert_eq!(recallocarray(false, 1, usize::MAX, 4), Recalloc::Failed(12));
    assert_eq!(
        recallocarray(false, 2, 5, 4),
        Recalloc::Resize {
            size: 20,
            clear_from: 8,
            clear: 12
        }
    );
    assert_eq!(
        recallocarray(false, 5, 2, 4),
        Recalloc::Resize {
            size: 8,
            clear_from: 8,
            clear: 0
        }
    );
    assert_eq!(malloc_trim_rest(0, 5), Some(0));
    assert_eq!(malloc_trim_rest(9, 5), Some(4));
    assert_eq!(malloc_trim_rest(5, 5), None);
    assert_eq!(malloc_trim(0, 0, 0), 0);
    assert_eq!(malloc_trim(0, 0, 1), 1);
    assert_eq!(malloc_trim(9, 5, 3), 0);
    assert_eq!(malloc_trim(9, 5, 4), 1);
    assert_eq!(malloc_trim_any(0, 0), 0);
    assert_eq!(malloc_trim_any(usize::MAX, 1), 1);
}

#[test]
fn interfaces_are_documented() {
    assert_eq!(stable_api_surface(""), "Stable api surface");
    assert_eq!(stable_api_surface("1.2"), "Stable Since 1.2");
    assert_eq!(assert_sizes(ItemKind::Struct), None);
    assert_eq!(
        assert_sizes(ItemKind::Other),
        Some("`#[assert_size]` can only be used on structs, or enums")
    );
}
