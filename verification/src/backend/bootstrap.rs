//! From a configuration, or from the environment, to the settings of the allocator.

use crate::core_prim::predictor::DEFAULT_BATCH;
use crate::internals::env;
use crate::utility;
use crate::RSMallocError;
use vstd::arithmetic::power2;
use vstd::prelude::*;
use vstd::string::*;

verus! {

/// Least bytes of an arena.
pub const MIN_ARENA_SIZE: usize = 0x4_0000;

/// Bytes of an arena unless something else is asked for.
pub const DEFAULT_ARENA_SIZE: usize = 0x1000_0000;

/// Least bytes of a region of the buddy allocator.
pub const MIN_BUDDY_CACHE: usize = 0x400_0000;

/// Most bytes of a region of the buddy allocator that can be asked for.
pub const MAX_BUDDY_CACHE: u64 = 0x8000_0000_0000;

/// Cached bytes from which on trimming is worth it.
pub const DEFAULT_TRIM_THRESHOLD: usize = 0xa0_0000;

/// What the allocator is set up with.
#[derive(Clone, Copy, Debug, PartialEq, Eq, Structural)]
pub struct BootstrapConfig {
    pub arena_size: usize,
    pub max_refill: usize,
    pub init_batch: usize,
    pub segmented_bitmap_max_cache: usize,
    pub segmented_bitmap_attempt_huge: bool,
    pub disable_trimmer: bool,
    pub small_trim_threshold: usize,
    pub big_trim_threshold: usize,
    pub disable_relief: bool,
    pub segmented_bitmap_disable_percentage: usize,
    pub segmented_bitmap_enable_percentage: usize,
    pub disable_thp: bool,
    pub random_magic: bool,
    pub foreign_pointer_abort: bool,
}

impl BootstrapConfig {
    pub fn new(
        arena_size: usize,
        max_refill: usize,
        init_batch: usize,
        segmented_bitmap_max_cache: usize,
        segmented_bitmap_attempt_huge: bool,
        disable_trimmer: bool,
        small_trim_threshold: usize,
        big_trim_threshold: usize,
        disable_relief: bool,
        segmented_bitmap_disable_percentage: usize,
        segmented_bitmap_enable_percentage: usize,
        disable_thp: bool,
        random_magic: bool,
        foreign_pointer_abort: bool,
    ) -> (r: Self)
        ensures
            r == (BootstrapConfig {
                arena_size,
                max_refill,
                init_batch,
                segmented_bitmap_max_cache,
                segmented_bitmap_attempt_huge,
                disable_trimmer,
                small_trim_threshold,
                big_trim_threshold,
                disable_relief,
                segmented_bitmap_disable_percentage,
                segmented_bitmap_enable_percentage,
                disable_thp,
                random_magic,
                foreign_pointer_abort,
            }),
    {
        BootstrapConfig {
            arena_size,
            max_refill,
            init_batch,
            segmented_bitmap_max_cache,
            segmented_bitmap_attempt_huge,
            disable_trimmer,
            small_trim_threshold,
            big_trim_threshold,
            disable_relief,
            segmented_bitmap_disable_percentage,
            segmented_bitmap_enable_percentage,
            disable_thp,
            random_magic,
            foreign_pointer_abort,
        }
    }
}

/// What the parts of the allocator go by.
#[derive(Clone, Copy, Debug, PartialEq, Eq, Structural)]
pub struct Settings {
    pub arena_size: usize,
    pub max_refill_retries: usize,
    pub predictor_init_batch: usize,
    pub buddy_max_cache: usize,
    pub buddy_attempt_huge: bool,
    /// Huge pages are asked for in regions of the buddy allocator.
    pub buddy_thp: bool,
    pub disable_trim_thread: bool,
    pub small_trim_threshold: usize,
    pub big_trim_threshold: usize,
    pub disable_relief: bool,
    pub disable_percentage: usize,
    pub enable_percentage: usize,
    pub disable_thp: bool,
    pub random_magic: bool,
    pub foreign_pointer_abort: bool,
}

/// The settings that a configuration asks for.
pub open spec fn settings_of(c: BootstrapConfig) -> Settings {
    Settings {
        arena_size: if c.arena_size < MIN_ARENA_SIZE {
            MIN_ARENA_SIZE
        } else {
            c.arena_size
        },
        max_refill_retries: c.max_refill,
        predictor_init_batch: c.init_batch,
        buddy_max_cache: c.segmented_bitmap_max_cache,
        buddy_attempt_huge: c.segmented_bitmap_attempt_huge,
        buddy_thp: c.segmented_bitmap_attempt_huge && !c.disable_thp,
        disable_trim_thread: c.disable_trimmer,
        small_trim_threshold: c.small_trim_threshold,
        big_trim_threshold: c.big_trim_threshold,
        disable_relief: c.disable_relief,
        disable_percentage: c.segmented_bitmap_disable_percentage,
        enable_percentage: c.segmented_bitmap_enable_percentage,
        disable_thp: c.disable_thp,
        random_magic: c.random_magic,
        foreign_pointer_abort: c.foreign_pointer_abort,
    }
}

/// Checks that the system registered restartable sequences, whose size and offset are given, and
/// turns a configuration into settings.
pub fn main_bootstrap(config: BootstrapConfig, rseq_size: usize, rseq_offset: usize) -> (r: Result<
    Settings,
    RSMallocError,
>)
    ensures
        r == (if rseq_size == 0 || rseq_offset == 0 {
            Err::<Settings, RSMallocError>(RSMallocError::RseqUnavailable)
        } else {
            Ok::<Settings, RSMallocError>(settings_of(config))
        }),
{
    if rseq_size == 0 || rseq_offset == 0 {
        return Err(RSMallocError::RseqUnavailable);
    }
    let arena_size: usize = if config.arena_size < MIN_ARENA_SIZE {
        MIN_ARENA_SIZE
    } else {
        config.arena_size
    };
    Ok(
        Settings {
            arena_size,
            max_refill_retries: config.max_refill,
            predictor_init_batch: config.init_batch,
            buddy_max_cache: config.segmented_bitmap_max_cache,
            buddy_attempt_huge: config.segmented_bitmap_attempt_huge,
            buddy_thp: config.segmented_bitmap_attempt_huge && !config.disable_thp,
            disable_trim_thread: config.disable_trimmer,
            small_trim_threshold: config.small_trim_threshold,
            big_trim_threshold: config.big_trim_threshold,
            disable_relief: config.disable_relief,
            disable_percentage: config.segmented_bitmap_disable_percentage,
            enable_percentage: config.segmented_bitmap_enable_percentage,
            disable_thp: config.disable_thp,
            random_magic: config.random_magic,
            foreign_pointer_abort: config.foreign_pointer_abort,
        },
    )
}

/// The number that the environment assigns to a name, or `fallback`.
pub open spec fn setting(environ: Seq<Vec<u8>>, name: &str, fallback: int) -> int {
    match env::env_number(environ, name.spec_bytes()) {
        Some(n) => n,
        None => fallback,
    }
}

/// The number that the environment assigns to a name fits.
pub open spec fn setting_fits(environ: Seq<Vec<u8>>, name: &str) -> bool {
    env::number_fits(environ, name.spec_bytes())
}

/// All numbers that the set-up reads from the environment fit.
pub open spec fn settings_fit(environ: Seq<Vec<u8>>) -> bool {
    &&& setting_fits(environ, "RS_ARENA_SIZE")
    &&& setting_fits(environ, "RS_MAX_REFILL_RETRIES")
    &&& setting_fits(environ, "RS_PREDICTOR_INIT_BATCH")
    &&& setting_fits(environ, "RS_BUDDY_PER_CACHE_SIZE")
    &&& setting_fits(environ, "RS_BUDDY_ATTEMPT_HUGEPAGE")
    &&& setting_fits(environ, "RS_DISABLE_TRIM_THREAD")
    &&& setting_fits(environ, "RS_TRIMMER_THRESHOLD")
    &&& setting_fits(environ, "RS_ENABLE_RELIEF")
    &&& setting_fits(environ, "RS_BUDDY_RELIEF_DISABLE_PERCENTAGE")
    &&& setting_fits(environ, "RS_BUDDY_RELIEF_ENABLE_PERCENTAGE")
    &&& setting_fits(environ, "RS_DISABLE_THP")
    &&& setting_fits(environ, "RS_DISABLE_RANDOMIZING")
}

/// Whether all numbers that the set-up reads from the environment fit.
pub fn environment_fits(environ: &Vec<Vec<u8>>) -> (r: bool)
    ensures
        r == settings_fit(environ@),
{
    env::env_fits(environ, "RS_ARENA_SIZE".as_bytes()) && env::env_fits(
        environ,
        "RS_MAX_REFILL_RETRIES".as_bytes(),
    ) && env::env_fits(environ, "RS_PREDICTOR_INIT_BATCH".as_bytes()) && env::env_fits(
        environ,
        "RS_BUDDY_PER_CACHE_SIZE".as_bytes(),
    ) && env::env_fits(environ, "RS_BUDDY_ATTEMPT_HUGEPAGE".as_bytes()) && env::env_fits(
        environ,
        "RS_DISABLE_TRIM_THREAD".as_bytes(),
    ) && env::env_fits(environ, "RS_TRIMMER_THRESHOLD".as_bytes()) && env::env_fits(
        environ,
        "RS_ENABLE_RELIEF".as_bytes(),
    ) && env::env_fits(environ, "RS_BUDDY_RELIEF_DISABLE_PERCENTAGE".as_bytes()) && env::env_fits(
        environ,
        "RS_BUDDY_RELIEF_ENABLE_PERCENTAGE".as_bytes(),
    ) && env::env_fits(environ, "RS_DISABLE_THP".as_bytes()) && env::env_fits(
        environ,
        "RS_DISABLE_RANDOMIZING".as_bytes(),
    )
}

fn read_setting(environ: &Vec<Vec<u8>>, name: &str, fallback: usize) -> (r: usize)
    requires
        setting_fits(environ@, name),
    ensures
        r == setting(environ@, name, fallback as int),
{
    match env::get_env_usize(environ, name.as_bytes()) {
        Some(n) => n,
        None => fallback,
    }
}

/// A number of bytes kept within what a region of the buddy allocator may have.
pub open spec fn buddy_cache_within(n: int) -> int {
    if n < MIN_BUDDY_CACHE {
        MIN_BUDDY_CACHE as int
    } else if n > MAX_BUDDY_CACHE {
        MAX_BUDDY_CACHE as int
    } else {
        n
    }
}

/// `r` is the least power of two that is no less than `n`, or `n` itself when that does not fit.
pub open spec fn rounded_to_power(n: int, r: int) -> bool {
    if exists|e: nat| #[trigger] power2::pow2(e) <= usize::MAX && power2::pow2(e) >= n {
        exists|e: nat| r == power2::pow2(e) && #[trigger] utility::ceil_log2(n, e)
    } else {
        r == n
    }
}

/// Bytes of a region of the buddy allocator when `n` are asked for: kept within limits and rounded
/// up to a power of two.
pub fn buddy_cache_size(n: usize) -> (r: usize)
    ensures
        rounded_to_power(buddy_cache_within(n as int), r as int),
{
    let within: usize = if n < MIN_BUDDY_CACHE {
        MIN_BUDDY_CACHE
    } else if n as u64 > MAX_BUDDY_CACHE {
        MAX_BUDDY_CACHE as usize
    } else {
        n
    };
    match utility::checked_next_power_of_two(within) {
        Some(p) => p,
        None => within,
    }
}

/// The smaller of two numbers.
pub open spec fn at_most(n: int, limit: int) -> int {
    if n < limit {
        n
    } else {
        limit
    }
}

/// Reads the configuration from the environment.
pub fn bootstrap(environ: &Vec<Vec<u8>>) -> (r: BootstrapConfig)
    requires
        settings_fit(environ@),
    ensures
        r.arena_size == ({
            let n = setting(environ@, "RS_ARENA_SIZE", DEFAULT_ARENA_SIZE as int);
            if n < MIN_ARENA_SIZE {
                MIN_ARENA_SIZE as int
            } else {
                n
            }
        }),
        r.max_refill == setting(environ@, "RS_MAX_REFILL_RETRIES", 3),
        r.init_batch == setting(environ@, "RS_PREDICTOR_INIT_BATCH", DEFAULT_BATCH as int),
        rounded_to_power(
            buddy_cache_within(
                setting(environ@, "RS_BUDDY_PER_CACHE_SIZE", MIN_BUDDY_CACHE as int),
            ),
            r.segmented_bitmap_max_cache as int,
        ),
        r.segmented_bitmap_attempt_huge == (setting(environ@, "RS_BUDDY_ATTEMPT_HUGEPAGE", 0)
            != 0),
        r.disable_trimmer == (setting(environ@, "RS_DISABLE_TRIM_THREAD", 0) != 0),
        r.small_trim_threshold == setting(
            environ@,
            "RS_TRIMMER_THRESHOLD",
            DEFAULT_TRIM_THRESHOLD as int,
        ),
        r.big_trim_threshold == r.small_trim_threshold,
        r.disable_relief == (setting(environ@, "RS_ENABLE_RELIEF", 1) != 0),
        r.segmented_bitmap_disable_percentage == at_most(
            setting(environ@, "RS_BUDDY_RELIEF_DISABLE_PERCENTAGE", 85),
            100,
        ),
        r.segmented_bitmap_enable_percentage == at_most(
            setting(environ@, "RS_BUDDY_RELIEF_ENABLE_PERCENTAGE", 80),
            r.segmented_bitmap_disable_percentage as int,
        ),
        r.disable_thp == (setting(environ@, "RS_DISABLE_THP", 0) == 1),
        r.random_magic == (setting(environ@, "RS_DISABLE_RANDOMIZING", 0) == 0),
        !r.foreign_pointer_abort,
{
    let asked: usize = read_setting(environ, "RS_ARENA_SIZE", DEFAULT_ARENA_SIZE);
    let arena_size: usize = if asked < MIN_ARENA_SIZE {
        MIN_ARENA_SIZE
    } else {
        asked
    };
    let max_refill: usize = read_setting(environ, "RS_MAX_REFILL_RETRIES", 3);
    let init_batch: usize = read_setting(environ, "RS_PREDICTOR_INIT_BATCH", DEFAULT_BATCH);
    let per_cache: usize = read_setting(environ, "RS_BUDDY_PER_CACHE_SIZE", MIN_BUDDY_CACHE);
    let buddy_max: usize = buddy_cache_size(per_cache);
    let attempt_huge: bool = read_setting(environ, "RS_BUDDY_ATTEMPT_HUGEPAGE", 0) != 0;
    let disable_trim: bool = read_setting(environ, "RS_DISABLE_TRIM_THREAD", 0) != 0;
    let threshold: usize = read_setting(environ, "RS_TRIMMER_THRESHOLD", DEFAULT_TRIM_THRESHOLD);
    let disable_relief: bool = read_setting(environ, "RS_ENABLE_RELIEF", 1) != 0;
    let disable: usize = read_setting(environ, "RS_BUDDY_RELIEF_DISABLE_PERCENTAGE", 85);
    let disable_percentage: usize = if disable < 100 {
        disable
    } else {
        100
    };
    let enable: usize = read_setting(environ, "RS_BUDDY_RELIEF_ENABLE_PERCENTAGE", 80);
    let enable_percentage: usize = if enable < disable_percentage {
        enable
    } else {
        disable_percentage
    };
    let disable_thp: bool = read_setting(environ, "RS_DISABLE_THP", 0) == 1;
    let random_magic: bool = read_setting(environ, "RS_DISABLE_RANDOMIZING", 0) == 0;
    BootstrapConfig::new(
        arena_size,
        max_refill,
        init_batch,
        buddy_max,
        attempt_huge,
        disable_trim,
        threshold,
        threshold,
        disable_relief,
        disable_percentage,
        enable_percentage,
        disable_thp,
        random_magic,
        false,
    )
}

/// The settings are what was configured, with the arena raised to the least size, and huge pages are
/// asked for in regions exactly where they are wanted there and not disabled.
pub proof fn law_settings_follow_the_configuration(c: BootstrapConfig)
    ensures
        ({
            let s = settings_of(c);
            &&& s.arena_size >= MIN_ARENA_SIZE && s.arena_size >= c.arena_size
            &&& s.arena_size == c.arena_size || s.arena_size == MIN_ARENA_SIZE
            &&& s.max_refill_retries == c.max_refill
            &&& s.predictor_init_batch == c.init_batch
            &&& s.buddy_max_cache == c.segmented_bitmap_max_cache
            &&& s.buddy_attempt_huge == c.segmented_bitmap_attempt_huge
            &&& s.buddy_thp <==> c.segmented_bitmap_attempt_huge && !c.disable_thp
            &&& s.disable_trim_thread == c.disable_trimmer
            &&& s.small_trim_threshold == c.small_trim_threshold
            &&& s.big_trim_threshold == c.big_trim_threshold
            &&& s.disable_relief == c.disable_relief
            &&& s.disable_percentage == c.segmented_bitmap_disable_percentage
            &&& s.enable_percentage == c.segmented_bitmap_enable_percentage
            &&& s.disable_thp == c.disable_thp
            &&& s.random_magic == c.random_magic
            &&& s.foreign_pointer_abort == c.foreign_pointer_abort
        }),
{
}

/// A name that the environment does not set has its fallback; one that it sets has the number of the
/// first entry that does, whatever the fallback is.
pub proof fn law_environment_overrides_the_fallback(
    environ: Seq<Vec<u8>>,
    name: &str,
    a: int,
    b: int,
)
    ensures
        env::unset(environ, name.spec_bytes()) ==> setting(environ, name, a) == a,
        !env::unset(environ, name.spec_bytes()) ==> setting(environ, name, a) == setting(
            environ,
            name,
            b,
        ),
        forall|i: int| #[trigger]
            env::first_setting(environ, name.spec_bytes(), i) ==> setting(environ, name, a)
                == env::leading_number(environ[i]@, name.spec_bytes().len() as int + 1),
{
    assert forall|i: int| #[trigger]
        env::first_setting(environ, name.spec_bytes(), i) implies setting(environ, name, a)
        == env::leading_number(environ[i]@, name.spec_bytes().len() as int + 1) by {
        env::law_first_entry_counts(environ, name.spec_bytes(), i);
    }
}

/// The cache of a region is kept within its limits and left alone inside them.
pub proof fn law_cache_is_within_limits(n: int)
    ensures
        MIN_BUDDY_CACHE <= buddy_cache_within(n) <= MAX_BUDDY_CACHE,
        MIN_BUDDY_CACHE <= n <= MAX_BUDDY_CACHE ==> buddy_cache_within(n) == n,
        n < MIN_BUDDY_CACHE ==> buddy_cache_within(n) == MIN_BUDDY_CACHE,
        n > MAX_BUDDY_CACHE ==> buddy_cache_within(n) == MAX_BUDDY_CACHE,
{
}

/// Rounding to a power of two gives one that is no less and below twice the number, where there is
/// one that fits.
pub proof fn law_rounded_powers(n: int, r: int)
    requires
        n >= 1,
        rounded_to_power(n, r),
    ensures
        r >= n,
        r < 2 * n,
        (exists|e: nat| #[trigger] power2::pow2(e) <= usize::MAX && power2::pow2(e) >= n)
            ==> crate::inner::align::is_power(r),
{
    if exists|e: nat| #[trigger] power2::pow2(e) <= usize::MAX && power2::pow2(e) >= n {
        let e = choose|e: nat| r == power2::pow2(e) && #[trigger] utility::ceil_log2(n, e);
        utility::law_least_power_is_near(n, e);
    }
}

/// The smaller of two numbers is one of them and no more than either.
pub proof fn law_at_most(n: int, limit: int)
    ensures
        at_most(n, limit) <= n,
        at_most(n, limit) <= limit,
        at_most(n, limit) == n || at_most(n, limit) == limit,
{
}

} // verus!
