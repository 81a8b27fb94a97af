//! Configuration of the global allocator.
//!
//! [`Config`] keeps tuning for speed and memory retention apart from settings that weaken safety.

use crate::backend::bootstrap::BootstrapConfig;
use crate::backend::bootstrap::MIN_ARENA_SIZE;
use crate::core_prim::predictor::DEFAULT_BATCH;
use vstd::prelude::*;

verus! {

pub const DEFAULT_BUDDY_CACHE: usize = 0x400_0000;

pub const DEFAULT_TRIM_THRESHOLD: usize = 0xa0_0000;

pub const DEFAULT_ARENA_SIZE: usize = 0x1000_0000;

/// Transparent huge pages for mappings of the allocator.
#[derive(Clone, Copy, Debug, PartialEq, Eq, Structural)]
pub enum THP {
    /// They may be asked for.
    Enabled,
    /// They are never asked for.
    Disabled,
}

impl THP {
    fn enabled(self) -> (r: bool)
        ensures
            r == (self is Enabled),
    {
        matches!(self, THP::Enabled)
    }
}

/// Transparent huge pages for regions of the buddy allocator.
#[derive(Clone, Copy, Debug, PartialEq, Eq, Structural)]
pub enum BuddyTHP {
    Disabled,
    /// They are asked for when huge pages are enabled at all.
    Force,
}

impl BuddyTHP {
    fn enabled(self) -> (r: bool)
        ensures
            r == (self is Force),
    {
        matches!(self, BuddyTHP::Force)
    }
}

/// Transparent huge pages.
#[derive(Clone, Copy, Debug, PartialEq, Eq, Structural)]
pub struct THPSettings {
    pub thp: THP,
    /// Has no effect while huge pages are disabled.
    pub buddy_use_thp: BuddyTHP,
}

impl THPSettings {
    pub fn new(thp: THP, buddy_use_thp: BuddyTHP) -> (r: Self)
        ensures
            r == (THPSettings { thp, buddy_use_thp }),
    {
        THPSettings { thp, buddy_use_thp }
    }
}

impl Default for THPSettings {
    /// Huge pages are enabled, but not forced for the buddy allocator.
    fn default() -> (r: Self)
        ensures
            r == (THPSettings { thp: THP::Enabled, buddy_use_thp: BuddyTHP::Disabled }),
    {
        THPSettings { thp: THP::Enabled, buddy_use_thp: BuddyTHP::Disabled }
    }
}

/// Size of a region of the buddy allocator.
#[derive(Clone, Copy, Debug, PartialEq, Eq, Structural)]
pub enum PerCacheLimit {
    /// So many bytes, which the buddy allocator normalizes.
    Bytes(usize),
    Default,
}

impl PerCacheLimit {
    pub open spec fn spec_bytes(self) -> usize {
        match self {
            PerCacheLimit::Bytes(bytes) => bytes,
            PerCacheLimit::Default => DEFAULT_BUDDY_CACHE,
        }
    }

    fn bytes(self) -> (r: usize)
        ensures
            r == self.spec_bytes(),
    {
        match self {
            PerCacheLimit::Bytes(bytes) => bytes,
            PerCacheLimit::Default => DEFAULT_BUDDY_CACHE,
        }
    }
}

/// A number of bytes.
#[derive(Clone, Copy, Debug, PartialEq, Eq, Structural)]
pub struct Bytes(pub usize);

/// The thread that trims in the background.
#[derive(Clone, Copy, Debug, PartialEq, Eq, Structural)]
pub enum TrimThread {
    Enabled,
    /// Nothing is trimmed unless it is asked for.
    Disabled,
}

impl TrimThread {
    fn disabled(self) -> (r: bool)
        ensures
            r == (self is Disabled),
    {
        matches!(self, TrimThread::Disabled)
    }
}

/// Trimming in the background.
#[derive(Clone, Copy, Debug, PartialEq, Eq, Structural)]
pub struct TrimSettings {
    pub background_worker: TrimThread,
    /// Cached bytes from which on it happens.
    pub threshold: Bytes,
}

impl TrimSettings {
    pub fn new(background_worker: TrimThread, threshold: Bytes) -> (r: Self)
        ensures
            r == (TrimSettings { background_worker, threshold }),
    {
        TrimSettings { background_worker, threshold }
    }
}

impl Default for TrimSettings {
    fn default() -> (r: Self)
        ensures
            r == (TrimSettings {
                background_worker: TrimThread::Enabled,
                threshold: Bytes(DEFAULT_TRIM_THRESHOLD),
            }),
    {
        TrimSettings {
            background_worker: TrimThread::Enabled,
            threshold: Bytes(DEFAULT_TRIM_THRESHOLD),
        }
    }
}

/// Whether the buddy allocator is put out of use while memory is short.
#[derive(Clone, Copy, Debug, PartialEq, Eq, Structural)]
pub enum ReliefState {
    Enabled,
    Disabled,
}

impl ReliefState {
    fn disabled(self) -> (r: bool)
        ensures
            r == (self is Disabled),
    {
        matches!(self, ReliefState::Disabled)
    }
}

/// A percentage between 0 and 100.
#[derive(Clone, Copy, Debug, PartialEq, Eq, Structural)]
pub struct Percentage {
    value: usize,
}

impl Percentage {
    pub closed spec fn value(self) -> usize {
        self.value
    }

    #[verifier::type_invariant]
    spec fn bounded(self) -> bool {
        self.value <= 100
    }

    /// A percentage, at most 100.
    pub fn new(value: usize) -> (r: Self)
        ensures
            r.value() == if value > 100 {
                100
            } else {
                value
            },
    {
        Percentage {
            value: if value > 100 {
                100
            } else {
                value
            },
        }
    }

    pub fn get(self) -> (r: usize)
        ensures
            r == self.value(),
            r <= 100,
    {
        proof {
            use_type_invariant(&self);
        }
        self.value
    }
}

/// When the buddy allocator is put out of use, and into use again.
#[derive(Clone, Copy, Debug, PartialEq, Eq, Structural)]
pub struct ReliefSettings {
    pub state: ReliefState,
    /// Pressure from which on it is out of use.
    pub buddy_disable_percentage: Percentage,
    /// Pressure down to which it stays out of use; lowered to the other one where it is above.
    pub buddy_enable_percentage: Percentage,
}

impl ReliefSettings {
    pub fn new(
        state: ReliefState,
        buddy_disable_percentage: Percentage,
        buddy_enable_percentage: Percentage,
    ) -> (r: Self)
        ensures
            r == (ReliefSettings { state, buddy_disable_percentage, buddy_enable_percentage }),
    {
        ReliefSettings { state, buddy_disable_percentage, buddy_enable_percentage }
    }
}

impl Default for ReliefSettings {
    fn default() -> (r: Self)
        ensures
            r.state is Disabled,
            r.buddy_disable_percentage.value() == 85,
            r.buddy_enable_percentage.value() == 80,
    {
        ReliefSettings {
            state: ReliefState::Disabled,
            buddy_disable_percentage: Percentage::new(85),
            buddy_enable_percentage: Percentage::new(80),
        }
    }
}

/// Tuning for speed and memory retention.
#[derive(Clone, Copy, Debug, PartialEq, Eq, Structural)]
pub struct Tuning {
    pub thp: THPSettings,
    /// Blocks that the first refill asks for.
    pub refill_init_batch: u8,
    pub max_refill_retries: u8,
    pub max_per_buddy_cache: PerCacheLimit,
    pub trim: TrimSettings,
    pub relief: ReliefSettings,
    /// Least bytes of an arena; never less than 256 KiB.
    pub arena_min_size: Bytes,
}

/// Nothing is tuned.
pub open spec fn is_default(t: Tuning) -> bool {
    &&& t.thp == (THPSettings { thp: THP::Enabled, buddy_use_thp: BuddyTHP::Disabled })
    &&& t.refill_init_batch == DEFAULT_BATCH
    &&& t.max_refill_retries == 3
    &&& t.max_per_buddy_cache is Default
    &&& t.trim == (TrimSettings {
        background_worker: TrimThread::Enabled,
        threshold: Bytes(DEFAULT_TRIM_THRESHOLD),
    })
    &&& t.relief.state is Disabled
    &&& t.relief.buddy_disable_percentage.value() == 85
    &&& t.relief.buddy_enable_percentage.value() == 80
    &&& t.arena_min_size == Bytes(DEFAULT_ARENA_SIZE)
}

impl Default for Tuning {
    fn default() -> (r: Self)
        ensures
            is_default(r),
    {
        Tuning {
            thp: THPSettings::default(),
            refill_init_batch: DEFAULT_BATCH as u8,
            max_refill_retries: 3,
            max_per_buddy_cache: PerCacheLimit::Default,
            trim: TrimSettings::default(),
            relief: ReliefSettings::default(),
            arena_min_size: Bytes(DEFAULT_ARENA_SIZE),
        }
    }
}

impl Tuning {
    #[must_use]
    pub fn with_thp(self, thp: THPSettings) -> (r: Self)
        ensures
            r == (Tuning { thp, ..self }),
    {
        Tuning { thp, ..self }
    }

    #[must_use]
    pub fn with_refill_init_batch(self, refill_init_batch: u8) -> (r: Self)
        ensures
            r == (Tuning { refill_init_batch, ..self }),
    {
        Tuning { refill_init_batch, ..self }
    }

    #[must_use]
    pub fn with_max_refill_retries(self, max_refill_retries: u8) -> (r: Self)
        ensures
            r == (Tuning { max_refill_retries, ..self }),
    {
        Tuning { max_refill_retries, ..self }
    }

    #[must_use]
    pub fn with_max_per_buddy_cache(self, max_per_buddy_cache: PerCacheLimit) -> (r: Self)
        ensures
            r == (Tuning { max_per_buddy_cache, ..self }),
    {
        Tuning { max_per_buddy_cache, ..self }
    }

    #[must_use]
    pub fn with_trim(self, trim: TrimSettings) -> (r: Self)
        ensures
            r == (Tuning { trim, ..self }),
    {
        Tuning { trim, ..self }
    }

    #[must_use]
    pub fn with_relief(self, relief: ReliefSettings) -> (r: Self)
        ensures
            r == (Tuning { relief, ..self }),
    {
        Tuning { relief, ..self }
    }

    #[must_use]
    pub fn with_arena_min_size(self, arena_min_size: Bytes) -> (r: Self)
        ensures
            r == (Tuning { arena_min_size, ..self }),
    {
        Tuning { arena_min_size, ..self }
    }
}

/// What safety rests on.
#[derive(Clone, Copy, Debug, PartialEq, Eq, Structural)]
pub struct SecurityState {
    pub randomize_magic: bool,
    pub abort_on_foreign_pointer: bool,
}

/// Whether the words that mark headers are random.
#[derive(Clone, Copy, Debug, PartialEq, Eq, Structural)]
pub enum MagicSafety {
    Randomized,
    /// They are the built-in ones, which weakens the detection of corruption.
    Fixed(MagicSafetyDisable),
}

/// Shows that predictable words were accepted knowingly.
#[derive(Clone, Copy, Debug, PartialEq, Eq, Structural)]
pub struct MagicSafetyDisable {
    accepted: bool,
}

impl MagicSafetyDisable {
    pub closed spec fn is_accepted(self) -> bool {
        self.accepted
    }

    /// Accepts that predictable words weaken the detection of corruption.
    pub fn acknowledge_safety_risk() -> (r: Self)
        ensures
            r.is_accepted(),
    {
        MagicSafetyDisable { accepted: true }
    }
}

/// What becomes of addresses that another allocator owns.
#[derive(Clone, Copy, Debug, PartialEq, Eq, Structural)]
pub enum ForeignPointerPolicy {
    Abort,
    /// They are left alone, which can hide bugs.
    Ignore,
}

/// Settings that can weaken safety.
#[derive(Clone, Copy, Debug, PartialEq, Eq, Structural)]
pub struct SecurityCritical {
    pub magic: MagicSafety,
    pub foreign_pointer: ForeignPointerPolicy,
}

impl Default for SecurityCritical {
    fn default() -> (r: Self)
        ensures
            r == (SecurityCritical {
                magic: MagicSafety::Randomized,
                foreign_pointer: ForeignPointerPolicy::Abort,
            }),
    {
        SecurityCritical {
            magic: MagicSafety::Randomized,
            foreign_pointer: ForeignPointerPolicy::Abort,
        }
    }
}

impl SecurityCritical {
    pub fn new(magic: MagicSafety, foreign_pointer: ForeignPointerPolicy) -> (r: Self)
        ensures
            r == (SecurityCritical { magic, foreign_pointer }),
    {
        SecurityCritical { magic, foreign_pointer }
    }

    pub open spec fn spec_state(self) -> SecurityState {
        SecurityState {
            randomize_magic: self.magic is Randomized,
            abort_on_foreign_pointer: self.foreign_pointer is Abort,
        }
    }

    fn state(self) -> (r: SecurityState)
        ensures
            r == self.spec_state(),
    {
        SecurityState {
            randomize_magic: matches!(self.magic, MagicSafety::Randomized),
            abort_on_foreign_pointer: matches!(self.foreign_pointer, ForeignPointerPolicy::Abort),
        }
    }
}

/// Configuration of the global allocator. It is used once, by the first allocator that
/// initializes.
#[derive(Clone, Copy, Debug, PartialEq, Eq, Structural)]
pub struct Config {
    pub tuning: Tuning,
    security: SecurityState,
}

impl Config {
    pub closed spec fn security(self) -> SecurityState {
        self.security
    }

    pub closed spec fn spec_tuning(self) -> Tuning {
        self.tuning
    }

    /// The configuration with custom tuning and everything that makes it safe.
    pub fn new(tuning: Tuning) -> (r: Self)
        ensures
            r.spec_tuning() == tuning,
            r.security() == (SecurityState {
                randomize_magic: true,
                abort_on_foreign_pointer: true,
            }),
    {
        Config {
            tuning,
            security: SecurityState { randomize_magic: true, abort_on_foreign_pointer: true },
        }
    }

    /// Replaces the tuning and keeps what safety rests on.
    #[must_use]
    pub fn with_tuning(self, tuning: Tuning) -> (r: Self)
        ensures
            r.spec_tuning() == tuning,
            r.security() == self.security(),
    {
        Config { tuning, ..self }
    }

    /// Replaces what safety rests on and keeps the tuning.
    #[must_use]
    pub fn with_security_critical(self, settings: SecurityCritical) -> (r: Self)
        ensures
            r.spec_tuning() == self.spec_tuning(),
            r.security() == settings.spec_state(),
    {
        Config { security: settings.state(), ..self }
    }

    /// The percentages are at most 100, as all are.
    pub open spec fn bounded(self) -> bool {
        &&& self.spec_tuning().relief.buddy_disable_percentage.value() <= 100
        &&& self.spec_tuning().relief.buddy_enable_percentage.value() <= 100
    }

    /// What the allocator is set up with.
    pub open spec fn spec_bootstrap(self) -> BootstrapConfig {
        let t = self.spec_tuning();
        let disable = t.relief.buddy_disable_percentage.value();
        let enable = t.relief.buddy_enable_percentage.value();
        BootstrapConfig {
            arena_size: if t.arena_min_size.0 < MIN_ARENA_SIZE {
                MIN_ARENA_SIZE
            } else {
                t.arena_min_size.0
            },
            max_refill: t.max_refill_retries as usize,
            init_batch: t.refill_init_batch as usize,
            segmented_bitmap_max_cache: t.max_per_buddy_cache.spec_bytes(),
            segmented_bitmap_attempt_huge: t.thp.buddy_use_thp is Force,
            disable_trimmer: t.trim.background_worker is Disabled,
            small_trim_threshold: t.trim.threshold.0,
            big_trim_threshold: t.trim.threshold.0,
            disable_relief: t.relief.state is Disabled,
            segmented_bitmap_disable_percentage: disable,
            segmented_bitmap_enable_percentage: if enable > disable {
                disable
            } else {
                enable
            },
            disable_thp: !(t.thp.thp is Enabled),
            random_magic: self.security().randomize_magic,
            foreign_pointer_abort: self.security().abort_on_foreign_pointer,
        }
    }

    /// What the allocator is set up with.
    pub fn bootstrap(self) -> (r: BootstrapConfig)
        ensures
            r == self.spec_bootstrap(),
            self.bounded(),
    {
        let disable_percentage: usize = self.tuning.relief.buddy_disable_percentage.get();
        let requested: usize = self.tuning.relief.buddy_enable_percentage.get();
        let enable_percentage: usize = if requested > disable_percentage {
            disable_percentage
        } else {
            requested
        };
        let asked: usize = self.tuning.arena_min_size.0;
        let arena_size: usize = if asked < MIN_ARENA_SIZE {
            MIN_ARENA_SIZE
        } else {
            asked
        };
        BootstrapConfig::new(
            arena_size,
            self.tuning.max_refill_retries as usize,
            self.tuning.refill_init_batch as usize,
            self.tuning.max_per_buddy_cache.bytes(),
            self.tuning.thp.buddy_use_thp.enabled(),
            self.tuning.trim.background_worker.disabled(),
            self.tuning.trim.threshold.0,
            self.tuning.trim.threshold.0,
            self.tuning.relief.state.disabled(),
            disable_percentage,
            enable_percentage,
            !self.tuning.thp.thp.enabled(),
            self.security.randomize_magic,
            self.security.abort_on_foreign_pointer,
        )
    }
}

impl Default for Config {
    fn default() -> (r: Self)
        ensures
            r.security() == (SecurityState {
                randomize_magic: true,
                abort_on_foreign_pointer: true,
            }),
            is_default(r.spec_tuning()),
    {
        Config::new(Tuning::default())
    }
}

/// Whatever is configured, the buddy allocator is never put into use again at a pressure at which
/// it is put out of use, both are percentages, and arenas have at least the minimum size.
pub proof fn law_bootstrap_is_sane(c: Config)
    requires
        c.bounded(),
    ensures
        c.spec_bootstrap().segmented_bitmap_disable_percentage <= 100,
        c.spec_bootstrap().segmented_bitmap_enable_percentage
            <= c.spec_bootstrap().segmented_bitmap_disable_percentage,
        c.spec_bootstrap().arena_size >= MIN_ARENA_SIZE,
{
}

/// What the allocator is set up with is what was configured: background trimming, relief and huge
/// pages are disabled exactly where the configuration disables them, thresholds, retries and batches
/// are the configured ones, and what safety rests on is kept.
pub proof fn law_bootstrap_follows_the_configuration(c: Config)
    ensures
        ({
            let t = c.spec_tuning();
            let b = c.spec_bootstrap();
            &&& b.disable_trimmer <==> t.trim.background_worker == TrimThread::Disabled
            &&& b.disable_relief <==> t.relief.state == ReliefState::Disabled
            &&& b.disable_thp <==> t.thp.thp == THP::Disabled
            &&& b.segmented_bitmap_attempt_huge <==> t.thp.buddy_use_thp == BuddyTHP::Force
            &&& b.small_trim_threshold == t.trim.threshold.0
            &&& b.big_trim_threshold == t.trim.threshold.0
            &&& b.max_refill == t.max_refill_retries
            &&& b.init_batch == t.refill_init_batch
            &&& b.arena_size >= t.arena_min_size.0
            &&& t.arena_min_size.0 >= MIN_ARENA_SIZE ==> b.arena_size == t.arena_min_size.0
            &&& b.arena_size == t.arena_min_size.0 || b.arena_size == MIN_ARENA_SIZE
            &&& t.max_per_buddy_cache matches PerCacheLimit::Bytes(n)
                ==> b.segmented_bitmap_max_cache == n
            &&& t.max_per_buddy_cache == PerCacheLimit::Default ==> b.segmented_bitmap_max_cache
                == DEFAULT_BUDDY_CACHE
            &&& b.segmented_bitmap_disable_percentage == t.relief.buddy_disable_percentage.value()
            &&& b.segmented_bitmap_enable_percentage
                <= t.relief.buddy_enable_percentage.value()
            &&& t.relief.buddy_enable_percentage.value()
                <= t.relief.buddy_disable_percentage.value()
                ==> b.segmented_bitmap_enable_percentage
                == t.relief.buddy_enable_percentage.value()
            &&& t.relief.buddy_enable_percentage.value()
                > t.relief.buddy_disable_percentage.value()
                ==> b.segmented_bitmap_enable_percentage
                == t.relief.buddy_disable_percentage.value()
            &&& b.random_magic == c.security().randomize_magic
            &&& b.foreign_pointer_abort == c.security().abort_on_foreign_pointer
        }),
{
}

/// Tuning changes nothing that safety rests on, and safety settings change no tuning: two
/// configurations with the same tuning differ in the marks and in foreign addresses only.
pub proof fn law_tuning_and_safety_are_independent(a: Config, b: Config)
    ensures
        a.security() == b.security() ==> a.spec_bootstrap().random_magic
            == b.spec_bootstrap().random_magic && a.spec_bootstrap().foreign_pointer_abort
            == b.spec_bootstrap().foreign_pointer_abort,
        a.spec_tuning() == b.spec_tuning() ==> b.spec_bootstrap() == (BootstrapConfig {
            random_magic: b.spec_bootstrap().random_magic,
            foreign_pointer_abort: b.spec_bootstrap().foreign_pointer_abort,
            ..a.spec_bootstrap()
        }),
{
}

/// Only fixed marks are not random, and only where foreign addresses are ignored is nothing aborted.
pub proof fn law_safety_is_given_up_knowingly(s: SecurityCritical)
    ensures
        s.spec_state().randomize_magic <==> s.magic == MagicSafety::Randomized,
        s.spec_state().abort_on_foreign_pointer <==> s.foreign_pointer
            == ForeignPointerPolicy::Abort,
{
}

} // verus!
