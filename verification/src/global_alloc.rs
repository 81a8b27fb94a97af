//! The first interface of the global allocator, with its configuration.

use crate::backend::bootstrap::Settings;
use crate::core_prim::predictor::DEFAULT_BATCH;
use crate::core_prim::random;
use crate::core_prim::random::RandomFailure;
use crate::Magic;
use crate::RSMallocError;
use vstd::arithmetic::power2;
use vstd::prelude::*;

verus! {

pub const RSMALLOC_VERSION: &'static str = "0.1.0";

/// Bytes of a region of the buddy allocator unless something else is asked for.
pub const DEFAULT_BUDDY_CACHE: usize = 0x1000_0000;

pub const DEFAULT_TRIM_THRESHOLD: usize = 0xa0_0000;

pub const DEFAULT_ARENA_SIZE: usize = 0x1000_0000;

/// The marks that follow from one random word: the two words before it, going round at zero.
pub open spec fn marks_from(word: int, modulus: int) -> Magic {
    Magic {
        main: word as u64,
        freed: ((word - 1) % modulus) as u64,
        big: ((word - 2) % modulus) as u64,
    }
}

/// Number of words that fit in two bytes of a short header, or in eight of a long one.
pub open spec fn word_count(extended_header: bool) -> int {
    if extended_header {
        0x1_0000_0000_0000_0000
    } else {
        0x1_0000
    }
}

/// The marks that follow from one random word.
pub fn marks(word: u64, extended_header: bool) -> (r: Magic)
    requires
        word < word_count(extended_header),
    ensures
        r == marks_from(word as int, word_count(extended_header)),
        r.distinct(),
{
    if extended_header {
        let freed: u64 = word.wrapping_sub(1);
        return Magic { main: word, freed, big: freed.wrapping_sub(1) };
    }
    let freed: u64 = if word == 0 {
        0xffff
    } else {
        word - 1
    };
    let big: u64 = if freed == 0 {
        0xffff
    } else {
        freed - 1
    };
    Magic { main: word, freed, big }
}

/// Bytes that are drawn for the marks of a short or a long header.
pub open spec fn drawn_bytes(extended_header: bool) -> int {
    if extended_header {
        8
    } else {
        2
    }
}

/// The marks that follow from drawn bytes, read as one word with the least significant byte first.
pub fn marks_drawn(bytes: &Vec<u8>, extended_header: bool) -> (r: Magic)
    requires
        bytes@.len() == drawn_bytes(extended_header),
    ensures
        r == marks_from(random::le_value(bytes@), word_count(extended_header)),
        r.distinct(),
{
    proof {
        random::lemma_le_bound(bytes@);
        power2::lemma2_to64();
        power2::lemma2_to64_rest();
    }
    marks(random::from_le_bytes(bytes), extended_header)
}

/// Draws a random word from the system and gives the marks that follow from it.
pub fn init_magic(extended_header: bool) -> (r: Result<Magic, RandomFailure>)
    ensures
        r matches Ok(m) ==> m.distinct() && exists|bytes: Seq<u8>|
            bytes.len() == drawn_bytes(extended_header) && m == marks_from(
                #[trigger] random::le_value(bytes),
                word_count(extended_header),
            ),
        r matches Err(e) ==> {
            &&& e.error == RSMallocError::SecurityViolation
            &&& e.message@ == "calling getrandom failed, cannot initialize magic"@
        },
{
    let width: usize = if extended_header {
        8
    } else {
        2
    };
    match random::random_bytes(width) {
        Ok(bytes) => Ok(marks_drawn(&bytes, extended_header)),
        Err(errno) => Err(
            RandomFailure {
                error: RSMallocError::SecurityViolation,
                message: "calling getrandom failed, cannot initialize magic",
                errno,
            },
        ),
    }
}

/// The usable bytes of an allocation.
#[must_use]
#[derive(Clone, Copy, Debug, PartialEq, Eq, Structural)]
pub enum Size {
    RS(usize),
    /// The allocator does not own the address.
    NotRS,
}

#[derive(Clone, Copy, Debug, PartialEq, Eq, Structural)]
pub struct ExperimentalFeatures {}

/// How small caches predict their refills.
#[derive(Clone, Copy, Debug, PartialEq, Eq, Structural)]
pub struct RefillPredictorSettings {
    /// Blocks that the first refill asks for.
    pub init_batch: u8,
}

impl RefillPredictorSettings {
    pub fn new(init_batch: u8) -> (r: Self)
        ensures
            r.init_batch == init_batch,
    {
        RefillPredictorSettings { init_batch }
    }
}

impl Default for RefillPredictorSettings {
    fn default() -> (r: Self)
        ensures
            r.init_batch == DEFAULT_BATCH,
    {
        RefillPredictorSettings { init_batch: DEFAULT_BATCH as u8 }
    }
}

/// Transparent huge pages for mappings of the allocator.
#[derive(Clone, Copy, Debug, PartialEq, Eq, Structural)]
pub enum THP {
    Enabled,
    Disabled,
}

impl THP {
    fn enabled(self) -> (r: bool)
        ensures
            r == (self is Enabled),
    {
        matches!(self, THP::Enabled)
    }
}

/// Transparent huge pages for regions of the buddy allocator.
#[derive(Clone, Copy, Debug, PartialEq, Eq, Structural)]
pub enum BuddyTHP {
    Disabled,
    /// They are asked for when huge pages are enabled at all.
    Force,
}

impl BuddyTHP {
    fn enabled(self) -> (r: bool)
        ensures
            r == (self is Force),
    {
        matches!(self, BuddyTHP::Force)
    }
}

#[derive(Clone, Copy, Debug, PartialEq, Eq, Structural)]
pub struct THPSettings {
    pub thp: THP,
    pub buddy_use_thp: BuddyTHP,
}

impl THPSettings {
    pub fn new(thp: THP, buddy_use_thp: BuddyTHP) -> (r: Self)
        ensures
            r == (THPSettings { thp, buddy_use_thp }),
    {
        THPSettings { thp, buddy_use_thp }
    }
}

impl Default for THPSettings {
    fn default() -> (r: Self)
        ensures
            r == (THPSettings { thp: THP::Enabled, buddy_use_thp: BuddyTHP::Disabled }),
    {
        THPSettings { thp: THP::Enabled, buddy_use_thp: BuddyTHP::Disabled }
    }
}

/// How blocks are marked.
#[derive(Clone, Copy, Debug, PartialEq, Eq, Structural)]
pub enum MagicSafety {
    /// With random words.
    MagicRandomization,
    /// With the built-in words.
    FixedMagic(MagicSafetyDisable),
    /// The marks are not checked.
    Disabled(DisableMagic),
}

impl Default for MagicSafety {
    fn default() -> (r: Self)
        ensures
            r is MagicRandomization,
    {
        MagicSafety::MagicRandomization
    }
}

impl MagicSafety {
    fn is_fixed(&self) -> (r: bool)
        ensures
            r == (*self is FixedMagic),
    {
        matches!(self, MagicSafety::FixedMagic(_))
    }

    fn is_disabled(&self) -> (r: bool)
        ensures
            r == (*self is Disabled),
    {
        matches!(self, MagicSafety::Disabled(_))
    }
}

/// Shows that predictable marks were accepted knowingly.
#[derive(Clone, Copy, Debug, PartialEq, Eq, Structural)]
pub struct MagicSafetyDisable {
    accepted: bool,
}

impl MagicSafetyDisable {
    pub closed spec fn is_accepted(self) -> bool {
        self.accepted
    }

    /// Accepts that predictable marks weaken the detection of corruption.
    pub fn acknowledge_safety_risk() -> (r: Self)
        ensures
            r.is_accepted(),
    {
        MagicSafetyDisable { accepted: true }
    }
}

/// Shows that unchecked marks were accepted knowingly.
#[derive(Clone, Copy, Debug, PartialEq, Eq, Structural)]
pub struct DisableMagic {
    accepted: bool,
}

impl DisableMagic {
    pub closed spec fn is_accepted(self) -> bool {
        self.accepted
    }

    /// Accepts that without checks a block that is suspicious leaks instead of being reported.
    pub fn acknowledge_safety_risk() -> (r: Self)
        ensures
            r.is_accepted(),
    {
        DisableMagic { accepted: true }
    }
}

/// What becomes of addresses that another allocator owns.
#[derive(Clone, Copy, Debug, PartialEq, Eq, Structural)]
pub struct ForeignPointerSettings {
    pub global_alloc: ForeignPointerPolicy,
}

impl ForeignPointerSettings {
    pub fn new(global_alloc: ForeignPointerPolicy) -> (r: Self)
        ensures
            r.global_alloc == global_alloc,
    {
        ForeignPointerSettings { global_alloc }
    }
}

impl Default for ForeignPointerSettings {
    fn default() -> (r: Self)
        ensures
            r.global_alloc is Abort,
    {
        ForeignPointerSettings { global_alloc: ForeignPointerPolicy::Abort }
    }
}

#[derive(Clone, Copy, Debug, PartialEq, Eq, Structural)]
pub enum ForeignPointerPolicy {
    /// They are left alone, which can hide bugs.
    Ignore,
    Abort,
}

impl ForeignPointerPolicy {
    fn is_abort(&self) -> (r: bool)
        ensures
            r == (*self is Abort),
    {
        matches!(self, ForeignPointerPolicy::Abort)
    }
}

/// Size of a region of the buddy allocator.
#[derive(Clone, Copy, Debug, PartialEq, Eq, Structural)]
pub enum PerCacheLimit {
    Bytes(usize),
    Default,
}

impl PerCacheLimit {
    pub open spec fn spec_size(&self) -> usize {
        match *self {
            PerCacheLimit::Bytes(bytes) => bytes,
            PerCacheLimit::Default => DEFAULT_BUDDY_CACHE,
        }
    }

    fn get_size(&self) -> (r: usize)
        ensures
            r == self.spec_size(),
    {
        match self {
            PerCacheLimit::Bytes(bytes) => *bytes,
            PerCacheLimit::Default => DEFAULT_BUDDY_CACHE,
        }
    }
}

#[derive(Clone, Copy, Debug, PartialEq, Eq, Structural)]
pub enum TrimThread {
    Enabled,
    Disabled,
}

impl TrimThread {
    fn is_disabled(&self) -> (r: bool)
        ensures
            r == (*self is Disabled),
    {
        matches!(self, TrimThread::Disabled)
    }
}

#[derive(Clone, Copy, Debug, PartialEq, Eq, Structural)]
pub struct Bytes(pub usize);

#[derive(Clone, Copy, Debug, PartialEq, Eq, Structural)]
pub struct TrimThreadSettings {
    pub background_worker: TrimThread,
    pub threshold: Bytes,
}

impl Default for TrimThreadSettings {
    fn default() -> (r: Self)
        ensures
            r.background_worker is Enabled,
            r.threshold.0 == DEFAULT_TRIM_THRESHOLD,
    {
        TrimThreadSettings {
            background_worker: TrimThread::Enabled,
            threshold: Bytes(DEFAULT_TRIM_THRESHOLD),
        }
    }
}

#[derive(Clone, Copy, Debug, PartialEq, Eq, Structural)]
pub enum ReliefState {
    Enabled,
    Disabled,
}

impl ReliefState {
    fn is_disabled(&self) -> (r: bool)
        ensures
            r == (*self is Disabled),
    {
        matches!(self, ReliefState::Disabled)
    }
}

/// A percentage as it was given.
#[derive(Clone, Copy, Debug, PartialEq, Eq, Structural)]
pub struct Percentage(pub usize);

impl Percentage {
    pub fn new(value: usize) -> (r: Self)
        ensures
            r.0 == value,
    {
        Percentage(value)
    }

    pub fn get(self) -> (r: usize)
        ensures
            r == self.0,
    {
        self.0
    }
}

/// When the buddy allocator is put out of use for want of memory, and into use again.
#[derive(Clone, Copy, Debug, PartialEq, Eq, Structural)]
pub struct ReliefSettings {
    pub state: ReliefState,
    pub buddy_disable_percentage: Percentage,
    pub buddy_enable_percentage: Percentage,
}

impl ReliefSettings {
    #[must_use]
    pub fn new(
        state: ReliefState,
        buddy_disable_percentage: Percentage,
        buddy_enable_percentage: Percentage,
    ) -> (r: Self)
        ensures
            r == (ReliefSettings { state, buddy_disable_percentage, buddy_enable_percentage }),
    {
        ReliefSettings { state, buddy_disable_percentage, buddy_enable_percentage }
    }
}

impl Default for ReliefSettings {
    fn default() -> (r: Self)
        ensures
            r == (ReliefSettings {
                state: ReliefState::Disabled,
                buddy_disable_percentage: Percentage(85),
                buddy_enable_percentage: Percentage(80),
            }),
    {
        ReliefSettings {
            state: ReliefState::Disabled,
            buddy_disable_percentage: Percentage(85),
            buddy_enable_percentage: Percentage(80),
        }
    }
}

/// Configuration of the allocator, used once when it initializes.
#[must_use]
#[derive(Clone, Copy, Debug, PartialEq, Eq, Structural)]
pub struct RSMallocConfig {
    pub thp_settings: THPSettings,
    pub predictor_settings: RefillPredictorSettings,
    pub magic_safety: MagicSafety,
    pub foreign_pointer: ForeignPointerSettings,
    pub max_refill_retries: u8,
    pub max_per_buddy_cache: PerCacheLimit,
    pub experimental_features: ExperimentalFeatures,
    pub trim_thread: TrimThreadSettings,
    pub relief: ReliefSettings,
    /// Least bytes of an arena.
    pub arena_min_size: Bytes,
}

impl RSMallocConfig {
    /// Nothing is configured.
    pub open spec fn spec_default() -> Self {
        RSMallocConfig {
            thp_settings: THPSettings { thp: THP::Enabled, buddy_use_thp: BuddyTHP::Disabled },
            predictor_settings: RefillPredictorSettings { init_batch: 128 },
            magic_safety: MagicSafety::MagicRandomization,
            foreign_pointer: ForeignPointerSettings { global_alloc: ForeignPointerPolicy::Abort },
            max_refill_retries: 3,
            max_per_buddy_cache: PerCacheLimit::Default,
            experimental_features: ExperimentalFeatures {  },
            trim_thread: TrimThreadSettings {
                background_worker: TrimThread::Disabled,
                threshold: Bytes(DEFAULT_TRIM_THRESHOLD),
            },
            relief: ReliefSettings {
                state: ReliefState::Disabled,
                buddy_disable_percentage: Percentage(85),
                buddy_enable_percentage: Percentage(80),
            },
            arena_min_size: Bytes(DEFAULT_ARENA_SIZE),
        }
    }

    /// Nothing is configured but what becomes of addresses of other allocators.
    pub fn with_foreign_pointer_policy(policy: ForeignPointerSettings) -> (r: Self)
        ensures
            r == (RSMallocConfig { foreign_pointer: policy, ..Self::spec_default() }),
    {
        RSMallocConfig::default().with_foreign_pointer(policy)
    }

    pub fn with_experimental_features(&self, features: ExperimentalFeatures) -> (r: Self)
        ensures
            r == (RSMallocConfig { experimental_features: features, ..*self }),
    {
        RSMallocConfig { experimental_features: features, ..*self }
    }

    pub fn with_relief_settings(&self, relief: ReliefSettings) -> (r: Self)
        ensures
            r == (RSMallocConfig { relief, ..*self }),
    {
        RSMallocConfig { relief, ..*self }
    }

    pub fn with_thp_settings(&self, settings: THPSettings) -> (r: Self)
        ensures
            r == (RSMallocConfig { thp_settings: settings, ..*self }),
    {
        RSMallocConfig { thp_settings: settings, ..*self }
    }

    pub fn with_refill_predictor_settings(&self, settings: RefillPredictorSettings) -> (r: Self)
        ensures
            r == (RSMallocConfig { predictor_settings: settings, ..*self }),
    {
        RSMallocConfig { predictor_settings: settings, ..*self }
    }

    pub fn with_magic_safety(&self, safety: MagicSafety) -> (r: Self)
        ensures
            r == (RSMallocConfig { magic_safety: safety, ..*self }),
    {
        RSMallocConfig { magic_safety: safety, ..*self }
    }

    pub fn with_max_refill_retries(&self, retries: u8) -> (r: Self)
        ensures
            r == (RSMallocConfig { max_refill_retries: retries, ..*self }),
    {
        RSMallocConfig { max_refill_retries: retries, ..*self }
    }

    pub fn with_max_per_buddy_cache(&self, cache: PerCacheLimit) -> (r: Self)
        ensures
            r == (RSMallocConfig { max_per_buddy_cache: cache, ..*self }),
    {
        RSMallocConfig { max_per_buddy_cache: cache, ..*self }
    }

    pub fn with_foreign_pointer(&self, policy: ForeignPointerSettings) -> (r: Self)
        ensures
            r == (RSMallocConfig { foreign_pointer: policy, ..*self }),
    {
        RSMallocConfig { foreign_pointer: policy, ..*self }
    }

    pub fn with_trim_thread(&self, thread: TrimThreadSettings) -> (r: Self)
        ensures
            r == (RSMallocConfig { trim_thread: thread, ..*self }),
    {
        RSMallocConfig { trim_thread: thread, ..*self }
    }
}

impl Default for RSMallocConfig {
    fn default() -> (r: Self)
        ensures
            r == RSMallocConfig::spec_default(),
    {
        RSMallocConfig {
            thp_settings: THPSettings { thp: THP::Enabled, buddy_use_thp: BuddyTHP::Disabled },
            predictor_settings: RefillPredictorSettings { init_batch: 128 },
            magic_safety: MagicSafety::MagicRandomization,
            foreign_pointer: ForeignPointerSettings { global_alloc: ForeignPointerPolicy::Abort },
            max_refill_retries: 3,
            max_per_buddy_cache: PerCacheLimit::Default,
            experimental_features: ExperimentalFeatures {  },
            trim_thread: TrimThreadSettings {
                background_worker: TrimThread::Disabled,
                threshold: Bytes(DEFAULT_TRIM_THRESHOLD),
            },
            relief: ReliefSettings {
                state: ReliefState::Disabled,
                buddy_disable_percentage: Percentage(85),
                buddy_enable_percentage: Percentage(80),
            },
            arena_min_size: Bytes(DEFAULT_ARENA_SIZE),
        }
    }
}

/// The settings that a configuration asks for, and whether marks go unchecked.
pub open spec fn settings_of(c: RSMallocConfig) -> (Settings, bool) {
    let disable: usize = if c.relief.buddy_disable_percentage.0 < 100 {
        c.relief.buddy_disable_percentage.0
    } else {
        100
    };
    let enable = c.relief.buddy_enable_percentage.0;
    let huge = c.thp_settings.buddy_use_thp is Force;
    let disable_thp = !(c.thp_settings.thp is Enabled);
    (
        Settings {
            arena_size: c.arena_min_size.0,
            max_refill_retries: c.max_refill_retries as usize,
            predictor_init_batch: c.predictor_settings.init_batch as usize,
            buddy_max_cache: c.max_per_buddy_cache.spec_size(),
            buddy_attempt_huge: huge,
            buddy_thp: huge && !disable_thp,
            disable_trim_thread: c.trim_thread.background_worker is Disabled,
            small_trim_threshold: c.trim_thread.threshold.0,
            big_trim_threshold: c.trim_thread.threshold.0,
            disable_relief: c.relief.state is Disabled,
            disable_percentage: disable,
            enable_percentage: if enable < disable {
                enable
            } else {
                disable
            },
            disable_thp,
            random_magic: c.magic_safety is MagicRandomization,
            foreign_pointer_abort: c.foreign_pointer.global_alloc is Abort,
        },
        c.magic_safety is Disabled,
    )
}

/// The global allocator.
pub struct RSMalloc {
    config: RSMallocConfig,
}

/// How much to give back.
#[derive(Clone, Copy, Debug, PartialEq, Eq, Structural)]
pub enum RSMallocTrim {
    All,
    Request(usize),
}

impl RSMallocTrim {
    pub open spec fn spec_size(&self) -> usize {
        match *self {
            RSMallocTrim::All => 0,
            RSMallocTrim::Request(size) => size,
        }
    }

    /// What the small caches are asked for once the buddy allocator gave `freed` bytes: all they
    /// have, or what is missing.
    pub open spec fn rest(&self, freed: int) -> Option<usize> {
        match *self {
            RSMallocTrim::All => Some(0),
            RSMallocTrim::Request(size) => if freed < size {
                Some((size - freed) as usize)
            } else {
                None
            },
        }
    }

    /// Bytes that the buddy allocator is asked to give back first, zero standing for all.
    pub fn get_request_size(&self) -> (r: usize)
        ensures
            r == self.spec_size(),
    {
        match self {
            RSMallocTrim::All => 0,
            RSMallocTrim::Request(size) => *size,
        }
    }
}

/// What became of a trim.
#[must_use]
#[derive(Clone, Copy, Debug, PartialEq, Eq, Structural)]
pub enum RSTrimStatus {
    Disabled,
    Trimmed(usize),
    NothingToTrim,
}

impl RSTrimStatus {
    pub fn get_trim_size(&self) -> (r: usize)
        ensures
            r == match *self {
                RSTrimStatus::Trimmed(size) => size,
                _ => 0,
            },
    {
        match self {
            RSTrimStatus::Disabled => 0,
            RSTrimStatus::NothingToTrim => 0,
            RSTrimStatus::Trimmed(size) => *size,
        }
    }

    pub fn succeeded(&self) -> (r: bool)
        ensures
            r == (*self is Trimmed),
    {
        matches!(self, RSTrimStatus::Trimmed(_))
    }

    pub fn disabled(&self) -> (r: bool)
        ensures
            r == (*self is Disabled),
    {
        matches!(self, RSTrimStatus::Disabled)
    }
}

/// What the allocator can do.
#[derive(Clone, Copy, Debug, PartialEq, Eq)]
pub struct RSMallocCapabilities {
    pub thp_enabled: bool,
    pub numa_support: NumaSupport,
    pub version: &'static str,
}

#[derive(Clone, Copy, Debug, PartialEq, Eq, Structural)]
pub enum NumaSupport {
    Unsupported,
    Partial,
    Supported,
}

impl NumaSupport {
    pub fn is_unsupported(&self) -> (r: bool)
        ensures
            r == (*self is Unsupported),
    {
        matches!(self, NumaSupport::Unsupported)
    }

    pub fn is_partial(&self) -> (r: bool)
        ensures
            r == (*self is Partial),
    {
        matches!(self, NumaSupport::Partial)
    }

    pub fn is_supported(&self) -> (r: bool)
        ensures
            r == (*self is Supported),
    {
        matches!(self, NumaSupport::Supported)
    }
}

impl RSMalloc {
    pub closed spec fn spec_config(&self) -> RSMallocConfig {
        self.config
    }

    pub fn new_with_config(config: RSMallocConfig) -> (r: Self)
        ensures
            r.spec_config() == config,
    {
        RSMalloc { config }
    }

    pub fn new_default() -> (r: Self)
        ensures
            r.spec_config() == RSMallocConfig::spec_default(),
    {
        RSMalloc { config: RSMallocConfig::default() }
    }

    pub fn get_capabilities(&self) -> (r: RSMallocCapabilities)
        ensures
            r.thp_enabled == (self.spec_config().thp_settings.thp is Enabled),
            r.numa_support is Partial,
            r.version@ == RSMALLOC_VERSION@,
    {
        RSMallocCapabilities {
            thp_enabled: self.config.thp_settings.thp.enabled(),
            numa_support: NumaSupport::Partial,
            version: RSMALLOC_VERSION,
        }
    }

    /// Checks that the system registered restartable sequences, whose size and offset are given,
    /// and turns the configuration into settings; also tells whether marks go unchecked.
    pub fn init(&self, rseq_size: usize, rseq_offset: usize) -> (r: Result<
        (Settings, bool),
        RSMallocError,
    >)
        ensures
            r == (if rseq_size == 0 || rseq_offset == 0 {
                Err::<(Settings, bool), RSMallocError>(RSMallocError::RseqUnavailable)
            } else {
                Ok::<(Settings, bool), RSMallocError>(settings_of(self.spec_config()))
            }),
    {
        if rseq_size == 0 || rseq_offset == 0 {
            return Err(RSMallocError::RseqUnavailable);
        }
        let c = self.config;
        let asked: usize = c.relief.buddy_disable_percentage.get();
        let disable_percentage: usize = if asked < 100 {
            asked
        } else {
            100
        };
        let enable: usize = c.relief.buddy_enable_percentage.get();
        let disable_thp: bool = !c.thp_settings.thp.enabled();
        let huge: bool = c.thp_settings.buddy_use_thp.enabled();
        Ok(
            (
                Settings {
                    arena_size: c.arena_min_size.0,
                    max_refill_retries: c.max_refill_retries as usize,
                    predictor_init_batch: c.predictor_settings.init_batch as usize,
                    buddy_max_cache: c.max_per_buddy_cache.get_size(),
                    buddy_attempt_huge: huge,
                    buddy_thp: huge && !disable_thp,
                    disable_trim_thread: c.trim_thread.background_worker.is_disabled(),
                    small_trim_threshold: c.trim_thread.threshold.0,
                    big_trim_threshold: c.trim_thread.threshold.0,
                    disable_relief: c.relief.state.is_disabled(),
                    disable_percentage,
                    enable_percentage: if enable < disable_percentage {
                        enable
                    } else {
                        disable_percentage
                    },
                    disable_thp,
                    random_magic: !c.magic_safety.is_fixed() && !c.magic_safety.is_disabled(),
                    foreign_pointer_abort: c.foreign_pointer.global_alloc.is_abort(),
                },
                c.magic_safety.is_disabled(),
            ),
        )
    }

    /// Bytes that the small caches are asked to give back once the buddy allocator gave `freed` of
    /// what was asked of it, zero standing for all; `None` when they are not asked.
    pub fn trim_rest(&self, trim: RSMallocTrim, freed: usize) -> (r: Option<usize>)
        ensures
            r == trim.rest(freed as int),
    {
        match trim {
            RSMallocTrim::All => Some(0),
            RSMallocTrim::Request(requested) => {
                if freed < requested {
                    Some(requested - freed)
                } else {
                    None
                }
            },
        }
    }

    /// The bytes that were given back, once the buddy allocator gave `freed` and the small caches,
    /// as far as they were asked, `small`.
    pub fn rs_trim(&self, trim: RSMallocTrim, freed: usize, small: usize) -> (r: RSTrimStatus)
        requires
            freed + small <= usize::MAX,
        ensures
            r == RSTrimStatus::Trimmed(
                (freed + if trim.rest(freed as int) is Some {
                    small as int
                } else {
                    0
                }) as usize,
            ),
    {
        if self.trim_rest(trim, freed).is_some() {
            return RSTrimStatus::Trimmed(freed + small);
        }
        RSTrimStatus::Trimmed(freed)
    }

    /// The usable bytes that the heap told, zero standing for an address that it does not own.
    pub fn rs_usable_size(&self, told: usize) -> (r: Size)
        ensures
            r == (if told == 0 {
                Size::NotRS
            } else {
                Size::RS(told)
            }),
    {
        if told == 0 {
            Size::NotRS
        } else {
            Size::RS(told)
        }
    }
}

/// The three marks differ, each fits in its header, and each is one less than the one before, going
/// round at zero.
pub proof fn law_marks_differ(word: int, extended_header: bool)
    requires
        0 <= word < word_count(extended_header),
    ensures
        ({
            let m = marks_from(word, word_count(extended_header));
            let top = if extended_header {
                0xffff_ffff_ffff_ffffu64
            } else {
                0xffffu64
            };
            &&& m.main == word
            &&& m.main <= top && m.freed <= top && m.big <= top
            &&& m.main > 0 ==> m.freed == m.main - 1
            &&& m.main == 0 ==> m.freed == top
            &&& m.freed > 0 ==> m.big == m.freed - 1
            &&& m.freed == 0 ==> m.big == top
            &&& m.distinct()
        }),
{
    if extended_header {
        assert((word - 1) % 0x1_0000_0000_0000_0000 == if word == 0 {
            0xffff_ffff_ffff_ffff
        } else {
            word - 1
        });
        assert((word - 2) % 0x1_0000_0000_0000_0000 == if word < 2 {
            word + 0xffff_ffff_ffff_fffe
        } else {
            word - 2
        });
    } else {
        assert((word - 1) % 0x1_0000 == if word == 0 {
            0xffff
        } else {
            word - 1
        });
        assert((word - 2) % 0x1_0000 == if word < 2 {
            word + 0xfffe
        } else {
            word - 2
        });
    }
}

/// As many words as the bytes that are drawn can spell.
pub proof fn law_words_of_a_header(extended_header: bool)
    ensures
        drawn_bytes(extended_header) == if extended_header {
            8int
        } else {
            2
        },
        word_count(extended_header) == power2::pow2((8 * drawn_bytes(extended_header)) as nat),
{
    power2::lemma2_to64();
    power2::lemma2_to64_rest();
    power2::lemma_pow2_unfold(64);
}

/// The settings are what was configured: trimming, relief and huge pages are disabled exactly where
/// the configuration disables them, numbers are the configured ones, and percentages are kept in
/// order and at most 100.
pub proof fn law_settings_follow_the_configuration(c: RSMallocConfig)
    ensures
        ({
            let (s, unchecked) = settings_of(c);
            &&& s.disable_trim_thread <==> c.trim_thread.background_worker == TrimThread::Disabled
            &&& s.disable_relief <==> c.relief.state == ReliefState::Disabled
            &&& s.disable_thp <==> c.thp_settings.thp == THP::Disabled
            &&& s.buddy_attempt_huge <==> c.thp_settings.buddy_use_thp == BuddyTHP::Force
            &&& s.buddy_thp <==> c.thp_settings.buddy_use_thp == BuddyTHP::Force
                && c.thp_settings.thp == THP::Enabled
            &&& s.small_trim_threshold == c.trim_thread.threshold.0
            &&& s.big_trim_threshold == c.trim_thread.threshold.0
            &&& s.arena_size == c.arena_min_size.0
            &&& s.max_refill_retries == c.max_refill_retries
            &&& s.predictor_init_batch == c.predictor_settings.init_batch
            &&& c.max_per_buddy_cache matches PerCacheLimit::Bytes(n) ==> s.buddy_max_cache == n
            &&& c.max_per_buddy_cache == PerCacheLimit::Default ==> s.buddy_max_cache
                == DEFAULT_BUDDY_CACHE
            &&& s.enable_percentage <= s.disable_percentage <= 100
            &&& c.relief.buddy_disable_percentage.0 <= 100 ==> s.disable_percentage
                == c.relief.buddy_disable_percentage.0
            &&& c.relief.buddy_enable_percentage.0 <= s.disable_percentage ==> s.enable_percentage
                == c.relief.buddy_enable_percentage.0
            &&& c.relief.buddy_enable_percentage.0 > s.disable_percentage ==> s.enable_percentage
                == s.disable_percentage
            &&& c.relief.buddy_disable_percentage.0 > 100 ==> s.disable_percentage == 100
            &&& s.random_magic <==> c.magic_safety is MagicRandomization
            &&& unchecked <==> c.magic_safety is Disabled
            &&& s.foreign_pointer_abort <==> c.foreign_pointer.global_alloc
                == ForeignPointerPolicy::Abort
        }),
{
}

/// What the small caches are asked for completes what the buddy allocator gave: together they reach
/// the request, and a request that is met asks for nothing more.
pub proof fn law_trim_stages_complete_each_other(trim: RSMallocTrim, freed: int)
    requires
        0 <= freed,
    ensures
        trim == RSMallocTrim::All ==> trim.spec_size() == 0 && trim.rest(freed) == Some(0usize),
        trim matches RSMallocTrim::Request(n) ==> trim.spec_size() == n && (trim.rest(freed) is None
            <==> freed >= n) && (trim.rest(freed) matches Some(more) ==> freed + more == n && more
            > 0),
{
}

/// What is used where nothing is configured can be used: the buddy allocator is taken out of use at a
/// higher share than it is taken back at, there is something to try and to refill, and nothing that
/// has to be asked for is switched on.
pub proof fn law_defaults()
    ensures
        ({
            let d = RSMallocConfig::spec_default();
            &&& d.relief.buddy_enable_percentage.0 < d.relief.buddy_disable_percentage.0 <= 100
            &&& d.relief.state is Disabled
            &&& d.trim_thread.background_worker is Disabled
            &&& d.magic_safety is MagicRandomization
            &&& d.foreign_pointer.global_alloc is Abort
            &&& d.predictor_settings.init_batch == 128
            &&& d.max_refill_retries == 3
            &&& d.max_per_buddy_cache is Default
            &&& d.thp_settings.thp is Enabled
            &&& d.thp_settings.buddy_use_thp is Disabled
        }),
{
}

} // verus!
