//! Handing out small blocks and refilling their caches.

use crate::inner::free;
use crate::internals::l3_main_radix::RadixTree;
use crate::BigAllocMeta;
use crate::Flags;
use crate::Header;
use crate::Magic;
use crate::RSMallocError;
use vstd::prelude::*;

verus! {

/// What a refill says about the prediction that asked for it.
#[derive(Clone, Copy, Debug, PartialEq, Eq, Structural)]
pub enum Prediction {
    Fair,
    /// More was asked for than there was.
    Over,
    /// More could have been asked for.
    Under,
}

/// What has to be known before a prediction is judged.
#[derive(Clone, Copy, Debug, PartialEq, Eq, Structural)]
pub enum Probe {
    Settled(Prediction),
    /// The cache has to be asked for so many blocks more.
    Ask(usize),
}

/// What a refill does next.
#[derive(Clone, Copy, Debug, PartialEq, Eq, Structural)]
pub enum RefillStep {
    /// Carve a batch from fresh pages.
    Carve,
    /// The batch is there; the predictor learns this demand.
    Take(usize),
    /// Pop a single block from the cache, if there is one.
    PopOne,
}

/// The demand that a batch of `count` blocks shows: a batch that came back whole may have been too
/// small, up to a limit.
pub open spec fn demand(count: int, batch: int, limit: int) -> int {
    if count == batch && batch < limit {
        let more = batch + if batch / 4 < 1 {
            1
        } else {
            batch / 4
        };
        if more > usize::MAX {
            usize::MAX as int
        } else {
            more
        }
    } else {
        count
    }
}

/// The demand that a batch of `count` blocks shows.
pub fn observed_demand(count: usize, batch: usize, limit: usize) -> (r: usize)
    ensures
        r == demand(count as int, batch as int, limit as int),
{
    if count == batch && batch < limit {
        let quarter: usize = batch / 4;
        batch.saturating_add(
            if quarter < 1 {
                1
            } else {
                quarter
            },
        )
    } else {
        count
    }
}

/// Judges the prediction of `wanted` blocks by the `count` that came.
pub fn record_refill_prediction(count: usize, wanted: usize, limit: usize) -> (r: Prediction)
    ensures
        r == (if wanted <= 1 || count <= 1 {
            Prediction::Fair
        } else if count * 2 < wanted {
            Prediction::Over
        } else if count == wanted && 8 <= wanted < limit {
            Prediction::Under
        } else {
            Prediction::Fair
        }),
{
    if wanted <= 1 || count <= 1 {
        return Prediction::Fair;
    }
    if count < wanted && count < wanted - count {
        return Prediction::Over;
    }
    if count == wanted && wanted >= 8 && wanted < limit {
        return Prediction::Under;
    }
    Prediction::Fair
}

/// Judges the prediction of `wanted` blocks by the `count` that came, or tells how many more the
/// cache has to be asked for first.
pub fn probe_prediction(count: usize, wanted: usize, limit: usize, can_probe_more: bool) -> (r:
    Probe)
    ensures
        r == (if wanted <= 1 || count == 0 {
            Probe::Settled(Prediction::Fair)
        } else if count < wanted {
            if can_probe_more {
                Probe::Ask((wanted - count) as usize)
            } else {
                Probe::Settled(Prediction::Over)
            }
        } else if can_probe_more && 8 <= wanted < limit {
            Probe::Ask(1)
        } else {
            Probe::Settled(Prediction::Fair)
        }),
{
    if wanted <= 1 || count == 0 {
        return Probe::Settled(Prediction::Fair);
    }
    if !can_probe_more {
        if count < wanted {
            return Probe::Settled(Prediction::Over);
        }
        return Probe::Settled(Prediction::Fair);
    }
    if count < wanted {
        return Probe::Ask(wanted - count);
    }
    if wanted >= 8 && wanted < limit {
        return Probe::Ask(1);
    }
    Probe::Settled(Prediction::Fair)
}

/// Judges a prediction once the cache had `extra` blocks more.
pub fn settle_prediction(count: usize, wanted: usize, extra: usize) -> (r: Prediction)
    ensures
        r == (if count < wanted {
            if count + extra < wanted {
                Prediction::Over
            } else {
                Prediction::Fair
            }
        } else if extra > 0 {
            Prediction::Under
        } else {
            Prediction::Fair
        }),
{
    if count < wanted {
        if extra < wanted - count {
            return Prediction::Over;
        }
        return Prediction::Fair;
    }
    if extra > 0 {
        Prediction::Under
    } else {
        Prediction::Fair
    }
}

/// Splits a batch into the block that is handed out and those that go to the cache.
pub fn take_one_from_batch(batch: Vec<usize>) -> (r: (usize, Vec<usize>))
    requires
        batch@.len() > 0,
    ensures
        r.0 == batch@[0],
        r.1@ == batch@.subrange(1, batch@.len() as int),
{
    let mut rest = batch;
    let first = rest.remove(0);
    assert(rest@ =~= batch@.subrange(1, batch@.len() as int));
    (first, rest)
}

/// What follows a look into the cache for a batch: with blocks, the demand that the predictor
/// learns; without, a refill.
pub fn fill(found: bool, count: usize, batch: usize, limit: usize) -> (r: Option<usize>)
    ensures
        r == (if found {
            Some(demand(count as int, batch as int, limit as int) as usize)
        } else {
            None
        }),
{
    if found {
        Some(observed_demand(count, batch, limit))
    } else {
        None
    }
}

/// A refill that tries a limited number of times to carve a batch.
#[derive(Clone, Copy, Debug, PartialEq, Eq, Structural)]
pub struct Refill {
    /// Tries that are left.
    pub left: usize,
}

impl Refill {
    pub fn new(tries: usize) -> (r: Self)
        ensures
            r.left == tries,
    {
        Refill { left: tries }
    }

    /// What to do next.
    pub open spec fn spec_next(&self) -> RefillStep {
        if self.left > 0 {
            RefillStep::Carve
        } else {
            RefillStep::PopOne
        }
    }

    /// What to do first.
    pub fn next(&self) -> (r: RefillStep)
        ensures
            r == self.spec_next(),
    {
        if self.left > 0 {
            RefillStep::Carve
        } else {
            RefillStep::PopOne
        }
    }

    /// Continues after a try, with the number of blocks that it gave.
    pub fn refill(&mut self, carved: Option<usize>, batch: usize, limit: usize) -> (r: RefillStep)
        requires
            old(self).left > 0,
        ensures
            final(self).left == old(self).left - 1,
            r == match carved {
                Some(count) => RefillStep::Take(
                    demand(count as int, batch as int, limit as int) as usize,
                ),
                None => final(self).spec_next(),
            },
    {
        self.left = self.left - 1;
        match carved {
            Some(count) => RefillStep::Take(observed_demand(count, batch, limit)),
            None => self.next(),
        }
    }
}

/// With `check`, an address that came from the allocator's own lists but is not owned is taken for
/// forged.
pub fn check_owned(radix: &RadixTree, addr: usize, check: bool) -> (r: Result<(), RSMallocError>)
    requires
        radix.wf(),
    ensures
        r == (if check && !free::owned(radix, addr as int) {
            Err::<(), RSMallocError>(RSMallocError::AttackOrCorruption)
        } else {
            Ok::<(), RSMallocError>(())
        }),
{
    if check && !radix.is_owned(addr) {
        return Err(RSMallocError::AttackOrCorruption);
    }
    Ok(())
}

/// Marks the header at `block` as in use and gives its payload; zero stands for no block. With
/// `check` a block that is not owned is taken for forged.
pub fn rs_alloc(
    radix: &RadixTree,
    block: usize,
    header: &mut Header,
    header_size: usize,
    magic: Magic,
    check: bool,
) -> (r: Result<usize, RSMallocError>)
    requires
        radix.wf(),
        block + header_size <= usize::MAX,
    ensures
        block == 0 ==> r == Ok::<usize, RSMallocError>(0),
        block != 0 && check && !free::owned(radix, block as int) ==> r == Err::<
            usize,
            RSMallocError,
        >(RSMallocError::AttackOrCorruption),
        block != 0 && (!check || free::owned(radix, block as int)) ==> {
            &&& r == Ok::<usize, RSMallocError>((block + header_size) as usize)
            &&& *final(header) == Header {
                magic: magic.main,
                flags: Flags::Allocated,
                ..*old(header)
            }
        },
        r != Ok::<usize, RSMallocError>((block + header_size) as usize) || block == 0
            ==> *final(header) == *old(header),
{
    if block == 0 {
        return Ok(0);
    }
    if let Err(e) = check_owned(radix, block, check) {
        return Err(e);
    }
    header.magic = magic.main;
    header.flags = Flags::Allocated;
    Ok(block + header_size)
}

/// What a question for usable bytes starts with.
#[derive(Clone, Copy, Debug, PartialEq, Eq, Structural)]
pub enum UsableStart {
    /// The metadata tells.
    Inspect,
    /// The allocator behind this one is asked.
    Fallback,
    /// There are none.
    Nothing,
}

/// What a question for the usable bytes at `ptr` starts with. No metadata is read unless the
/// address is owned.
pub fn usable_start(radix: &RadixTree, ptr: usize, fallback: bool) -> (r: UsableStart)
    requires
        radix.wf(),
    ensures
        r == (if free::owned(radix, ptr as int) {
            UsableStart::Inspect
        } else if fallback {
            UsableStart::Fallback
        } else {
            UsableStart::Nothing
        }),
{
    if radix.is_owned(ptr) {
        UsableStart::Inspect
    } else if fallback {
        UsableStart::Fallback
    } else {
        UsableStart::Nothing
    }
}

/// Bytes of a payload behind an address inside it.
pub open spec fn behind(payload: int, offset: int) -> int {
    if payload >= offset {
        payload - offset
    } else {
        0
    }
}

/// Bytes that can be used from `ptr` on, in the allocation whose payload starts at `original`
/// behind `header`. `meta` is what is recorded of a large payload there; small ones have the size
/// of their class.
pub fn usable_size(
    meta: Option<BigAllocMeta>,
    ptr: usize,
    original: usize,
    header: Header,
    magic: Magic,
    class_size: usize,
) -> (r: Result<usize, RSMallocError>)
    requires
        original <= ptr,
    ensures
        r == (if header.magic != magic.big {
            Ok::<usize, RSMallocError>(behind(class_size as int, ptr - original) as usize)
        } else {
            match meta {
                Some(m) => Ok::<usize, RSMallocError>(
                    behind(m.size as int, ptr - original) as usize,
                ),
                None => Err::<usize, RSMallocError>(RSMallocError::MemoryCorruption),
            }
        }),
{
    let offset: usize = ptr - original;
    if header.magic == magic.big {
        return match meta {
            Some(m) => Ok(m.size.saturating_sub(offset)),
            None => Err(RSMallocError::MemoryCorruption),
        };
    }
    Ok(class_size.saturating_sub(offset))
}

/// An allocated small block is told apart from a freed one and a large one when it comes back.
pub proof fn law_allocated_block_can_be_freed(header: Header, magic: Magic)
    requires
        header.magic == magic.main,
    ensures
        free::freed(header, magic, true) == free::FreeEnd::Push(header.class),
{
}

/// A batch that came back whole, below the limit, shows a demand beyond it, by a quarter or at least
/// one; any other shows what came.
pub proof fn law_demand(count: int, batch: int, limit: int)
    requires
        0 <= count <= usize::MAX,
        0 <= batch <= usize::MAX / 2,
        limit <= usize::MAX,
    ensures
        demand(count, batch, limit) >= count,
        count != batch || batch >= limit ==> demand(count, batch, limit) == count,
        count == batch && batch < limit ==> {
            &&& demand(count, batch, limit) > batch
            &&& 4 * (demand(count, batch, limit) - batch) <= batch || demand(count, batch, limit)
                == batch + 1
            &&& 4 * (demand(count, batch, limit) - batch) + 4 > batch
        },
{
}

/// What lies behind an address inside a payload ends where the payload ends.
pub proof fn law_usable_bytes_end_with_the_payload(payload: int, offset: int)
    requires
        0 <= payload,
        0 <= offset,
    ensures
        offset <= payload ==> offset + behind(payload, offset) == payload,
        offset > payload ==> behind(payload, offset) == 0,
{
}

/// A refill carves as long as tries are left, and only then takes what the cache still has.
pub proof fn law_refill_tries_first(r: Refill)
    ensures
        r.left > 0 ==> r.spec_next() == RefillStep::Carve,
        r.left == 0 ==> r.spec_next() == RefillStep::PopOne,
{
}

} // verus!
