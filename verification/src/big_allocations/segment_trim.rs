//! Giving the pages of free slots back to the system.

use crate::big_allocations::segment;
use crate::big_allocations::segment::{Segment, SLOT_BYTES};
use crate::internals::mask;
use vstd::prelude::*;

verus! {

/// No sum of the ages of the slots of one segment is larger.
pub const SEGMENT_AGES: u64 = 0xf_ffff_fff0;

/// What a trim achieved and what it saw.
#[derive(Clone, Copy, Debug, PartialEq, Eq, Structural)]
pub struct TrimStats {
    /// Bytes whose pages were given back.
    pub bytes: usize,
    /// Sum of the ages of the slots that were looked at.
    pub ages: u64,
    /// How many slots were looked at.
    pub samples: u64,
}

impl TrimStats {
    /// Statistics of a trim that has not begun.
    pub open spec fn empty() -> Self {
        TrimStats { bytes: 0, ages: 0, samples: 0 }
    }

    /// The average time that blocks stay free, after one that was `previous`: the newest average
    /// counts for a quarter, halves are rounded up, and all is kept within one and sixty seconds.
    pub open spec fn blended(average: int, previous: int) -> int {
        let mean = (average + 3 * previous + 2) / 4;
        if mean < 10 {
            10
        } else if mean > 600 {
            600
        } else {
            mean
        }
    }

    /// The average time to go by from now on; `None` when nothing was learnt.
    pub fn finish(&self, previous: u32) -> (r: Option<u32>)
        ensures
            r is Some <==> self.samples != 0,
            r matches Some(time) ==> {
                let mean = self.ages as int / self.samples as int;
                time == Self::blended(
                    if mean < 10 {
                        10
                    } else if mean > 600 {
                        600
                    } else {
                        mean
                    },
                    previous as int,
                )
            },
    {
        match self.average() {
            None => None,
            Some(average) => {
                let mean: u64 = (average + 3 * previous as u64 + 2) / 4;
                Some(
                    if mean < 10 {
                        10
                    } else if mean > 600 {
                        600
                    } else {
                        mean as u32
                    },
                )
            },
        }
    }

    /// The average age of the slots that were looked at, kept within one and sixty seconds.
    pub fn average(&self) -> (r: Option<u64>)
        ensures
            r is Some <==> self.samples != 0,
            r matches Some(average) ==> average == {
                let mean = self.ages as int / self.samples as int;
                if mean < 10 {
                    10
                } else if mean > 600 {
                    600
                } else {
                    mean
                }
            },
    {
        if self.samples == 0 {
            return None;
        }
        let mean: u64 = self.ages / self.samples;
        if mean < 10 {
            Some(10)
        } else if mean > 600 {
            Some(600)
        } else {
            Some(mean)
        }
    }
}

impl Default for TrimStats {
    fn default() -> (r: Self)
        ensures
            r == TrimStats::empty(),
    {
        TrimStats { bytes: 0, ages: 0, samples: 0 }
    }
}

/// A range of slots whose pages should be given back.
#[derive(Clone, Copy, Debug, PartialEq, Eq, Structural)]
pub struct TrimRange {
    pub slot: usize,
    pub count: usize,
    pub addr: usize,
    pub bytes: usize,
}

/// Which slots a trim takes: all of them when forced, otherwise those free for longer than the
/// average.
#[derive(Clone, Copy, Debug, PartialEq, Eq, Structural)]
pub struct TrimPolicy {
    pub now: u32,
    pub average: u32,
    pub force: bool,
    /// Bytes after which the trim may stop, zero for no limit.
    pub requested: usize,
}

impl TrimPolicy {
    /// A slot last given back at `stamp` may be trimmed.
    pub open spec fn takes(&self, stamp: u32) -> bool {
        self.force || segment::slot_age(stamp, self.now) > self.average
    }

    /// `freed` bytes are as many as were asked for.
    pub open spec fn reached(&self, freed: int) -> bool {
        self.requested != 0 && freed >= self.requested
    }

    /// What is left of the request after `freed` bytes were given back.
    pub open spec fn after(&self, freed: int) -> Self {
        TrimPolicy {
            requested: if freed >= self.requested {
                0
            } else {
                (self.requested - freed) as usize
            },
            ..*self
        }
    }

    /// Slots that a trim may still take after giving `freed` bytes back.
    pub open spec fn limit(&self, freed: int) -> int {
        if self.requested == 0 {
            16
        } else if freed >= self.requested {
            1
        } else {
            (self.requested - freed + SLOT_BYTES - 1) / (SLOT_BYTES as int)
        }
    }
}

/// Sum of the ages of the members of `m` below `hi`.
pub open spec fn ages_below(m: u16, stamps: Seq<u32>, now: u32, hi: int) -> int
    decreases hi,
{
    if hi <= 0 {
        0
    } else {
        ages_below(m, stamps, now, hi - 1) + if mask::bit(m, hi - 1) {
            segment::slot_age(stamps[hi - 1], now)
        } else {
            0
        }
    }
}

/// Number of members of `m` below `hi`.
pub open spec fn count_below(m: u16, hi: int) -> int
    decreases hi,
{
    if hi <= 0 {
        0
    } else {
        count_below(m, hi - 1) + if mask::bit(m, hi - 1) {
            1int
        } else {
            0
        }
    }
}

/// Sums over sixteen slots are small, and zero where there is no member.
proof fn lemma_sums(m: u16, stamps: Seq<u32>, now: u32, hi: int)
    requires
        0 <= hi <= 16,
    ensures
        0 <= ages_below(m, stamps, now, hi) <= hi * 0xffff_ffff,
        0 <= count_below(m, hi) <= hi,
        (forall|i: int| 0 <= i < hi ==> !#[trigger] mask::bit(m, i)) ==> ages_below(
            m,
            stamps,
            now,
            hi,
        ) == 0 && count_below(m, hi) == 0,
    decreases hi,
{
    if hi > 0 {
        lemma_sums(m, stamps, now, hi - 1);
    }
}

/// Dropping the members below `cut` drops their share of the sums.
proof fn lemma_sums_split(m: u16, rest: u16, stamps: Seq<u32>, now: u32, cut: int, hi: int)
    requires
        0 <= cut <= hi,
        forall|i: int| #[trigger] mask::bit(rest, i) <==> mask::bit(m, i) && i >= cut,
    ensures
        ages_below(m, stamps, now, hi) == ages_below(m, stamps, now, cut) + ages_below(
            rest,
            stamps,
            now,
            hi,
        ),
        count_below(m, hi) == count_below(m, cut) + count_below(rest, hi),
    decreases hi,
{
    if hi > cut {
        lemma_sums_split(m, rest, stamps, now, cut, hi - 1);
    } else {
        lemma_none_below(rest, stamps, now, hi);
    }
}

proof fn lemma_none_below(m: u16, stamps: Seq<u32>, now: u32, hi: int)
    requires
        forall|i: int| i < hi ==> !#[trigger] mask::bit(m, i),
    ensures
        ages_below(m, stamps, now, hi) == 0,
        count_below(m, hi) == 0,
    decreases hi,
{
    if hi > 0 {
        lemma_none_below(m, stamps, now, hi - 1);
    }
}

/// No member between `lo` and `hi` leaves the sums as they are.
proof fn lemma_sums_gap(m: u16, stamps: Seq<u32>, now: u32, lo: int, hi: int)
    requires
        0 <= lo <= hi,
        forall|i: int| lo <= i < hi ==> !#[trigger] mask::bit(m, i),
    ensures
        ages_below(m, stamps, now, hi) == ages_below(m, stamps, now, lo),
        count_below(m, hi) == count_below(m, lo),
    decreases hi,
{
    if hi > lo {
        lemma_sums_gap(m, stamps, now, lo, hi - 1);
    }
}

/// One more slot leaves room below the sums over all slots.
proof fn lemma_sums_step(m: u16, stamps: Seq<u32>, now: u32, slot: int)
    requires
        0 <= slot < 16,
        mask::bit(m, slot),
    ensures
        ages_below(m, stamps, now, slot + 1) == ages_below(m, stamps, now, slot)
            + segment::slot_age(stamps[slot], now),
        count_below(m, slot + 1) == count_below(m, slot) + 1,
        ages_below(m, stamps, now, slot + 1) <= ages_below(m, stamps, now, 16),
        count_below(m, slot + 1) <= count_below(m, 16),
{
    lemma_sums_mono(m, stamps, now, slot + 1, 16);
}

proof fn lemma_sums_mono(m: u16, stamps: Seq<u32>, now: u32, lo: int, hi: int)
    requires
        0 <= lo <= hi,
    ensures
        ages_below(m, stamps, now, lo) <= ages_below(m, stamps, now, hi),
        count_below(m, lo) <= count_below(m, hi),
    decreases hi,
{
    if hi > lo {
        lemma_sums_mono(m, stamps, now, lo, hi - 1);
    }
}

/// A trim of one segment that is under way.
pub struct SegmentTrim {
    policy: TrimPolicy,
    /// Reclaimable slots that were not looked at yet.
    pending: u16,
    /// Slots that were claimed and whose pages should be given back.
    eligible: u16,
    /// Slots whose pages are being given back.
    range: u16,
    /// Bytes given back so far.
    freed: usize,
}

impl SegmentTrim {
    pub closed spec fn policy(&self) -> TrimPolicy {
        self.policy
    }

    pub closed spec fn pending_mask(&self) -> u16 {
        self.pending
    }

    pub closed spec fn is_pending(&self, i: int) -> bool {
        mask::bit(self.pending, i)
    }

    pub closed spec fn is_eligible(&self, i: int) -> bool {
        mask::bit(self.eligible, i)
    }

    pub closed spec fn in_flight(&self, i: int) -> bool {
        mask::bit(self.range, i)
    }

    pub closed spec fn freed(&self) -> int {
        self.freed as int
    }

    pub closed spec fn pending_ages(&self, stamps: Seq<u32>, hi: int) -> int {
        ages_below(self.pending, stamps, self.policy.now, hi)
    }

    pub closed spec fn pending_count(&self, hi: int) -> int {
        count_below(self.pending, hi)
    }

    /// Pending slots are reclaimable, claimed slots are dirty, kept busy by this trim and old
    /// enough, and nothing is both.
    pub open spec fn wf(&self, s: &Segment) -> bool {
        &&& s.wf()
        &&& forall|i: int| #[trigger]
            self.is_pending(i) ==> segment::reclaimable(s.word(), i)
        &&& forall|i: int| #[trigger]
            self.is_eligible(i) ==> segment::busy(s.word(), i) && segment::dirty(s.word(), i)
                && self.policy().takes(s.stamps()[i]) && !self.in_flight(i)
        &&& forall|i: int| #[trigger]
            self.in_flight(i) ==> segment::busy(s.word(), i) && segment::dirty(s.word(), i)
                && self.policy().takes(s.stamps()[i])
        &&& forall|i: int, j: int| #[trigger]
            self.is_eligible(i) && #[trigger] self.is_pending(j) ==> i < j
    }

    /// Nothing is left to do.
    pub open spec fn idle(&self) -> bool {
        &&& forall|i: int| !#[trigger] self.is_pending(i)
        &&& forall|i: int| !#[trigger] self.is_eligible(i)
        &&& forall|i: int| !#[trigger] self.in_flight(i)
    }

    /// Starts a trim of the slots of `s` that are reclaimable now.
    pub fn new(s: &Segment, policy: TrimPolicy) -> (r: Self)
        requires
            s.wf(),
        ensures
            r.wf(s),
            r.policy() == policy,
            r.freed() == 0,
            forall|i: int| #[trigger] r.is_pending(i) <==> segment::reclaimable(s.word(), i),
            r.pending_mask() == segment::reclaimable_mask(s.word()),
            forall|i: int| !#[trigger] r.is_eligible(i),
            forall|i: int| !#[trigger] r.in_flight(i),
    {
        broadcast use mask::group_bits;

        SegmentTrim {
            policy,
            pending: segment::dirty_free(s.snapshot()),
            eligible: 0,
            range: 0,
            freed: 0,
        }
    }

    /// The first pending slot that the policy takes is `first`, and the pending slots from there
    /// on are consecutive up to `end`.
    pub open spec fn next_run(&self, stamps: Seq<u32>, first: int, end: int) -> bool {
        &&& 0 <= first < end <= 16
        &&& self.policy().takes(stamps[first])
        &&& forall|i: int|
            0 <= i < first && #[trigger] self.is_pending(i) ==> !self.policy().takes(stamps[i])
        &&& forall|i: int| first <= i < end ==> #[trigger] self.is_pending(i)
        &&& !self.is_pending(end)
    }

    /// Passes over the pending slots before the first one that the policy takes.
    fn skip_young(&mut self, s: &Segment, stats: &mut TrimStats) -> (r: Option<usize>)
        requires
            s.wf(),
            old(stats).ages + ages_below(
                old(self).pending,
                s.stamps(),
                old(self).policy.now,
                16,
            ) <= u64::MAX,
            old(stats).samples + count_below(old(self).pending, 16) <= u64::MAX,
        ensures
            final(self).policy == old(self).policy,
            final(self).eligible == old(self).eligible,
            final(self).range == old(self).range,
            final(self).freed == old(self).freed,
            final(stats).bytes == old(stats).bytes,
            ({
                let end = match r {
                    Some(first) => first as int,
                    None => 16,
                };
                &&& 0 <= end <= 16
                &&& forall|i: int|
                    i < end && #[trigger] mask::bit(old(self).pending, i)
                        ==> !old(self).policy.takes(s.stamps()[i])
                &&& forall|i: int| #[trigger]
                    mask::bit(final(self).pending, i) <==> mask::bit(old(self).pending, i) && i
                        >= end
                &&& final(stats).ages == old(stats).ages + ages_below(
                    old(self).pending,
                    s.stamps(),
                    old(self).policy.now,
                    end,
                )
                &&& final(stats).samples == old(stats).samples + count_below(
                    old(self).pending,
                    end,
                )
            }),
            r matches Some(first) ==> mask::bit(old(self).pending, first as int)
                && old(self).policy.takes(s.stamps()[first as int]),
    {
        let ghost all = self.pending;
        let ghost stamps = s.stamps();
        let ghost now = self.policy.now;
        let ghost mut seen: int = 0;
        while self.pending != 0
            invariant
                0 <= seen <= 16,
                s.wf(),
                all == old(self).pending,
                stamps == s.stamps(),
                now == self.policy.now,
                self.policy == old(self).policy,
                self.eligible == old(self).eligible,
                self.range == old(self).range,
                self.freed == old(self).freed,
                stats.bytes == old(stats).bytes,
                forall|i: int| #[trigger]
                    mask::bit(self.pending, i) <==> mask::bit(all, i) && i >= seen,
                forall|i: int|
                    i < seen && #[trigger] mask::bit(all, i) ==> !self.policy.takes(stamps[i]),
                stats.ages == old(stats).ages + ages_below(all, stamps, now, seen),
                stats.samples == old(stats).samples + count_below(all, seen),
                old(stats).ages + ages_below(all, stamps, now, 16) <= u64::MAX,
                old(stats).samples + count_below(all, 16) <= u64::MAX,
            decreases 16 - seen,
        {
            broadcast use mask::group_bits;

            let ghost before = self.pending;
            let slot: usize = mask::lowest(self.pending);
            let age: u32 = s.age(slot, self.policy.now);
            proof {
                assert(mask::bit(all, slot as int) && seen <= slot);
                assert forall|i: int| seen <= i < slot implies !#[trigger] mask::bit(all, i) by {
                    assert(!mask::bit(before, i));
                }
                lemma_sums_gap(all, stamps, now, seen, slot as int);
                lemma_sums_step(all, stamps, now, slot as int);
            }
            if self.policy.force || age > self.policy.average {
                return Some(slot);
            }
            stats.ages = stats.ages + age as u64;
            stats.samples = stats.samples + 1;
            let one: u16 = segment::slot_mask(slot, 0);
            self.pending = self.pending & !one;
            proof {
                assert forall|i: int| #[trigger]
                    mask::bit(self.pending, i) <==> mask::bit(all, i) && i >= slot + 1 by {
                    assert(mask::bit(before, i) <==> mask::bit(all, i) && i >= seen);
                    assert(mask::bit(one, i) <==> i == slot);
                }
                seen = slot + 1;
            }
        }
        proof {
            broadcast use mask::group_bits;

            assert forall|i: int| seen <= i < 16 implies !#[trigger] mask::bit(all, i) by {
                assert(!mask::bit(self.pending, i));
            }
            lemma_sums_gap(all, stamps, now, seen, 16);
        }
        None
    }

    /// Claims the run of pending slots at `first` and keeps those that the policy takes.
    fn claim_run(&mut self, s: &mut Segment, stats: &mut TrimStats, first: usize) -> (end: Ghost<
        int,
    >)
        requires
            old(s).wf(),
            first < 16,
            old(self).eligible == 0,
            mask::bit(old(self).pending, first as int),
            forall|i: int| i < first ==> !#[trigger] mask::bit(old(self).pending, i),
            forall|i: int| #[trigger]
                mask::bit(old(self).pending, i) ==> segment::reclaimable(old(s).word(), i),
            old(stats).ages + ages_below(
                old(self).pending,
                old(s).stamps(),
                old(self).policy.now,
                16,
            ) <= u64::MAX,
            old(stats).samples + count_below(old(self).pending, 16) <= u64::MAX,
        ensures
            final(self).policy == old(self).policy,
            final(self).range == old(self).range,
            final(self).freed == old(self).freed,
            final(stats).bytes == old(stats).bytes,
            final(s).wf(),
            final(s).start() == old(s).start(),
            final(s).stamps() == old(s).stamps(),
            segment::only_busy_changed(old(s).word(), final(s).word()),
            first < end@ <= 16,
            forall|i: int| first <= i < end@ ==> #[trigger] mask::bit(old(self).pending, i),
            !mask::bit(old(self).pending, end@),
            forall|i: int| #[trigger]
                mask::bit(final(self).eligible, i) <==> first <= i < end@
                    && old(self).policy.takes(old(s).stamps()[i]),
            forall|i: int| #[trigger]
                mask::bit(final(self).pending, i) <==> mask::bit(old(self).pending, i) && i
                    >= end@,
            forall|i: int| #[trigger]
                segment::busy(final(s).word(), i) <==> segment::busy(old(s).word(), i)
                    || mask::bit(final(self).eligible, i),
            final(stats).ages == old(stats).ages + ages_below(
                old(self).pending,
                old(s).stamps(),
                old(self).policy.now,
                end@,
            ),
            final(stats).samples == old(stats).samples + count_below(old(self).pending, end@),
    {
        broadcast use mask::group_bits;

        let ghost all = self.pending;
        let ghost stamps = s.stamps();
        let ghost now = self.policy.now;
        let count: usize = mask::run_length(self.pending, first);
        let run: u16 = segment::range_mask(first, count);
        let end: usize = first + count;
        self.pending = self.pending & !run;
        proof {
            assert forall|i: int| #[trigger] mask::bit(run, i) implies segment::reclaimable(
                s.word(),
                i,
            ) by {
                assert(mask::bit(all, i));
            }
            assert(mask::bit(run, first as int));
            assert(run != 0);
            lemma_none_below(all, stamps, now, first as int);
        }
        let claimed: bool = s.claim_trim(run);
        let mut eligible: u16 = 0;
        let mut index: usize = first;
        while index < end
            invariant
                first <= index <= end <= 16,
                s.wf(),
                s.stamps() == stamps,
                now == self.policy.now,
                self.policy == old(self).policy,
                stats.bytes == old(stats).bytes,
                forall|i: int| first <= i < end ==> #[trigger] mask::bit(all, i),
                forall|i: int| #[trigger]
                    mask::bit(eligible, i) <==> first <= i < index && self.policy.takes(stamps[i]),
                stats.ages == old(stats).ages + ages_below(all, stamps, now, index as int),
                stats.samples == old(stats).samples + count_below(all, index as int),
                old(stats).ages + ages_below(all, stamps, now, 16) <= u64::MAX,
                old(stats).samples + count_below(all, 16) <= u64::MAX,
            decreases end - index,
        {
            broadcast use mask::group_bits;

            let age: u32 = s.age(index, self.policy.now);
            proof {
                lemma_sums_step(all, stamps, now, index as int);
            }
            stats.ages = stats.ages + age as u64;
            stats.samples = stats.samples + 1;
            let one: u16 = segment::slot_mask(index, 0);
            assert(forall|i: int| #[trigger] mask::bit(one, i) <==> i == index);
            if self.policy.force || age > self.policy.average {
                eligible = eligible | one;
            }
            index = index + 1;
        }
        s.finish_trim(run & !eligible, false, None);
        self.eligible = eligible;
        assert(s.stamps() =~= stamps);
        Ghost(end as int)
    }

    /// Slot `i` is held by this trim.
    pub open spec fn held(&self, i: int) -> bool {
        self.is_eligible(i) || self.in_flight(i)
    }

    /// From `before` to `self` the trim looked at the pending slots below `end`, which ends the
    /// run at `first`, and claimed those of the run that the policy takes.
    pub open spec fn claimed_run(
        &self,
        before: &Self,
        stamps: Seq<u32>,
        first: int,
        end: int,
    ) -> bool {
        &&& before.next_run(stamps, first, end)
        &&& forall|i: int| #[trigger]
            self.held(i) <==> first <= i < end && before.policy().takes(stamps[i])
        &&& forall|i: int| #[trigger] self.is_pending(i) <==> before.is_pending(i) && i >= end
    }

    /// Claims more slots when none are left, and starts on the lowest range of the claimed ones.
    pub fn next(&mut self, s: &mut Segment, stats: &mut TrimStats) -> (r: Option<TrimRange>)
        requires
            old(self).wf(old(s)),
            forall|i: int| !#[trigger] old(self).in_flight(i),
            old(stats).ages + old(self).pending_ages(old(s).stamps(), 16) <= u64::MAX,
            old(stats).samples + old(self).pending_count(16) <= u64::MAX,
        ensures
            final(self).wf(final(s)),
            final(self).policy() == old(self).policy(),
            final(self).freed() == old(self).freed(),
            final(s).start() == old(s).start(),
            final(s).stamps() == old(s).stamps(),
            segment::only_busy_changed(old(s).word(), final(s).word()),
            forall|i: int| #[trigger]
                segment::busy(final(s).word(), i) <==> segment::busy(old(s).word(), i)
                    || final(self).held(i),
            final(stats).bytes == old(stats).bytes,
            r is None <==> (forall|i: int| !#[trigger] old(self).is_eligible(i)) && (forall|i: int|
                 #[trigger]
                old(self).is_pending(i) ==> !old(self).policy().takes(old(s).stamps()[i])),
            r is None ==> {
                &&& final(self).idle()
                &&& final(stats).ages == old(stats).ages + old(self).pending_ages(
                    old(s).stamps(),
                    16,
                )
                &&& final(stats).samples == old(stats).samples + old(self).pending_count(16)
            },
            r matches Some(range) ==> {
                &&& range.slot < 16
                &&& 1 <= range.count <= final(self).policy().limit(final(self).freed())
                &&& range.slot + range.count <= 16
                &&& range.addr == final(s).start() + range.slot * SLOT_BYTES
                &&& range.bytes == range.count * SLOT_BYTES
                &&& forall|i: int| #[trigger]
                    final(self).in_flight(i) <==> range.slot <= i < range.slot + range.count
                &&& forall|i: int| #[trigger] final(self).held(i) ==> i >= range.slot
                &&& range.count == final(self).policy().limit(final(self).freed()) || !final(self).held(range.slot + range.count)
            },
            (exists|i: int| #[trigger] old(self).is_eligible(i)) ==> {
                &&& forall|i: int| #[trigger] final(self).held(i) == old(self).is_eligible(i)
                &&& forall|i: int| #[trigger] final(self).is_pending(i) == old(self).is_pending(i)
                &&& *final(stats) == *old(stats)
            },
            r is Some && (forall|i: int| !#[trigger] old(self).is_eligible(i)) ==> exists|
                first: int,
                end: int,
            |
                {
                    &&& #[trigger] final(self).claimed_run(old(self), old(s).stamps(), first, end)
                    &&& final(stats).ages == old(stats).ages + old(self).pending_ages(
                        old(s).stamps(),
                        end,
                    )
                    &&& final(stats).samples == old(stats).samples + old(self).pending_count(end)
                },
    {
        broadcast use mask::group_bits;

        let ghost word0 = s.word();
        let ghost stamps = s.stamps();
        let ghost mut first_slot: int = 0;
        let ghost mut run_end: int = 0;
        let fresh: bool = self.eligible == 0;
        proof {
            assert(self.range == 0) by {
                assert forall|i: int| 0 <= i < 16 implies mask::bit(self.range, i)
                    == #[trigger] mask::bit(0, i) by {
                    assert(!self.in_flight(i));
                }
                mask::lemma_same_bits(self.range, 0);
            }
            if !fresh {
                let i = mask::lemma_member(self.eligible);
                assert(self.is_eligible(i));
            } else {
                assert(forall|i: int| !self.is_eligible(i));
            }
            assert forall|i: int| #[trigger]
                mask::bit(self.pending, i) implies segment::reclaimable(s.word(), i) by {
                assert(self.is_pending(i));
            }
        }
        if fresh {
            let ghost all = self.pending;
            match self.skip_young(s, stats) {
                None => {
                    assert forall|i: int| #[trigger] old(self).is_pending(i) implies !old(self).policy().takes(stamps[i]) by {
                        assert(mask::bit(all, i));
                    }
                    assert forall|i: int| !#[trigger] self.is_pending(i) by {
                        assert(!mask::bit(self.pending, i));
                    }
                    return None;
                },
                Some(first) => {
                    proof {
                        lemma_sums_split(
                            all,
                            self.pending,
                            stamps,
                            self.policy.now,
                            first as int,
                            16,
                        );
                        first_slot = first as int;
                    }
                    let ghost rest = self.pending;
                    let end = self.claim_run(s, stats, first);
                    proof {
                        run_end = end@;
                        lemma_sums_split(
                            all,
                            rest,
                            stamps,
                            self.policy.now,
                            first as int,
                            end@,
                        );
                        assert(mask::bit(self.eligible, first as int));
                        assert(old(self).is_pending(first as int));
                        assert forall|i: int| first <= i < end@ implies #[trigger] mask::bit(
                            all,
                            i,
                        ) by {
                            assert(mask::bit(rest, i));
                        }
                        assert(!mask::bit(rest, end@));
                        assert forall|i: int| #[trigger]
                            mask::bit(self.pending, i) <==> mask::bit(all, i) && i >= end@ by {
                            assert(mask::bit(rest, i) <==> mask::bit(all, i) && i >= first);
                        }
                        assert forall|i: int| #[trigger]
                            mask::bit(self.eligible, i) implies segment::reclaimable(word0, i) by {
                            assert(mask::bit(all, i));
                        }
                        assert(old(self).next_run(stamps, first as int, end@));
                    }
                },
            }
        }
        let ghost claimed = self.eligible;
        assert(claimed != 0);
        let start: usize = mask::lowest(self.eligible);
        let mut count: usize = mask::run_length(self.eligible, start);
        if self.policy.requested != 0 {
            let remaining: usize = self.policy.requested.saturating_sub(self.freed);
            let whole: usize = remaining / SLOT_BYTES;
            let most: usize = if remaining % SLOT_BYTES != 0 {
                whole + 1
            } else {
                whole
            };
            let most: usize = if most == 0 {
                1
            } else {
                most
            };
            if most < count {
                count = most;
            }
        }
        let range: u16 = segment::range_mask(start, count);
        self.eligible = self.eligible & !range;
        self.range = range;
        proof {
            assert forall|i: int| #[trigger] self.held(i) <==> mask::bit(claimed, i) by {
                assert(mask::bit(range, i) ==> mask::bit(claimed, i));
            }
            assert forall|i: int| #[trigger] mask::bit(claimed, i) implies segment::busy(
                s.word(),
                i,
            ) && segment::dirty(s.word(), i) && self.policy.takes(stamps[i]) by {
                if !fresh {
                    assert(old(self).is_eligible(i));
                } else {
                    assert(segment::reclaimable(word0, i));
                    assert(segment::busy(s.word(), i));
                }
            }
            assert forall|i: int| #[trigger] self.is_pending(i) implies segment::reclaimable(
                s.word(),
                i,
            ) by {
                assert(old(self).is_pending(i));
                assert(!mask::bit(claimed, i));
            }
            assert forall|i: int, j: int| #[trigger]
                self.is_eligible(i) && #[trigger] self.is_pending(j) implies i < j by {
                assert(self.held(i));
                assert(old(self).is_pending(j));
                if !fresh {
                    assert(old(self).is_eligible(i));
                }
            }
            assert forall|i: int| #[trigger] self.is_eligible(i) implies segment::busy(s.word(), i)
                && segment::dirty(s.word(), i) && self.policy().takes(s.stamps()[i])
                && !self.in_flight(i) by {
                assert(self.held(i));
            }
            assert forall|i: int| #[trigger] self.in_flight(i) implies segment::busy(s.word(), i)
                && segment::dirty(s.word(), i) && self.policy().takes(s.stamps()[i]) by {
                assert(self.held(i));
            }
            if fresh {
                assert(self.claimed_run(old(self), stamps, first_slot, run_end));
            }
        }
        Some(
            TrimRange {
                slot: start,
                count,
                addr: s.base() + start * SLOT_BYTES,
                bytes: count * SLOT_BYTES,
            },
        )
    }

    /// Ends the work on `range`, whose pages are gone when `success` is set, and drops everything
    /// that is left once enough bytes were given back.
    pub fn complete(
        &mut self,
        s: &mut Segment,
        stats: &mut TrimStats,
        range: TrimRange,
        success: bool,
    )
        requires
            old(self).wf(old(s)),
            forall|i: int| #[trigger]
                old(self).in_flight(i) <==> range.slot <= i < range.slot + range.count,
            old(self).freed() + range.bytes <= usize::MAX,
            old(stats).bytes + range.bytes <= usize::MAX,
        ensures
            final(self).wf(final(s)),
            final(self).policy() == old(self).policy(),
            final(s).start() == old(s).start(),
            final(self).freed() == old(self).freed() + if success {
                range.bytes as int
            } else {
                0
            },
            final(stats).bytes == old(stats).bytes + if success {
                range.bytes as int
            } else {
                0
            },
            final(stats).ages == old(stats).ages,
            final(stats).samples == old(stats).samples,
            forall|i: int| !#[trigger] final(self).in_flight(i),
            forall|i: int| #[trigger]
                final(self).is_pending(i) <==> old(self).is_pending(i) && !final(self).satisfied(),
            forall|i: int| #[trigger]
                final(self).is_eligible(i) <==> old(self).is_eligible(i) && !final(
                    self).satisfied(),
            forall|i: int| #[trigger]
                segment::busy(final(s).word(), i) <==> segment::busy(old(s).word(), i) && !old(
                    self).in_flight(i) && !(final(self).satisfied() && old(self).is_eligible(i)),
            forall|i: int| #[trigger]
                segment::dirty(final(s).word(), i) <==> segment::dirty(old(s).word(), i) && !(
                success && old(self).in_flight(i)),
            forall|i: int| #[trigger]
                segment::used(final(s).word(), i) == segment::used(old(s).word(), i),
            forall|i: int| 0 <= i < 16 ==> #[trigger]
                final(s).stamps()[i] == if old(self).in_flight(i) {
                    old(self).policy().now
                } else {
                    old(s).stamps()[i]
                },
    {
        broadcast use mask::group_bits;

        s.finish_trim(self.range, success, Some(self.policy.now));
        self.range = 0;
        if success {
            stats.bytes = stats.bytes + range.bytes;
            self.freed = self.freed + range.bytes;
        }
        if self.policy.requested != 0 && self.freed >= self.policy.requested {
            s.finish_trim(self.eligible, false, None);
            self.eligible = 0;
            self.pending = 0;
        }
        proof {
            assert forall|i: int| #[trigger] self.is_eligible(i) implies segment::busy(s.word(), i)
                && segment::dirty(s.word(), i) && self.policy().takes(s.stamps()[i])
                && !self.in_flight(i) by {
                assert(old(self).is_eligible(i));
            }
            assert forall|i: int| #[trigger] self.is_pending(i) implies segment::reclaimable(
                s.word(),
                i,
            ) by {
                assert(old(self).is_pending(i));
                assert(!old(self).in_flight(i));
            }
            assert forall|i: int, j: int| #[trigger]
                self.is_eligible(i) && #[trigger] self.is_pending(j) implies i < j by {
                assert(old(self).is_eligible(i) && old(self).is_pending(j));
            }
        }
    }

    /// As many bytes as requested were given back.
    pub open spec fn satisfied(&self) -> bool {
        self.policy().requested != 0 && self.freed() >= self.policy().requested
    }
}

/// Slots below `hi` that were dirty in `before` and are not in `after`.
pub open spec fn cleaned(before: u64, after: u64, hi: int) -> int
    decreases hi,
{
    if hi <= 0 {
        0
    } else {
        cleaned(before, after, hi - 1) + if segment::dirty(before, hi - 1) && !segment::dirty(
            after,
            hi - 1,
        ) {
            1int
        } else {
            0
        }
    }
}

proof fn lemma_cleaned(before: u64, mid: u64, after: u64, lo: int, count: int, hi: int)
    requires
        0 <= lo,
        0 <= count,
        forall|i: int| lo <= i < lo + count ==> #[trigger] segment::dirty(before, i),
        forall|i: int| lo <= i < lo + count ==> #[trigger] segment::dirty(mid, i),
        forall|i: int| #[trigger]
            segment::dirty(after, i) <==> segment::dirty(mid, i) && !(lo <= i < lo + count),
    ensures
        cleaned(before, after, hi) == cleaned(before, mid, hi) + if hi <= lo {
            0
        } else if hi >= lo + count {
            count
        } else {
            hi - lo
        },
    decreases hi,
{
    if hi > 0 {
        lemma_cleaned(before, mid, after, lo, count, hi - 1);
    }
}

proof fn lemma_cleaned_same(before: u64, mid: u64, after: u64, hi: int)
    requires
        forall|i: int| #[trigger] segment::dirty(after, i) <==> segment::dirty(mid, i),
    ensures
        cleaned(before, after, hi) == cleaned(before, mid, hi),
    decreases hi,
{
    if hi > 0 {
        lemma_cleaned_same(before, mid, after, hi - 1);
    }
}

proof fn lemma_cleaned_none(word: u64, hi: int)
    ensures
        cleaned(word, word, hi) == 0,
    decreases hi,
{
    if hi > 0 {
        lemma_cleaned_none(word, hi - 1);
    }
}

/// The sums only depend on the stamps of the members.
proof fn lemma_sums_congruent(m: u16, a: Seq<u32>, b: Seq<u32>, now: u32, hi: int)
    requires
        0 <= hi <= 16,
        forall|i: int| 0 <= i < 16 && #[trigger] mask::bit(m, i) ==> a[i] == b[i],
    ensures
        ages_below(m, a, now, hi) == ages_below(m, b, now, hi),
    decreases hi,
{
    if hi > 0 {
        lemma_sums_congruent(m, a, b, now, hi - 1);
    }
}

/// Slot `i` is one that a trim gives back: it is free, may still hold pages, and the policy takes
/// it.
pub open spec fn wanted(s: Segment, policy: TrimPolicy, i: int) -> bool {
    0 <= i < 16 && segment::reclaimable(s.word(), i) && policy.takes(s.stamps()[i])
}

/// Number of consecutive slots from `lo` on that a trim gives back.
pub open spec fn wanted_run(s: Segment, policy: TrimPolicy, lo: int) -> int
    decreases 16 - lo,
{
    if lo < 16 && wanted(s, policy, lo) {
        1 + wanted_run(s, policy, lo + 1)
    } else {
        0
    }
}

/// First slot of the chunk that slot `i` is given back with, where `after` tells what was given
/// back before. A chunk has consecutive slots, and no more of them than are still asked for.
pub open spec fn chunk_start(s: Segment, after: u64, policy: TrimPolicy, i: int) -> int
    decreases i,
{
    if i <= 0 || !wanted(s, policy, i - 1) {
        i
    } else {
        let lo = chunk_start(s, after, policy, i - 1);
        if i - lo >= policy.limit(SLOT_BYTES * cleaned(s.word(), after, lo)) {
            i
        } else {
            lo
        }
    }
}

/// Slots of the chunk that starts at `lo`.
pub open spec fn chunk_len(s: Segment, after: u64, policy: TrimPolicy, lo: int) -> int {
    let most = policy.limit(SLOT_BYTES * cleaned(s.word(), after, lo));
    let run = wanted_run(s, policy, lo);
    if most < run {
        most
    } else {
        run
    }
}

/// `advise` was called on the `count` slots at `lo` of the segment at `base` and returned
/// `outcome`.
pub open spec fn advised<F: Fn(usize, usize) -> bool>(
    advise: F,
    base: int,
    lo: int,
    count: int,
    outcome: bool,
) -> bool {
    call_ensures(
        advise,
        ((base + lo * SLOT_BYTES) as usize, (count * SLOT_BYTES) as usize),
        outcome,
    )
}

/// The `count` slots at `lo` are all slots that a trim gives back.
pub open spec fn free_run(s: Segment, policy: TrimPolicy, lo: int, count: int) -> bool {
    &&& 1 <= count
    &&& forall|i: int| lo <= i < lo + count ==> #[trigger] wanted(s, policy, i)
}

/// The `bytes` bytes at `addr` are those of slots that a trim gives back, and of no others.
pub open spec fn free_range(s: Segment, policy: TrimPolicy, addr: int, bytes: int) -> bool {
    exists|lo: int, count: int| #[trigger]
        free_run(s, policy, lo, count) && addr == s.start() + lo * SLOT_BYTES && bytes == count
            * SLOT_BYTES
}

/// `advise` may be called on the slots that a trim gives back; nothing says that it may be called
/// on others.
pub open spec fn advisable<F: Fn(usize, usize) -> bool>(
    s: Segment,
    policy: TrimPolicy,
    advise: F,
) -> bool {
    forall|addr: usize, bytes: usize|
        free_range(s, policy, addr as int, bytes as int) ==> #[trigger] call_requires(
            advise,
            (addr, bytes),
        )
}

/// What a trim that stopped at slot `cut` did to slot `i`. A slot below `cut` that the policy takes
/// was handed to `advise` with its chunk, and the time and the outcome were recorded. All others
/// were left alone.
pub open spec fn trim_outcome<F: Fn(usize, usize) -> bool>(
    before: Segment,
    after: Segment,
    policy: TrimPolicy,
    advise: F,
    cut: int,
    i: int,
) -> bool {
    if i < cut && wanted(before, policy, i) {
        let lo = chunk_start(before, after.word(), policy, i);
        let count = chunk_len(before, after.word(), policy, lo);
        &&& lo + count <= cut
        &&& after.stamps()[i] == policy.now
        &&& segment::dirty(after.word(), i) == segment::dirty(after.word(), lo)
        &&& advised(advise, before.start() as int, lo, count, !segment::dirty(after.word(), i))
    } else {
        &&& segment::dirty(after.word(), i) == segment::dirty(before.word(), i)
        &&& after.stamps()[i] == before.stamps()[i]
    }
}

/// One past the highest slot below `hi` that was dirty in `before` and is not in `after`.
pub open spec fn last_cleaned(before: u64, after: u64, hi: int) -> int
    decreases hi,
{
    if hi <= 0 {
        0
    } else if segment::dirty(before, hi - 1) && !segment::dirty(after, hi - 1) {
        hi
    } else {
        last_cleaned(before, after, hi - 1)
    }
}

/// Where a trim stopped: behind the chunk that met the request, or at the end.
pub open spec fn stop(before: u64, after: u64, policy: TrimPolicy) -> int {
    if policy.reached(SLOT_BYTES * cleaned(before, after, 16)) {
        last_cleaned(before, after, 16)
    } else {
        16
    }
}

/// End of the run of reclaimable slots at `lo`.
pub open spec fn run_end(word: u64, lo: int) -> int
    decreases 16 - lo,
{
    if lo < 16 && segment::reclaimable(word, lo) {
        run_end(word, lo + 1)
    } else {
        lo
    }
}

/// The same slots are busy, and the same were ever used.
pub open spec fn kept(before: Segment, after: Segment) -> bool {
    &&& after.wf()
    &&& after.start() == before.start()
    &&& forall|i: int| #[trigger]
        segment::busy(after.word(), i) == segment::busy(before.word(), i)
    &&& forall|i: int| #[trigger]
        segment::used(after.word(), i) == segment::used(before.word(), i)
}

/// `after` is `before` after a trim: slots were given back from the lowest on, until the request
/// was met.
pub open spec fn trimmed<F: Fn(usize, usize) -> bool>(
    before: Segment,
    after: Segment,
    policy: TrimPolicy,
    advise: F,
) -> bool {
    &&& kept(before, after)
    &&& policy.requested != 0 ==> SLOT_BYTES * cleaned(before.word(), after.word(), 16)
        < policy.requested + SLOT_BYTES
    &&& forall|i: int|
        0 <= i < 16 ==> #[trigger] trim_outcome(
            before,
            after,
            policy,
            advise,
            stop(before.word(), after.word(), policy),
            i,
        )
}

/// Sum of the ages, and number, of the slots that a trim looked at: the reclaimable ones up to the
/// end of the run in which it stopped.
pub open spec fn segment_sums(before: Segment, after: Segment, policy: TrimPolicy) -> (int, int) {
    let m = segment::reclaimable_mask(before.word());
    let end = run_end(before.word(), stop(before.word(), after.word(), policy));
    (ages_below(m, before.stamps(), policy.now, end), count_below(m, end))
}

/// Gives the pages of free slots back through `advise`, from the lowest slot on, until the
/// requested number of bytes is reached.
pub fn trim_segment<F: Fn(usize, usize) -> bool>(
    s: &mut Segment,
    policy: TrimPolicy,
    stats: &mut TrimStats,
    advise: &F,
)
    requires
        old(s).wf(),
        advisable(*old(s), policy, *advise),
        old(stats).bytes + segment::SEGMENT_BYTES <= usize::MAX,
        old(stats).ages + SEGMENT_AGES <= u64::MAX,
        old(stats).samples + 16 <= u64::MAX,
    ensures
        trimmed(*old(s), *final(s), policy, *advise),
        final(stats).bytes == old(stats).bytes + SLOT_BYTES * cleaned(
            old(s).word(),
            final(s).word(),
            16,
        ),
        (final(stats).ages - old(stats).ages, final(stats).samples - old(stats).samples)
            == segment_sums(*old(s), *final(s), policy),
        final(stats).ages <= old(stats).ages + SEGMENT_AGES,
        final(stats).samples <= old(stats).samples + 16,
{
    let ghost s0 = *s;
    let ghost stats0 = *stats;
    let mut trim = SegmentTrim::new(s, policy);
    let ghost all = trim.pending;
    let ghost mut floor: int = 0;
    let ghost mut seen: int = 0;
    proof {
        lemma_cleaned_none(s0.word(), 16);
        lemma_sums(all, s0.stamps(), policy.now, 16);
        assert forall|i: int| #[trigger] mask::bit(all, i) <==> segment::reclaimable(
            s0.word(),
            i,
        ) by {
            assert(trim.is_pending(i) == mask::bit(all, i));
        }
        assert(ages_below(all, s0.stamps(), policy.now, 0) == 0);
        assert(count_below(all, 0) == 0);
    }
    loop
        invariant
            0 <= floor <= seen <= 16,
            trim.wf(s),
            trim.policy() == policy,
            s.start() == s0.start(),
            s0.wf(),
            advisable(s0, policy, *advise),
            all == segment::reclaimable_mask(s0.word()),
            forall|i: int| #[trigger] mask::bit(all, i) <==> segment::reclaimable(s0.word(), i),
            forall|i: int| !#[trigger] trim.in_flight(i),
            forall|i: int| #[trigger]
                segment::busy(s.word(), i) <==> segment::busy(s0.word(), i) || trim.is_eligible(i),
            forall|i: int| #[trigger] segment::used(s.word(), i) == segment::used(s0.word(), i),
            forall|i: int|
                0 <= i < 16 ==> #[trigger] trim_outcome(s0, *s, policy, *advise, floor, i),
            wanted(s0, policy, floor) ==> chunk_start(s0, s.word(), policy, floor) == floor,
            forall|i: int| floor <= i < seen ==> #[trigger] segment::reclaimable(s0.word(), i),
            floor == seen || !segment::reclaimable(s0.word(), seen),
            !trim.satisfied() ==> forall|i: int| #[trigger]
                trim.is_eligible(i) <==> floor <= i < seen && wanted(s0, policy, i),
            !trim.satisfied() ==> forall|i: int| #[trigger]
                trim.is_pending(i) <==> seen <= i && segment::reclaimable(s0.word(), i),
            trim.satisfied() ==> trim.idle() && !segment::reclaimable(s0.word(), seen)
                && last_cleaned(s0.word(), s.word(), 16) == floor,
            stats.ages == stats0.ages + ages_below(all, s0.stamps(), policy.now, seen),
            stats.samples == stats0.samples + count_below(all, seen),
            stats0.ages + SEGMENT_AGES <= u64::MAX,
            stats0.samples + 16 <= u64::MAX,
            trim.freed() == SLOT_BYTES * cleaned(s0.word(), s.word(), 16),
            stats.bytes == stats0.bytes + trim.freed(),
            policy.requested != 0 ==> trim.freed() < policy.requested + SLOT_BYTES,
            stats0.bytes + segment::SEGMENT_BYTES <= usize::MAX,
        ensures
            trim.idle(),
            !trim.satisfied() ==> floor == 16,
        decreases 16 - floor,
    {
        let ghost trim1 = trim;
        let ghost s1 = *s;
        let ghost stats1 = *stats;
        proof {
            assert forall|i: int| seen <= i < 16 implies #[trigger] s1.stamps()[i]
                == s0.stamps()[i] by {
                assert(trim_outcome(s0, s1, policy, *advise, floor, i));
            }
            lemma_pending_sums(trim1, s0, s1.stamps(), all, seen, 16);
            lemma_sums(all, s0.stamps(), policy.now, 16);
        }
        match trim.next(s, stats) {
            None => {
                proof {
                    lemma_cleaned_same(s0.word(), s1.word(), s.word(), 16);
                    lemma_last_cleaned_same(s0.word(), s1.word(), s.word(), 16);
                    assert forall|i: int| #[trigger] segment::busy(s.word(), i) == segment::busy(
                        s0.word(),
                        i,
                    ) by {
                        assert(!trim.held(i) && !trim1.is_eligible(i));
                    }
                    if !trim.satisfied() {
                        assert forall|i: int| floor <= i implies !#[trigger] wanted(
                            s0,
                            policy,
                            i,
                        ) by {
                            assert(!trim1.is_eligible(i));
                            if 0 <= i < 16 && i >= seen && segment::reclaimable(s0.word(), i) {
                                assert(trim1.is_pending(i));
                                assert(trim_outcome(s0, s1, policy, *advise, floor, i));
                            }
                        }
                        lemma_outcome_kept(s0, s1, *s, policy, *advise, floor, 16);
                        floor = 16;
                        seen = 16;
                    } else {
                        lemma_outcome_kept(s0, s1, *s, policy, *advise, floor, floor);
                        lemma_chunk_start_same(s0, s1.word(), s.word(), policy, floor);
                        lemma_idle_sums(trim1, s1.stamps());
                    }
                }
                break;
            },
            Some(range) => {
                let ghost trim2 = trim;
                let ghost s2 = *s;
                proof {
                    assert(trim2.in_flight(range.slot as int));
                    assert(trim2.held(range.slot as int));
                    assert(!trim1.satisfied()) by {
                        if trim1.satisfied() {
                            assert(trim1.idle());
                        }
                    }
                    lemma_outcome_kept(s0, s1, s2, policy, *advise, floor, floor);
                    lemma_cleaned_same(s0.word(), s1.word(), s2.word(), 16);
                    lemma_cleaned_same(s0.word(), s1.word(), s2.word(), floor);
                    lemma_chunk_start_same(s0, s1.word(), s2.word(), policy, floor);
                    seen = lemma_round(
                        s0,
                        s2,
                        trim1,
                        trim2,
                        range,
                        stats0,
                        stats1,
                        *stats,
                        all,
                        floor,
                        seen,
                        *advise,
                    );
                    assert(free_run(s0, policy, range.slot as int, range.count as int));
                    assert(free_range(s0, policy, range.addr as int, range.bytes as int));
                    assert forall|i: int| range.slot <= i < range.slot + range.count implies
                        #[trigger] segment::dirty(s2.word(), i) by {
                        assert(trim2.in_flight(i));
                    }
                    lemma_cleaned_room(
                        s0.word(),
                        s2.word(),
                        range.slot as int,
                        range.count as int,
                        16,
                    );
                }
                let ok: bool = advise(range.addr, range.bytes);
                trim.complete(s, stats, range, ok);
                proof {
                    lemma_complete_step(
                        s0,
                        s2,
                        *s,
                        trim2,
                        trim,
                        range,
                        ok,
                        *advise,
                        floor,
                        seen,
                    );
                    floor = range.slot + range.count;
                }
            },
        }
    }
    proof {
        lemma_sums(all, s0.stamps(), policy.now, seen);
        lemma_run_end(s0.word(), floor, seen);
        assert forall|i: int| #[trigger] segment::busy(s.word(), i) == segment::busy(
            s0.word(),
            i,
        ) by {
            assert(!trim.is_eligible(i));
        }
    }
}

proof fn lemma_run_end(word: u64, lo: int, hi: int)
    requires
        lo <= hi <= 16,
        forall|i: int| lo <= i < hi ==> #[trigger] segment::reclaimable(word, i),
        !segment::reclaimable(word, hi),
    ensures
        run_end(word, lo) == hi,
    decreases hi - lo,
{
    if lo < hi {
        lemma_run_end(word, lo + 1, hi);
    }
}

/// What is pending adds the ages of the slots from `seen` on.
proof fn lemma_pending_sums(
    trim: SegmentTrim,
    s0: Segment,
    stamps: Seq<u32>,
    all: u16,
    seen: int,
    hi: int,
)
    requires
        0 <= seen <= hi <= 16,
        forall|i: int| #[trigger] mask::bit(all, i) <==> segment::reclaimable(s0.word(), i),
        trim.satisfied() ==> trim.idle(),
        !trim.satisfied() ==> forall|i: int| #[trigger]
            trim.is_pending(i) <==> seen <= i && segment::reclaimable(s0.word(), i),
        forall|i: int| seen <= i < 16 ==> #[trigger] stamps[i] == s0.stamps()[i],
    ensures
        !trim.satisfied() ==> ages_below(all, s0.stamps(), trim.policy().now, seen)
            + trim.pending_ages(stamps, hi) == ages_below(all, s0.stamps(), trim.policy().now, hi),
        !trim.satisfied() ==> count_below(all, seen) + trim.pending_count(hi) == count_below(
            all,
            hi,
        ),
        trim.satisfied() ==> trim.pending_ages(stamps, hi) == 0 && trim.pending_count(hi) == 0,
{
    if trim.satisfied() {
        assert forall|i: int| i < hi implies !#[trigger] mask::bit(trim.pending, i) by {
            assert(!trim.is_pending(i));
        }
        lemma_none_below(trim.pending, stamps, trim.policy.now, hi);
    } else {
        assert forall|i: int| #[trigger] mask::bit(trim.pending, i) <==> mask::bit(all, i) && i
            >= seen by {
            assert(trim.is_pending(i) <==> seen <= i && segment::reclaimable(s0.word(), i));
        }
        lemma_sums_split(all, trim.pending, s0.stamps(), trim.policy.now, seen, hi);
        lemma_sums_congruent(trim.pending, stamps, s0.stamps(), trim.policy.now, hi);
    }
}

proof fn lemma_last_cleaned_same(before: u64, a: u64, b: u64, hi: int)
    requires
        forall|i: int| #[trigger] segment::dirty(b, i) == segment::dirty(a, i),
    ensures
        last_cleaned(before, a, hi) == last_cleaned(before, b, hi),
    decreases hi,
{
    if hi > 0 {
        lemma_last_cleaned_same(before, a, b, hi - 1);
    }
}

/// Slots that were left alone do not move the highest cleaned one.
proof fn lemma_last_cleaned(before: u64, after: u64, lo: int, hi: int)
    requires
        0 < lo <= hi,
        segment::dirty(before, lo - 1),
        !segment::dirty(after, lo - 1),
        forall|i: int|
            lo <= i < hi ==> segment::dirty(before, i) == #[trigger] segment::dirty(after, i),
    ensures
        last_cleaned(before, after, hi) == lo,
    decreases hi,
{
    if hi > lo {
        lemma_last_cleaned(before, after, lo, hi - 1);
        assert(segment::dirty(before, hi - 1) == segment::dirty(after, hi - 1));
    }
}

proof fn lemma_cleaned_prefix(before: u64, a: u64, b: u64, hi: int)
    requires
        forall|i: int| 0 <= i < hi ==> #[trigger] segment::dirty(b, i) == segment::dirty(a, i),
    ensures
        cleaned(before, a, hi) == cleaned(before, b, hi),
    decreases hi,
{
    if hi > 0 {
        lemma_cleaned_prefix(before, a, b, hi - 1);
        assert(segment::dirty(b, hi - 1) == segment::dirty(a, hi - 1));
    }
}

proof fn lemma_cleaned_gap(before: u64, after: u64, lo: int, hi: int)
    requires
        0 <= lo <= hi,
        forall|i: int|
            lo <= i < hi ==> segment::dirty(before, i) == #[trigger] segment::dirty(after, i),
    ensures
        cleaned(before, after, hi) == cleaned(before, after, lo),
    decreases hi,
{
    if hi > lo {
        lemma_cleaned_gap(before, after, lo, hi - 1);
        assert(segment::dirty(before, hi - 1) == segment::dirty(after, hi - 1));
    }
}

/// Where a chunk starts depends on what was given back below it only.
proof fn lemma_chunk_start_same(s: Segment, a: u64, b: u64, policy: TrimPolicy, i: int)
    requires
        forall|j: int| 0 <= j < i ==> #[trigger] segment::dirty(b, j) == segment::dirty(a, j),
    ensures
        chunk_start(s, a, policy, i) == chunk_start(s, b, policy, i),
        0 <= i ==> 0 <= chunk_start(s, a, policy, i) <= i,
    decreases i,
{
    if i > 0 {
        lemma_chunk_start_same(s, a, b, policy, i - 1);
        lemma_cleaned_prefix(s.word(), a, b, chunk_start(s, a, policy, i - 1));
    }
}

/// The slots of one chunk start where the chunk does.
proof fn lemma_chunk_members(s: Segment, after: u64, policy: TrimPolicy, lo: int, i: int)
    requires
        0 <= lo <= i,
        chunk_start(s, after, policy, lo) == lo,
        forall|j: int| lo <= j < i ==> #[trigger] wanted(s, policy, j),
        i == lo || i - lo < policy.limit(SLOT_BYTES * cleaned(s.word(), after, lo)),
    ensures
        chunk_start(s, after, policy, i) == lo,
    decreases i,
{
    if i > lo {
        lemma_chunk_members(s, after, policy, lo, i - 1);
        assert(wanted(s, policy, i - 1));
    }
}

proof fn lemma_wanted_run(s: Segment, policy: TrimPolicy, lo: int, count: int)
    requires
        0 <= lo,
        0 <= count,
        forall|i: int| lo <= i < lo + count ==> #[trigger] wanted(s, policy, i),
    ensures
        wanted_run(s, policy, lo) >= count,
        !wanted(s, policy, lo + count) ==> wanted_run(s, policy, lo) == count,
    decreases 16 - lo,
{
    if lo < 16 && wanted(s, policy, lo) {
        if count > 0 {
            lemma_wanted_run(s, policy, lo + 1, count - 1);
        } else {
            lemma_wanted_run(s, policy, lo + 1, 0);
        }
    } else if count > 0 {
        assert(wanted(s, policy, lo));
    }
}

proof fn lemma_cleaned_room(before: u64, mid: u64, lo: int, count: int, hi: int)
    requires
        0 <= lo,
        0 <= count,
        forall|i: int| lo <= i < lo + count ==> #[trigger] segment::dirty(mid, i),
    ensures
        cleaned(before, mid, hi) <= (if hi <= 0 {
            0
        } else {
            hi
        }) - (if hi <= lo {
            0
        } else if hi >= lo + count {
            count
        } else {
            hi - lo
        }),
    decreases hi,
{
    if hi > 0 {
        lemma_cleaned_room(before, mid, lo, count, hi - 1);
    }
}

/// One step of a trim: what `trim1` had claimed or claimed now became `trim2`, which works on
/// `range`. Gives the end of the slots that were looked at.
proof fn lemma_round<F: Fn(usize, usize) -> bool>(
    s0: Segment,
    s2: Segment,
    trim1: SegmentTrim,
    trim2: SegmentTrim,
    range: TrimRange,
    stats0: TrimStats,
    stats1: TrimStats,
    stats2: TrimStats,
    all: u16,
    floor: int,
    seen: int,
    advise: F,
) -> (end: int)
    requires
        0 <= floor <= seen <= 16,
        trim2.policy() == trim1.policy(),
        !trim1.satisfied(),
        forall|i: int| #[trigger] mask::bit(all, i) <==> segment::reclaimable(s0.word(), i),
        forall|i: int|
            0 <= i < 16 ==> #[trigger] trim_outcome(s0, s2, trim1.policy(), advise, floor, i),
        forall|i: int| floor <= i < seen ==> #[trigger] segment::reclaimable(s0.word(), i),
        floor == seen || !segment::reclaimable(s0.word(), seen),
        forall|i: int| #[trigger]
            trim1.is_eligible(i) <==> floor <= i < seen && wanted(s0, trim1.policy(), i),
        forall|i: int| #[trigger]
            trim1.is_pending(i) <==> seen <= i && segment::reclaimable(s0.word(), i),
        stats1.ages == stats0.ages + ages_below(all, s0.stamps(), trim1.policy().now, seen),
        stats1.samples == stats0.samples + count_below(all, seen),
        1 <= range.count <= trim2.policy().limit(trim2.freed()),
        range.slot + range.count <= 16,
        forall|i: int| #[trigger]
            trim2.in_flight(i) <==> range.slot <= i < range.slot + range.count,
        forall|i: int| #[trigger] trim2.held(i) ==> i >= range.slot,
        range.count == trim2.policy().limit(trim2.freed()) || !trim2.held(
            range.slot + range.count,
        ),
        (exists|i: int| #[trigger] trim1.is_eligible(i)) ==> {
            &&& forall|i: int| #[trigger] trim2.held(i) == trim1.is_eligible(i)
            &&& forall|i: int| #[trigger] trim2.is_pending(i) == trim1.is_pending(i)
            &&& stats2 == stats1
        },
        (forall|i: int| !#[trigger] trim1.is_eligible(i)) ==> exists|first: int, end: int|
            {
                &&& #[trigger] trim2.claimed_run(&trim1, s2.stamps(), first, end)
                &&& stats2.ages == stats1.ages + trim1.pending_ages(s2.stamps(), end)
                &&& stats2.samples == stats1.samples + trim1.pending_count(end)
            },
    ensures
        floor <= range.slot,
        forall|i: int| floor <= i < range.slot ==> !#[trigger] wanted(s0, trim1.policy(), i),
        forall|i: int|
            range.slot <= i < range.slot + range.count ==> #[trigger] wanted(
                s0,
                trim1.policy(),
                i,
            ),
        range.count == trim2.policy().limit(trim2.freed()) || !wanted(
            s0,
            trim1.policy(),
            range.slot + range.count,
        ),
        range.slot + range.count <= end <= 16,
        !segment::reclaimable(s0.word(), end),
        forall|i: int|
            range.slot + range.count <= i < end ==> #[trigger] segment::reclaimable(s0.word(), i),
        forall|i: int| #[trigger]
            trim2.held(i) <==> range.slot <= i < end && wanted(s0, trim1.policy(), i),
        forall|i: int| #[trigger]
            trim2.is_pending(i) <==> end <= i && segment::reclaimable(s0.word(), i),
        stats2.ages == stats0.ages + ages_below(all, s0.stamps(), trim1.policy().now, end),
        stats2.samples == stats0.samples + count_below(all, end),
{
    let policy = trim1.policy();
    let lo = range.slot as int;
    let hi = range.slot + range.count;
    assert forall|i: int| floor <= i < 16 implies #[trigger] s2.stamps()[i] == s0.stamps()[i] by {
        assert(trim_outcome(s0, s2, policy, advise, floor, i));
    }
    assert forall|i: int| lo <= i < hi implies #[trigger] trim2.held(i) by {
        assert(trim2.in_flight(i));
    }
    assert(trim2.held(lo));
    assert(trim2.held(hi - 1));
    if exists|i: int| #[trigger] trim1.is_eligible(i) {
        assert forall|i: int| floor <= i < lo implies !#[trigger] wanted(s0, policy, i) by {
            if wanted(s0, policy, i) {
                if i < seen {
                    assert(trim1.is_eligible(i));
                    assert(trim2.held(i));
                } else {
                    assert(trim1.is_eligible(lo));
                }
            }
        }
        assert(trim1.is_eligible(lo) && trim1.is_eligible(hi - 1));
        assert forall|i: int| lo <= i < hi implies #[trigger] wanted(s0, policy, i) by {
            assert(trim2.held(i));
            assert(trim1.is_eligible(i));
        }
        if range.count != policy.limit(trim2.freed()) {
            assert(!trim1.is_eligible(hi));
        }
        assert forall|i: int| #[trigger] trim2.held(i) <==> lo <= i < seen && wanted(
            s0,
            policy,
            i,
        ) by {
            assert(trim2.held(i) == trim1.is_eligible(i));
        }
        seen
    } else {
        let (first, end) = choose|first: int, end: int|
            {
                &&& #[trigger] trim2.claimed_run(&trim1, s2.stamps(), first, end)
                &&& stats2.ages == stats1.ages + trim1.pending_ages(s2.stamps(), end)
                &&& stats2.samples == stats1.samples + trim1.pending_count(end)
            };
        assert(trim1.is_pending(first));
        assert(trim2.held(first));
        assert(lo == first);
        assert(!trim1.is_pending(end));
        lemma_pending_sums(trim1, s0, s2.stamps(), all, seen, end);
        assert forall|i: int| floor <= i < lo implies !#[trigger] wanted(s0, policy, i) by {
            assert(!trim1.is_eligible(i));
            if i >= seen && wanted(s0, policy, i) {
                assert(trim1.is_pending(i));
            }
        }
        assert forall|i: int| first <= i < end implies #[trigger] segment::reclaimable(
            s0.word(),
            i,
        ) && 0 <= i < 16 && s2.stamps()[i] == s0.stamps()[i] by {
            assert(trim1.is_pending(i));
        }
        assert forall|i: int| #[trigger] trim2.held(i) <==> lo <= i < end && wanted(
            s0,
            policy,
            i,
        ) by {
            assert(trim2.held(i) <==> first <= i < end && policy.takes(s2.stamps()[i]));
            if first <= i < end {
                assert(segment::reclaimable(s0.word(), i));
            }
        }
        assert forall|i: int| lo <= i < hi implies #[trigger] wanted(s0, policy, i) by {
            assert(trim2.held(i));
        }
        assert forall|i: int| hi <= i < end implies #[trigger] segment::reclaimable(
            s0.word(),
            i,
        ) by {
            assert(trim1.is_pending(i));
        }
        assert forall|i: int| #[trigger] trim2.is_pending(i) <==> end <= i && segment::reclaimable(
            s0.word(),
            i,
        ) by {
            assert(trim2.is_pending(i) <==> trim1.is_pending(i) && i >= end);
        }
        if range.count != policy.limit(trim2.freed()) {
            assert(!trim2.held(hi));
        }
        end
    }
}

/// The work on `range` ended: its slots became part of what the trim did.
proof fn lemma_complete_step<F: Fn(usize, usize) -> bool>(
    s0: Segment,
    s2: Segment,
    s3: Segment,
    trim2: SegmentTrim,
    trim3: SegmentTrim,
    range: TrimRange,
    ok: bool,
    advise: F,
    floor: int,
    seen: int,
)
    requires
        0 <= floor <= range.slot,
        trim2.policy() == trim3.policy(),
        call_ensures(advise, (range.addr, range.bytes), ok),
        range.addr == s0.start() + range.slot * SLOT_BYTES,
        range.bytes == range.count * SLOT_BYTES,
        1 <= range.count <= trim2.policy().limit(trim2.freed()),
        range.slot + range.count <= seen <= 16,
        !trim2.satisfied(),
        trim2.freed() == SLOT_BYTES * cleaned(s0.word(), s2.word(), 16),
        trim3.freed() == trim2.freed() + (if ok {
            range.bytes as int
        } else {
            0
        }),
        forall|i: int|
            floor <= i < range.slot ==> !#[trigger] wanted(s0, trim2.policy(), i),
        forall|i: int|
            range.slot <= i < range.slot + range.count ==> #[trigger] wanted(
                s0,
                trim2.policy(),
                i,
            ),
        range.count == trim2.policy().limit(trim2.freed()) || !wanted(
            s0,
            trim2.policy(),
            range.slot + range.count,
        ),
        forall|i: int|
            0 <= i < 16 ==> #[trigger] trim_outcome(s0, s2, trim2.policy(), advise, floor, i),
        wanted(s0, trim2.policy(), floor) ==> chunk_start(s0, s2.word(), trim2.policy(), floor)
            == floor,
        forall|i: int| #[trigger]
            trim2.in_flight(i) <==> range.slot <= i < range.slot + range.count,
        forall|i: int| #[trigger]
            trim2.held(i) <==> range.slot <= i < seen && wanted(s0, trim2.policy(), i),
        forall|i: int| #[trigger] trim2.is_eligible(i) ==> !trim2.in_flight(i),
        forall|i: int| #[trigger]
            segment::busy(s2.word(), i) <==> segment::busy(s0.word(), i) || trim2.held(i),
        forall|i: int| #[trigger]
            trim3.is_eligible(i) <==> trim2.is_eligible(i) && !trim3.satisfied(),
        forall|i: int| #[trigger]
            segment::busy(s3.word(), i) <==> segment::busy(s2.word(), i) && !trim2.in_flight(i)
                && !(trim3.satisfied() && trim2.is_eligible(i)),
        forall|i: int| #[trigger]
            segment::dirty(s3.word(), i) <==> segment::dirty(s2.word(), i) && !(ok
                && trim2.in_flight(i)),
        forall|i: int|
            0 <= i < 16 ==> #[trigger] s3.stamps()[i] == if trim2.in_flight(i) {
                trim2.policy().now
            } else {
                s2.stamps()[i]
            },
    ensures
        forall|i: int| #[trigger]
            segment::busy(s3.word(), i) <==> segment::busy(s0.word(), i) || trim3.is_eligible(i),
        forall|i: int|
            0 <= i < 16 ==> #[trigger] trim_outcome(
                s0,
                s3,
                trim2.policy(),
                advise,
                range.slot + range.count,
                i,
            ),
        wanted(s0, trim2.policy(), range.slot + range.count) ==> chunk_start(
            s0,
            s3.word(),
            trim2.policy(),
            range.slot + range.count,
        ) == range.slot + range.count,
        !trim3.satisfied() ==> forall|i: int| #[trigger]
            trim3.is_eligible(i) <==> range.slot + range.count <= i < seen && wanted(
                s0,
                trim2.policy(),
                i,
            ),
        trim3.freed() == SLOT_BYTES * cleaned(s0.word(), s3.word(), 16),
        trim3.satisfied() ==> last_cleaned(s0.word(), s3.word(), 16) == range.slot + range.count,
        trim2.policy().requested != 0 ==> trim3.freed() < trim2.policy().requested + SLOT_BYTES,
{
    let policy = trim2.policy();
    let lo = range.slot as int;
    let hi = range.slot + range.count;
    let count = range.count as int;
    assert forall|i: int| floor <= i < 16 implies segment::dirty(s0.word(), i)
        == #[trigger] segment::dirty(s2.word(), i) && s2.stamps()[i] == s0.stamps()[i] by {
        assert(trim_outcome(s0, s2, policy, advise, floor, i));
    }
    assert forall|i: int| lo <= i < hi implies #[trigger] segment::dirty(s2.word(), i)
        && segment::dirty(s0.word(), i) by {
        assert(wanted(s0, policy, i));
        assert(segment::dirty(s0.word(), i) == segment::dirty(s2.word(), i));
    }
    assert forall|i: int| #[trigger] segment::dirty(s3.word(), i) <==> segment::dirty(s2.word(), i)
        && !(ok && lo <= i < hi) by {
        assert(trim2.in_flight(i) <==> lo <= i < hi);
    }
    if ok {
        assert forall|i: int| lo <= i < lo + count implies #[trigger] segment::dirty(
            s0.word(),
            i,
        ) by {
            assert(segment::dirty(s2.word(), i));
        }
        lemma_cleaned(s0.word(), s2.word(), s3.word(), lo, count, 16);
    } else {
        lemma_cleaned_same(s0.word(), s2.word(), s3.word(), 16);
    }
    lemma_cleaned_gap(s0.word(), s2.word(), lo, 16);
    lemma_cleaned_prefix(s0.word(), s2.word(), s3.word(), lo);
    assert(SLOT_BYTES * cleaned(s0.word(), s3.word(), lo) == trim2.freed());
    lemma_chunk_start_same(s0, s2.word(), s3.word(), policy, lo);
    assert(chunk_start(s0, s3.word(), policy, lo) == lo) by {
        if lo > floor {
            assert(!wanted(s0, policy, lo - 1));
        } else {
            assert(wanted(s0, policy, lo));
        }
    }
    lemma_wanted_run(s0, policy, lo, count);
    assert(chunk_len(s0, s3.word(), policy, lo) == count);
    assert forall|i: int| 0 <= i < 16 implies #[trigger] trim_outcome(
        s0,
        s3,
        policy,
        advise,
        hi,
        i,
    ) by {
        assert(trim_outcome(s0, s2, policy, advise, floor, i));
        assert(trim2.in_flight(i) <==> lo <= i < hi);
        assert(s3.stamps()[i] == if trim2.in_flight(i) {
            policy.now
        } else {
            s2.stamps()[i]
        });
        assert(segment::dirty(s3.word(), i) <==> segment::dirty(s2.word(), i) && !(ok && lo <= i
            < hi));
        if lo <= i < hi {
            lemma_chunk_members(s0, s3.word(), policy, lo, i);
            assert(wanted(s0, policy, i));
            assert(segment::dirty(s2.word(), i));
            assert(segment::dirty(s2.word(), lo));
            assert(segment::dirty(s3.word(), lo) <==> !ok);
        } else if i < floor && wanted(s0, policy, i) {
            lemma_chunk_start_same(s0, s2.word(), s3.word(), policy, i);
            let a = chunk_start(s0, s2.word(), policy, i);
            lemma_cleaned_prefix(s0.word(), s2.word(), s3.word(), a);
            assert(segment::dirty(s3.word(), a) == segment::dirty(s2.word(), a));
        } else if floor <= i < lo {
            assert(!wanted(s0, policy, i));
        }
    }
    if wanted(s0, policy, hi) {
        lemma_chunk_members(s0, s3.word(), policy, lo, hi - 1);
        assert(wanted(s0, policy, hi - 1));
    }
    if !trim3.satisfied() {
        assert forall|i: int| #[trigger] trim3.is_eligible(i) <==> hi <= i < seen && wanted(
            s0,
            policy,
            i,
        ) by {
            assert(trim2.held(i) <==> lo <= i < seen && wanted(s0, policy, i));
            assert(trim2.in_flight(i) <==> lo <= i < hi);
        }
    } else {
        assert(ok);
        assert(segment::dirty(s2.word(), hi - 1));
        assert forall|i: int| hi <= i < 16 implies segment::dirty(s0.word(), i)
            == #[trigger] segment::dirty(s3.word(), i) by {
            assert(segment::dirty(s0.word(), i) == segment::dirty(s2.word(), i));
        }
        lemma_last_cleaned(s0.word(), s3.word(), hi, 16);
    }
    assert forall|i: int| #[trigger] segment::busy(s3.word(), i) <==> segment::busy(s0.word(), i)
        || trim3.is_eligible(i) by {
        assert(trim2.held(i) <==> lo <= i < seen && wanted(s0, policy, i));
        assert(segment::busy(s2.word(), i) <==> segment::busy(s0.word(), i) || trim2.held(i));
    }
}

/// Nothing pending sums up to nothing.
proof fn lemma_idle_sums(trim: SegmentTrim, stamps: Seq<u32>)
    requires
        forall|i: int| !#[trigger] trim.is_pending(i),
    ensures
        trim.pending_ages(stamps, 16) == 0,
        trim.pending_count(16) == 0,
{
    assert forall|i: int| i < 16 implies !#[trigger] mask::bit(trim.pending, i) by {
        assert(!trim.is_pending(i));
    }
    lemma_none_below(trim.pending, stamps, trim.policy.now, 16);
}

/// A trim outcome is not affected by changes of the busy slots, nor by going on where there is
/// nothing to do.
proof fn lemma_outcome_kept<F: Fn(usize, usize) -> bool>(
    s0: Segment,
    s1: Segment,
    s2: Segment,
    policy: TrimPolicy,
    advise: F,
    floor: int,
    cut: int,
)
    requires
        0 <= floor <= cut <= 16,
        forall|i: int|
            0 <= i < 16 ==> #[trigger] trim_outcome(s0, s1, policy, advise, floor, i),
        forall|i: int| floor <= i < cut ==> !#[trigger] wanted(s0, policy, i),
        s2.stamps() == s1.stamps(),
        segment::only_busy_changed(s1.word(), s2.word()),
    ensures
        forall|i: int| 0 <= i < 16 ==> #[trigger] trim_outcome(s0, s2, policy, advise, cut, i),
{
    assert forall|i: int| 0 <= i < 16 implies #[trigger] trim_outcome(
        s0,
        s2,
        policy,
        advise,
        cut,
        i,
    ) by {
        assert(trim_outcome(s0, s1, policy, advise, floor, i));
        assert(segment::dirty(s2.word(), i) == segment::dirty(s1.word(), i));
        lemma_chunk_start_same(s0, s1.word(), s2.word(), policy, i);
        let lo = chunk_start(s0, s1.word(), policy, i);
        lemma_cleaned_prefix(s0.word(), s1.word(), s2.word(), lo);
        assert(segment::dirty(s2.word(), lo) == segment::dirty(s1.word(), lo));
        if floor <= i < cut {
            assert(!wanted(s0, policy, i));
        }
    }
}

/// What a trim that had given `freed` bytes back before did to a segment: nothing where that met
/// the request, otherwise it went on for the rest.
pub open spec fn trimmed_after<F: Fn(usize, usize) -> bool>(
    before: Segment,
    after: Segment,
    policy: TrimPolicy,
    advise: F,
    freed: int,
) -> bool {
    if policy.reached(freed) {
        after == before
    } else {
        trimmed(before, after, policy.after(freed), advise)
    }
}

/// What a trim that had given `freed` bytes back before the first of these segments did to segment
/// `k`.
pub open spec fn trimmed_at<F: Fn(usize, usize) -> bool>(
    before: Seq<Segment>,
    after: Seq<Segment>,
    policy: TrimPolicy,
    advise: F,
    freed: int,
    k: int,
) -> bool {
    trimmed_after(
        before[k],
        after[k],
        policy,
        advise,
        freed + SLOT_BYTES * cleaned_segments(before, after, k),
    )
}

/// `after` are the segments `before` after a trim that had given `freed` bytes back before.
pub open spec fn segments_trimmed<F: Fn(usize, usize) -> bool>(
    before: Seq<Segment>,
    after: Seq<Segment>,
    policy: TrimPolicy,
    advise: F,
    freed: int,
) -> bool {
    &&& after.len() == before.len()
    &&& forall|k: int| 0 <= k < before.len() ==> kept(before[k], #[trigger] after[k])
    &&& forall|k: int|
        0 <= k < before.len() ==> #[trigger] trimmed_at(before, after, policy, advise, freed, k)
}

/// Slots of the first `hi` segments that a trim cleaned.
pub open spec fn cleaned_segments(before: Seq<Segment>, after: Seq<Segment>, hi: int) -> int
    decreases hi,
{
    if hi <= 0 {
        0
    } else {
        cleaned_segments(before, after, hi - 1) + cleaned(
            before[hi - 1].word(),
            after[hi - 1].word(),
            16,
        )
    }
}

/// Sums of the ages, and numbers, of the slots of the first `hi` segments that a trim looked at.
pub open spec fn segments_sums(
    before: Seq<Segment>,
    after: Seq<Segment>,
    policy: TrimPolicy,
    freed: int,
    hi: int,
) -> (int, int)
    decreases hi,
{
    if hi <= 0 {
        (0, 0)
    } else {
        let rest = segments_sums(before, after, policy, freed, hi - 1);
        let freed_here = freed + SLOT_BYTES * cleaned_segments(before, after, hi - 1);
        if policy.reached(freed_here) {
            rest
        } else {
            let last = segment_sums(before[hi - 1], after[hi - 1], policy.after(freed_here));
            (rest.0 + last.0, rest.1 + last.1)
        }
    }
}

/// The sums over segments only depend on the segments below the bound.
pub proof fn lemma_segments_same(
    before: Seq<Segment>,
    a: Seq<Segment>,
    b: Seq<Segment>,
    policy: TrimPolicy,
    freed: int,
    hi: int,
)
    requires
        forall|k: int| 0 <= k < hi ==> a[k] == #[trigger] b[k],
    ensures
        cleaned_segments(before, a, hi) == cleaned_segments(before, b, hi),
        segments_sums(before, a, policy, freed, hi) == segments_sums(before, b, policy, freed, hi),
    decreases hi,
{
    if hi > 0 {
        lemma_segments_same(before, a, b, policy, freed, hi - 1);
    }
}

/// No segment holds more slots than it can clean.
proof fn lemma_cleaned_bound(before: u64, after: u64, hi: int)
    requires
        0 <= hi,
    ensures
        0 <= cleaned(before, after, hi) <= hi,
    decreases hi,
{
    if hi > 0 {
        lemma_cleaned_bound(before, after, hi - 1);
    }
}

/// More segments have no fewer cleaned slots.
pub proof fn lemma_cleaned_segments_grow(
    before: Seq<Segment>,
    after: Seq<Segment>,
    lo: int,
    hi: int,
)
    requires
        0 <= lo <= hi,
    ensures
        0 <= cleaned_segments(before, after, lo) <= cleaned_segments(before, after, hi),
    decreases hi,
{
    if hi > 0 {
        lemma_cleaned_bound(before[hi - 1].word(), after[hi - 1].word(), 16);
        if hi > lo {
            lemma_cleaned_segments_grow(before, after, lo, hi - 1);
        } else {
            lemma_cleaned_segments_grow(before, after, lo - 1, hi - 1);
        }
    }
}

/// Segments that were left alone add nothing to the sum.
pub proof fn lemma_untouched_rest(before: Seq<Segment>, after: Seq<Segment>, lo: int, hi: int)
    requires
        0 <= lo <= hi,
        forall|k: int| lo <= k < hi ==> #[trigger] after[k] == before[k],
    ensures
        cleaned_segments(before, after, hi) == cleaned_segments(before, after, lo),
    decreases hi,
{
    if hi > lo {
        lemma_untouched_rest(before, after, lo, hi - 1);
        lemma_cleaned_none(before[hi - 1].word(), 16);
    }
}

/// Once the request is met, no more slots are looked at.
pub proof fn lemma_sums_rest(
    before: Seq<Segment>,
    after: Seq<Segment>,
    policy: TrimPolicy,
    freed: int,
    lo: int,
    hi: int,
)
    requires
        0 <= lo <= hi,
        policy.reached(freed + SLOT_BYTES * cleaned_segments(before, after, lo)),
    ensures
        segments_sums(before, after, policy, freed, hi) == segments_sums(
            before,
            after,
            policy,
            freed,
            lo,
        ),
    decreases hi,
{
    if hi > lo {
        lemma_sums_rest(before, after, policy, freed, lo, hi - 1);
        lemma_cleaned_segments_grow(before, after, lo, hi - 1);
    }
}

/// Segments that a trim did not come to any more.
pub proof fn lemma_segments_skipped<F: Fn(usize, usize) -> bool>(
    segments: Seq<Segment>,
    policy: TrimPolicy,
    advise: F,
    freed: int,
)
    requires
        forall|k: int| 0 <= k < segments.len() ==> (#[trigger] segments[k]).wf(),
        policy.reached(freed),
    ensures
        segments_trimmed(segments, segments, policy, advise, freed),
        cleaned_segments(segments, segments, segments.len() as int) == 0,
        segments_sums(segments, segments, policy, freed, segments.len() as int) == (0int, 0int),
{
    lemma_untouched_rest(segments, segments, 0, segments.len() as int);
    lemma_sums_rest(segments, segments, policy, freed, 0, segments.len() as int);
    assert forall|k: int| 0 <= k < segments.len() implies #[trigger] trimmed_at(
        segments,
        segments,
        policy,
        advise,
        freed,
        k,
    ) by {
        lemma_cleaned_segments_grow(segments, segments, 0, k);
    }
}

/// A trim takes the same slots whatever number of bytes it is asked for.
proof fn lemma_advisable_part<F: Fn(usize, usize) -> bool>(
    s: Segment,
    policy: TrimPolicy,
    part: TrimPolicy,
    advise: F,
)
    requires
        advisable(s, policy, advise),
        part == (TrimPolicy { requested: part.requested, ..policy }),
    ensures
        advisable(s, part, advise),
{
    assert forall|addr: usize, bytes: usize|
        free_range(s, part, addr as int, bytes as int) implies #[trigger] call_requires(
        advise,
        (addr, bytes),
    ) by {
        let (lo, count) = choose|lo: int, count: int| #[trigger]
            free_run(s, part, lo, count) && addr == s.start() + lo * SLOT_BYTES && bytes == count
                * SLOT_BYTES;
        assert forall|i: int| lo <= i < lo + count implies #[trigger] wanted(s, policy, i) by {
            assert(wanted(s, part, i));
        }
        assert(free_run(s, policy, lo, count));
    }
}

/// Trims the segments in turn until the statistics reach the requested number of bytes; tells
/// whether they did.
pub fn trim_segments<F: Fn(usize, usize) -> bool>(
    segments: &mut Vec<Segment>,
    policy: TrimPolicy,
    stats: &mut TrimStats,
    advise: &F,
) -> (done: bool)
    requires
        forall|k: int| 0 <= k < old(segments)@.len() ==> (#[trigger] old(segments)@[k]).wf(),
        forall|k: int|
            0 <= k < old(segments)@.len() ==> advisable(
                #[trigger] old(segments)@[k],
                policy,
                *advise,
            ),
        policy.requested == 0 || old(stats).bytes < policy.requested,
        old(stats).bytes + old(segments)@.len() * segment::SEGMENT_BYTES <= usize::MAX,
        old(stats).ages + old(segments)@.len() * SEGMENT_AGES <= u64::MAX,
        old(stats).samples + old(segments)@.len() * 16 <= u64::MAX,
    ensures
        segments_trimmed(
            old(segments)@,
            final(segments)@,
            policy,
            *advise,
            old(stats).bytes as int,
        ),
        done <==> policy.reached(final(stats).bytes as int),
        policy.requested != 0 ==> final(stats).bytes < policy.requested + SLOT_BYTES,
        (final(stats).ages - old(stats).ages, final(stats).samples - old(stats).samples)
            == segments_sums(
            old(segments)@,
            final(segments)@,
            policy,
            old(stats).bytes as int,
            old(segments)@.len() as int,
        ),
        final(stats).bytes == old(stats).bytes + SLOT_BYTES * cleaned_segments(
            old(segments)@,
            final(segments)@,
            old(segments)@.len() as int,
        ),
        final(stats).bytes <= old(stats).bytes + old(segments)@.len() * segment::SEGMENT_BYTES,
        final(stats).ages <= old(stats).ages + old(segments)@.len() * SEGMENT_AGES,
        final(stats).samples <= old(stats).samples + old(segments)@.len() * 16,
{
    let ghost all = segments@;
    let ghost freed = stats.bytes as int;
    let mut k: usize = 0;
    while k < segments.len()
        invariant
            k <= segments@.len(),
            segments@.len() == all.len(),
            all == old(segments)@,
            freed == old(stats).bytes,
            forall|j: int| 0 <= j < all.len() ==> (#[trigger] all[j]).wf(),
            forall|j: int| 0 <= j < all.len() ==> advisable(#[trigger] all[j], policy, *advise),
            forall|j: int| k <= j < all.len() ==> #[trigger] segments@[j] == all[j],
            forall|j: int| 0 <= j < k ==> kept(all[j], #[trigger] segments@[j]),
            forall|j: int|
                0 <= j < k ==> #[trigger] trimmed_at(
                    all,
                    segments@,
                    policy,
                    *advise,
                    freed,
                    j,
                ),
            policy.requested == 0 || stats.bytes < policy.requested,
            stats.bytes == freed + SLOT_BYTES * cleaned_segments(all, segments@, k as int),
            stats.bytes <= freed + k * segment::SEGMENT_BYTES,
            (stats.ages - old(stats).ages, stats.samples - old(stats).samples) == segments_sums(
                all,
                segments@,
                policy,
                freed,
                k as int,
            ),
            stats.ages <= old(stats).ages + k * SEGMENT_AGES,
            stats.samples <= old(stats).samples + k * 16,
            freed + all.len() * segment::SEGMENT_BYTES <= usize::MAX,
            old(stats).ages + all.len() * SEGMENT_AGES <= u64::MAX,
            old(stats).samples + all.len() * 16 <= u64::MAX,
        decreases segments@.len() - k,
    {
        let ghost before = segments@;
        let ghost stats1 = *stats;
        let rest: usize = policy.requested.saturating_sub(stats.bytes);
        let part: TrimPolicy = TrimPolicy { requested: rest, ..policy };
        assert(before[k as int] == all[k as int] && all[k as int].wf());
        proof {
            assert(part == policy.after(stats.bytes as int));
            lemma_advisable_part(all[k as int], policy, part, *advise);
        }
        trim_segment(&mut segments[k], part, stats, advise);
        proof {
            lemma_segments_same(all, before, segments@, policy, freed, k as int);
            lemma_cleaned_bound(all[k as int].word(), segments@[k as int].word(), 16);
            assert forall|j: int| 0 <= j < k + 1 implies kept(
                all[j],
                #[trigger] segments@[j],
            ) by {
                if j < k {
                    assert(segments@[j] == before[j]);
                }
            }
            assert forall|j: int| 0 <= j < k + 1 implies #[trigger] trimmed_at(
                all,
                segments@,
                policy,
                *advise,
                freed,
                j,
            ) by {
                lemma_segments_same(all, before, segments@, policy, freed, j);
                if j < k {
                    assert(segments@[j] == before[j]);
                    assert(trimmed_at(all, before, policy, *advise, freed, j));
                }
            }
        }
        if policy.requested != 0 && stats.bytes >= policy.requested {
            proof {
                lemma_untouched_rest(all, segments@, k + 1, all.len() as int);
                lemma_sums_rest(all, segments@, policy, freed, k + 1, all.len() as int);
                assert forall|j: int| 0 <= j < all.len() implies kept(
                    all[j],
                    #[trigger] segments@[j],
                ) by {
                    if j > k {
                        assert(all[j].wf());
                    }
                }
                assert forall|j: int| 0 <= j < all.len() implies #[trigger] trimmed_at(
                    all,
                    segments@,
                    policy,
                    *advise,
                    freed,
                    j,
                ) by {
                    if j > k {
                        assert(segments@[j] == all[j]);
                        lemma_cleaned_segments_grow(all, segments@, k + 1, j);
                    }
                }
            }
            return true;
        }
        k = k + 1;
    }
    false
}

/// A trim may take as many slots as the rest of the request needs and no more; where nothing was
/// asked for it may take a whole segment.
pub proof fn law_limit_meets_the_rest(policy: TrimPolicy, freed: int)
    requires
        0 <= freed,
    ensures
        policy.limit(freed) >= 1,
        freed < policy.requested ==> freed + policy.limit(freed) * SLOT_BYTES >= policy.requested,
        freed < policy.requested ==> freed + (policy.limit(freed) - 1) * SLOT_BYTES
            < policy.requested,
        policy.requested == 0 ==> policy.limit(freed) * SLOT_BYTES == segment::SEGMENT_BYTES,
{
}

/// What was given back is taken off the request, down to nothing, and nothing else changes.
pub proof fn law_rest_of_a_request(policy: TrimPolicy, freed: int, more: int)
    requires
        0 <= freed,
        0 <= more,
    ensures
        freed < policy.requested ==> policy.after(freed).requested + freed == policy.requested,
        freed >= policy.requested ==> policy.after(freed).requested == 0,
        policy.after(freed).force == policy.force,
        policy.after(freed).now == policy.now,
        policy.after(freed).average == policy.average,
        policy.requested == 0 ==> !policy.reached(freed),
        policy.requested > 0 ==> (policy.reached(freed) <==> policy.after(freed).requested == 0),
        !policy.reached(freed) ==> policy.after(freed).reached(more) == policy.reached(
            freed + more,
        ),
{
}

/// The time that blocks stay free moves a quarter of the way to the newest average, to the nearest
/// tenth of a second, and stays within one and sixty seconds.
pub proof fn law_blended_time(average: int, previous: int)
    requires
        0 <= average,
        10 <= previous <= 600,
    ensures
        10 <= TrimStats::blended(average, previous) <= 600,
        average == previous ==> TrimStats::blended(average, previous) == previous,
        average >= previous ==> TrimStats::blended(average, previous) >= previous,
        average <= previous ==> TrimStats::blended(average, previous) <= previous,
        10 <= average <= 600 ==> -2 <= 4 * (TrimStats::blended(average, previous) - previous) - (
        average - previous) <= 2,
        average > 600 ==> (TrimStats::blended(average, previous) == 600 || 4 * (
        TrimStats::blended(average, previous) - previous) >= average - previous - 2),
{
}

/// A trim by force takes every slot; another takes those that were given back longer ago than the
/// average time, so none that is newer than one it leaves.
pub proof fn law_old_slots_are_taken(policy: TrimPolicy, stamp: u32, other: u32)
    ensures
        policy.force ==> policy.takes(stamp),
        !policy.force && stamp <= policy.now ==> (policy.takes(stamp) <==> stamp + policy.average
            < policy.now),
        !policy.force && stamp >= policy.now ==> !policy.takes(stamp),
        policy.takes(stamp) && other <= stamp ==> policy.takes(other),
{
}

/// The slots that a trim cleaned are those that were dirty and no longer are, each counted once.
pub proof fn law_cleaned_slots_are_counted(before: u64, after: u64, hi: int)
    requires
        0 <= hi,
    ensures
        cleaned(before, after, hi) == vstd::set_lib::set_int_range(0, hi).filter(
            |i: int| segment::dirty(before, i) && !segment::dirty(after, i),
        ).len(),
        vstd::set_lib::set_int_range(0, hi).filter(
            |i: int| segment::dirty(before, i) && !segment::dirty(after, i),
        ).finite(),
    decreases hi,
{
    let f = |i: int| segment::dirty(before, i) && !segment::dirty(after, i);
    let all = vstd::set_lib::set_int_range(0, hi).filter(f);
    if hi == 0 {
        assert(all =~= Set::<int>::empty());
    } else {
        law_cleaned_slots_are_counted(before, after, hi - 1);
        let below = vstd::set_lib::set_int_range(0, hi - 1).filter(f);
        if f(hi - 1) {
            assert(all =~= below.insert(hi - 1));
        } else {
            assert(all =~= below);
        }
    }
}

/// The members of a mask are counted once each, and their ages add up to between as many times the
/// least and as many times the greatest of them.
pub proof fn law_ages_of_members(
    m: u16,
    stamps: Seq<u32>,
    now: u32,
    hi: int,
    least: int,
    greatest: int,
)
    requires
        0 <= hi,
        forall|i: int|
            0 <= i < hi && #[trigger] mask::bit(m, i) ==> least <= segment::slot_age(stamps[i], now)
                <= greatest,
    ensures
        count_below(m, hi) == vstd::set_lib::set_int_range(0, hi).filter(
            |i: int| mask::bit(m, i),
        ).len(),
        vstd::set_lib::set_int_range(0, hi).filter(|i: int| mask::bit(m, i)).finite(),
        least * count_below(m, hi) <= ages_below(m, stamps, now, hi) <= greatest * count_below(
            m,
            hi,
        ),
    decreases hi,
{
    let f = |i: int| mask::bit(m, i);
    let all = vstd::set_lib::set_int_range(0, hi).filter(f);
    if hi == 0 {
        assert(all =~= Set::<int>::empty());
    } else {
        law_ages_of_members(m, stamps, now, hi - 1, least, greatest);
        let below = vstd::set_lib::set_int_range(0, hi - 1).filter(f);
        let c = count_below(m, hi - 1);
        if f(hi - 1) {
            assert(all =~= below.insert(hi - 1));
            assert(least * (c + 1) == least * c + least) by (nonlinear_arith);
            assert(greatest * (c + 1) == greatest * c + greatest) by (nonlinear_arith);
        } else {
            assert(all =~= below);
        }
    }
}

/// The slots of a chunk are wanted and next to each other, as many as are still asked for, or up to
/// one that is not wanted; every wanted slot is in the chunk that it is given back with.
pub proof fn law_chunks(s: Segment, after: u64, policy: TrimPolicy, i: int)
    requires
        0 <= i,
        wanted(s, policy, i),
    ensures
        ({
            let lo = chunk_start(s, after, policy, i);
            let count = chunk_len(s, after, policy, lo);
            &&& 0 <= lo <= i < lo + count
            &&& free_run(s, policy, lo, count)
            &&& policy.requested > 0 && SLOT_BYTES * cleaned(s.word(), after, lo)
                < policy.requested ==> SLOT_BYTES * cleaned(s.word(), after, lo) + (count - 1)
                * SLOT_BYTES < policy.requested
            &&& policy.requested == 0 ==> !wanted(s, policy, lo + count) || count >= 16
        }),
{
    let lo = chunk_start(s, after, policy, i);
    lemma_chunk_reaches(s, after, policy, i);
    let freed = SLOT_BYTES * cleaned(s.word(), after, lo);
    lemma_cleaned_bound(s.word(), after, lo);
    law_limit_meets_the_rest(policy, freed);
    lemma_wanted_run(s, policy, lo, i - lo + 1);
    lemma_run_is_wanted(s, policy, lo);
}

proof fn lemma_run_is_wanted(s: Segment, policy: TrimPolicy, lo: int)
    ensures
        wanted_run(s, policy, lo) >= 0,
        forall|j: int|
            lo <= j < lo + wanted_run(s, policy, lo) ==> #[trigger] wanted(s, policy, j),
        !wanted(s, policy, lo + wanted_run(s, policy, lo)),
    decreases 16 - lo,
{
    if lo < 16 && wanted(s, policy, lo) {
        lemma_run_is_wanted(s, policy, lo + 1);
    }
}

proof fn lemma_chunk_reaches(s: Segment, after: u64, policy: TrimPolicy, i: int)
    requires
        0 <= i,
    ensures
        ({
            let lo = chunk_start(s, after, policy, i);
            &&& 0 <= lo <= i
            &&& i == lo || i - lo < policy.limit(SLOT_BYTES * cleaned(s.word(), after, lo))
            &&& forall|j: int| lo <= j < i ==> #[trigger] wanted(s, policy, j)
        }),
    decreases i,
{
    if i > 0 && wanted(s, policy, i - 1) {
        lemma_chunk_reaches(s, after, policy, i - 1);
    }
}

/// A trim leaves alone what it may not take. Unless the request was met, it tried every slot that it
/// may take, and where no attempt fails they are all clean. A slot that it cleaned was part of a
/// range of such slots that was given back with success.
pub proof fn law_trim_is_complete<F: Fn(usize, usize) -> bool>(
    before: Segment,
    after: Segment,
    policy: TrimPolicy,
    advise: F,
    i: int,
)
    requires
        trimmed(before, after, policy, advise),
        0 <= i < 16,
    ensures
        !wanted(before, policy, i) ==> segment::dirty(after.word(), i) == segment::dirty(
            before.word(),
            i,
        ) && after.stamps()[i] == before.stamps()[i],
        wanted(before, policy, i) && (policy.requested == 0 || SLOT_BYTES * cleaned(
            before.word(),
            after.word(),
            16,
        ) < policy.requested) ==> after.stamps()[i] == policy.now,
        wanted(before, policy, i) && (policy.requested == 0 || SLOT_BYTES * cleaned(
            before.word(),
            after.word(),
            16,
        ) < policy.requested) && (forall|addr: usize, bytes: usize|
            !#[trigger] call_ensures(advise, (addr, bytes), false)) ==> !segment::dirty(
            after.word(),
            i,
        ),
        segment::dirty(before.word(), i) && !segment::dirty(after.word(), i) ==> exists|
            lo: int,
            count: int,
        |
            lo <= i < lo + count && free_run(before, policy, lo, count) && #[trigger] advised(
                advise,
                before.start() as int,
                lo,
                count,
                true,
            ),
{
    let cut = stop(before.word(), after.word(), policy);
    assert(trim_outcome(before, after, policy, advise, cut, i));
    if wanted(before, policy, i) {
        law_chunks(before, after.word(), policy, i);
    }
}

/// Unless the request was met, a trim of several segments tried every slot that it may take in each
/// of them; it leaves alone what it may not take.
pub proof fn law_every_segment_is_trimmed<F: Fn(usize, usize) -> bool>(
    before: Seq<Segment>,
    after: Seq<Segment>,
    policy: TrimPolicy,
    advise: F,
    freed: int,
    k: int,
    i: int,
)
    requires
        segments_trimmed(before, after, policy, advise, freed),
        0 <= freed,
        0 <= k < before.len(),
        0 <= i < 16,
    ensures
        !wanted(before[k], policy, i) ==> segment::dirty(after[k].word(), i) == segment::dirty(
            before[k].word(),
            i,
        ) && after[k].stamps()[i] == before[k].stamps()[i],
        wanted(before[k], policy, i) && !policy.reached(
            freed + SLOT_BYTES * cleaned_segments(before, after, before.len() as int),
        ) ==> after[k].stamps()[i] == policy.now,
{
    assert(trimmed_at(before, after, policy, advise, freed, k));
    let here = freed + SLOT_BYTES * cleaned_segments(before, after, k);
    lemma_cleaned_adds(before, after, 0, k);
    lemma_cleaned_adds(before, after, k + 1, before.len() as int);
    lemma_cleaned_bound(before[k].word(), after[k].word(), 16);
    assert(cleaned_segments(before, after, k + 1) == cleaned_segments(before, after, k) + cleaned(
        before[k].word(),
        after[k].word(),
        16,
    ));
    if !policy.reached(here) {
        law_rest_of_a_request(
            policy,
            here,
            SLOT_BYTES * cleaned(before[k].word(), after[k].word(), 16),
        );
        law_trim_is_complete(before[k], after[k], policy.after(here), advise, i);
        assert(wanted(before[k], policy, i) == wanted(before[k], policy.after(here), i));
    }
}

proof fn lemma_cleaned_adds(before: Seq<Segment>, after: Seq<Segment>, lo: int, hi: int)
    requires
        0 <= lo <= hi,
    ensures
        0 <= cleaned_segments(before, after, lo) <= cleaned_segments(before, after, hi),
    decreases hi,
{
    if lo < hi {
        lemma_cleaned_adds(before, after, lo, hi - 1);
        lemma_cleaned_bound(before[hi - 1].word(), after[hi - 1].word(), 16);
    } else if hi > 0 {
        lemma_cleaned_adds(before, after, lo - 1, hi - 1);
        lemma_cleaned_bound(before[hi - 1].word(), after[hi - 1].word(), 16);
    }
}

/// The run of free slots that may still hold pages ends at the first slot that is not one.
pub proof fn law_runs_end(word: u64, lo: int)
    requires
        0 <= lo <= 16,
    ensures
        lo <= run_end(word, lo) <= 16,
        forall|i: int|
            lo <= i < run_end(word, lo) ==> #[trigger] segment::reclaimable(word, i),
        run_end(word, lo) < 16 ==> !segment::reclaimable(word, run_end(word, lo)),
    decreases 16 - lo,
{
    if lo < 16 && segment::reclaimable(word, lo) {
        law_runs_end(word, lo + 1);
    }
}

/// Where the request was met, the trim stopped behind a slot that it cleaned, and cleaned none
/// behind; otherwise it went through the whole segment.
pub proof fn law_trim_stops_when_met(before: u64, after: u64, policy: TrimPolicy, i: int)
    requires
        0 <= i < 16,
    ensures
        0 <= stop(before, after, policy) <= 16,
        policy.requested == 0 ==> stop(before, after, policy) == 16,
        stop(before, after, policy) <= i ==> !(segment::dirty(before, i) && !segment::dirty(
            after,
            i,
        )),
        policy.requested > 0 && SLOT_BYTES * cleaned(before, after, 16) < policy.requested
            ==> stop(before, after, policy) == 16,
        0 < stop(before, after, policy) < 16 ==> ({
            let last = stop(before, after, policy) - 1;
            &&& segment::dirty(before, last)
            &&& !segment::dirty(after, last)
            &&& SLOT_BYTES * cleaned(before, after, 16) >= policy.requested
        }),
{
    lemma_last_is_cleaned(before, after, 16);
}

proof fn lemma_last_is_cleaned(before: u64, after: u64, hi: int)
    requires
        0 <= hi,
    ensures
        ({
            let end = last_cleaned(before, after, hi);
            &&& 0 <= end <= hi
            &&& end > 0 ==> segment::dirty(before, end - 1) && !segment::dirty(after, end - 1)
            &&& forall|i: int|
                end <= i < hi ==> !(#[trigger] segment::dirty(before, i) && !segment::dirty(
                    after,
                    i,
                ))
        }),
    decreases hi,
{
    if hi > 0 {
        lemma_last_is_cleaned(before, after, hi - 1);
    }
}

/// A trim that was not stopped looked at all slots that are free but may still hold pages, and the
/// sums are over all of them.
pub proof fn law_unstopped_trim_looks_at_all(before: Segment, after: Segment, policy: TrimPolicy)
    requires
        policy.requested == 0,
    ensures
        segment_sums(before, after, policy).0 == ages_below(
            segment::reclaimable_mask(before.word()),
            before.stamps(),
            policy.now,
            16,
        ),
        segment_sums(before, after, policy).1 == count_below(
            segment::reclaimable_mask(before.word()),
            16,
        ),
        forall|i: int| #[trigger]
            mask::bit(segment::reclaimable_mask(before.word()), i) <==> segment::reclaimable(
                before.word(),
                i,
            ),
{
    broadcast use {mask::lemma_bit_and, mask::lemma_bit_not};
    law_trim_stops_when_met(before.word(), after.word(), policy, 0);
    law_runs_end(before.word(), 16);
}

/// A trim that was not asked for an amount looks at every segment: the sums are over all of them,
/// whatever was given back before.
pub proof fn law_sums_of_segments_add_up(
    before: Seq<Segment>,
    after: Seq<Segment>,
    b: Segment,
    a: Segment,
    policy: TrimPolicy,
    freed: int,
    other: int,
)
    requires
        policy.requested == 0,
        after.len() == before.len(),
        0 <= freed,
        0 <= other,
    ensures
        segments_sums(before, after, policy, freed, 0) == (0int, 0int),
        ({
            let n = before.len() as int;
            let rest = segments_sums(before, after, policy, other, n);
            let one = segment_sums(b, a, policy);
            let all = segments_sums(before.push(b), after.push(a), policy, freed, n + 1);
            all == (rest.0 + one.0, rest.1 + one.1)
        }),
{
    let n = before.len() as int;
    let bs = before.push(b);
    let aa = after.push(a);
    lemma_sums_prefix(before, after, bs, aa, policy, freed, other, n);
    assert(bs[n] == b && aa[n] == a);
    lemma_cleaned_adds(bs, aa, 0, n);
    assert(policy.after(freed + SLOT_BYTES * cleaned_segments(bs, aa, n)) == policy);
}

/// Without an amount that is asked for, the sums over the first segments depend on those alone.
pub proof fn lemma_sums_prefix(
    before: Seq<Segment>,
    after: Seq<Segment>,
    more: Seq<Segment>,
    more_after: Seq<Segment>,
    policy: TrimPolicy,
    freed: int,
    other: int,
    hi: int,
)
    requires
        policy.requested == 0,
        0 <= freed,
        0 <= other,
        forall|k: int| 0 <= k < hi ==> #[trigger] more[k] == before[k],
        forall|k: int| 0 <= k < hi ==> #[trigger] more_after[k] == after[k],
    ensures
        segments_sums(more, more_after, policy, freed, hi) == segments_sums(
            before,
            after,
            policy,
            other,
            hi,
        ),
    decreases hi,
{
    if hi > 0 {
        lemma_sums_prefix(before, after, more, more_after, policy, freed, other, hi - 1);
        lemma_cleaned_adds(before, after, 0, hi - 1);
        lemma_cleaned_adds(more, more_after, 0, hi - 1);
        assert(policy.after(freed + SLOT_BYTES * cleaned_segments(more, more_after, hi - 1))
            == policy);
        assert(policy.after(other + SLOT_BYTES * cleaned_segments(before, after, hi - 1))
            == policy);
        assert(more[hi - 1] == before[hi - 1] && more_after[hi - 1] == after[hi - 1]);
    }
}

} // verus!
