//! How many blocks a refill asks for.

use vstd::prelude::*;

verus! {

pub const DEFAULT_BATCH: usize = 128;

/// Low demands in a row after which the batch shrinks, not counting the last.
pub const LOW_DEMANDS: u8 = 3;

/// A batch size that follows the demand, and how many times in a row the demand was low. Both
/// share one word; zero stands for a batch that nothing was learnt about yet.
pub struct AdaptiveBatching {
    state: usize,
}

/// A batch and the number of low demands in a row.
#[derive(Clone, Copy, Debug, PartialEq, Eq, Structural)]
pub struct Learnt {
    pub batch: usize,
    pub low_count: u8,
}

/// The larger of two numbers.
pub open spec fn larger(a: int, b: int) -> int {
    if a < b {
        b
    } else {
        a
    }
}

/// The smaller of two numbers.
pub open spec fn smaller(a: int, b: int) -> int {
    if a < b {
        a
    } else {
        b
    }
}

/// What is learnt from a demand: more than the batch raises it by half or to the demand, within
/// `max`; less than a quarter of it, four times in a row, halves it.
pub open spec fn learn(s: Learnt, demand: int, max: int) -> Learnt {
    let d = larger(demand, 1);
    let b = s.batch as int;
    if d > b {
        Learnt { batch: smaller(larger(b + b / 2, d), max) as usize, low_count: 0 }
    } else if d * 4 < b {
        if s.low_count >= LOW_DEMANDS {
            Learnt { batch: larger(b / 2, 1) as usize, low_count: 0 }
        } else {
            Learnt { batch: s.batch, low_count: (s.low_count + 1) as u8 }
        }
    } else {
        Learnt { batch: s.batch, low_count: 0 }
    }
}

impl AdaptiveBatching {
    /// What is known, starting from `init_batch`.
    pub closed spec fn learnt(&self, init_batch: usize) -> Learnt {
        if self.state == 0 {
            Learnt { batch: larger(init_batch as int, 1) as usize, low_count: 0 }
        } else {
            Learnt { batch: (self.state / 256) as usize, low_count: (self.state % 256) as u8 }
        }
    }

    /// Nothing was learnt yet.
    pub closed spec fn is_new(&self) -> bool {
        self.state == 0
    }

    pub fn new() -> (r: Self)
        ensures
            r.is_new(),
            forall|init: usize| #[trigger]
                r.learnt(init) == (Learnt {
                    batch: larger(init as int, 1) as usize,
                    low_count: 0,
                }),
    {
        AdaptiveBatching { state: 0 }
    }

    fn encode(batch: usize, low_count: u8) -> (r: usize)
        requires
            batch <= usize::MAX / 256,
        ensures
            r == batch * 256 + low_count,
    {
        batch * 256 + low_count as usize
    }

    fn decode(state: usize, init_batch: usize) -> (r: (usize, u8))
        ensures
            (Learnt { batch: r.0, low_count: r.1 }) == (AdaptiveBatching { state }).learnt(
                init_batch,
            ),
    {
        if state == 0 {
            (
                if init_batch < 1 {
                    1
                } else {
                    init_batch
                },
                0,
            )
        } else {
            (state / 256, (state % 256) as u8)
        }
    }

    /// Learns from a demand. The word keeps what was learnt unless that is a batch of zero.
    pub fn update_refill(&mut self, init_batch: usize, demand: usize, max: usize)
        requires
            init_batch <= usize::MAX / 256,
            max <= usize::MAX / 256,
        ensures
            ({
                let next = learn(old(self).learnt(init_batch), demand as int, max as int);
                &&& final(self).is_new() <==> next == (Learnt { batch: 0, low_count: 0 })
                &&& forall|init: usize|
                    next != (Learnt { batch: 0, low_count: 0 })
                        ==> #[trigger] final(self).learnt(init) == next
            }),
    {
        let old_state: usize = self.state;
        let (batch, low_count) = Self::decode(old_state, init_batch);
        let demand: usize = if demand < 1 {
            1
        } else {
            demand
        };
        let next: (usize, u8) = if demand > batch {
            let grown: usize = batch + batch / 2;
            let wanted: usize = if grown < demand {
                demand
            } else {
                grown
            };
            (
                if wanted < max {
                    wanted
                } else {
                    max
                },
                0,
            )
        } else if demand < batch / 4 || (demand == batch / 4 && batch % 4 > 0) {
            if low_count >= LOW_DEMANDS {
                let half: usize = batch / 2;
                (
                    if half < 1 {
                        1
                    } else {
                        half
                    },
                    0,
                )
            } else {
                (batch, low_count + 1)
            }
        } else {
            (batch, 0)
        };
        let ghost known = old(self).learnt(init_batch);
        assert(demand * 4 < batch <==> demand < batch / 4 || (demand == batch / 4 && batch % 4
            > 0));
        let new_state: usize = Self::encode(next.0, next.1);
        if new_state != old_state {
            self.state = new_state;
        }
        assert((new_state / 256) as usize == next.0 && (new_state % 256) as u8 == next.1);
    }

    /// Learns from a demand.
    pub fn update_refill_noninline(&mut self, init_batch: usize, demand: usize, max: usize)
        requires
            init_batch <= usize::MAX / 256,
            max <= usize::MAX / 256,
        ensures
            ({
                let next = learn(old(self).learnt(init_batch), demand as int, max as int);
                &&& final(self).is_new() <==> next == (Learnt { batch: 0, low_count: 0 })
                &&& forall|init: usize|
                    next != (Learnt { batch: 0, low_count: 0 })
                        ==> #[trigger] final(self).learnt(init) == next
            }),
    {
        self.update_refill(init_batch, demand, max);
    }

    /// Blocks to ask for, at most `fallback`.
    pub fn batch(&self, init_batch: usize, fallback: usize) -> (r: usize)
        ensures
            r == smaller(self.learnt(init_batch).batch as int, fallback as int),
    {
        let (batch, _) = Self::decode(self.state, init_batch);
        if batch < fallback {
            batch
        } else {
            fallback
        }
    }
}

/// A batch grows only when the demand exceeds it, never beyond the limit, and meets every demand
/// within the limit.
pub proof fn law_batch_follows_demand(s: Learnt, demand: int, max: int)
    requires
        s.batch <= usize::MAX / 2,
        0 <= demand <= usize::MAX,
        0 <= max <= usize::MAX,
    ensures
        ({
            let next = learn(s, demand, max);
            &&& next.batch > s.batch ==> larger(demand, 1) > s.batch && next.batch <= max
            &&& demand > s.batch && demand <= max ==> next.batch >= demand
            &&& max >= 1 && s.batch >= 1 ==> next.batch >= 1
        }),
{
}

/// Four low demands in a row halve a batch; three do not change it.
pub proof fn law_low_demands_halve(batch: usize, d0: int, d1: int, d2: int, d3: int, max: int)
    requires
        0 <= d0 && 0 <= d1 && 0 <= d2 && 0 <= d3,
        larger(d0, 1) * 4 < batch,
        larger(d1, 1) * 4 < batch,
        larger(d2, 1) * 4 < batch,
        larger(d3, 1) * 4 < batch,
    ensures
        ({
            let three = learn(
                learn(learn(Learnt { batch, low_count: 0 }, d0, max), d1, max),
                d2,
                max,
            );
            &&& three.batch == batch
            &&& learn(three, d3, max) == (Learnt { batch: (batch / 2) as usize, low_count: 0 })
        }),
{
}

/// A demand that the batch meets, and that is not low, changes nothing but the count of low ones; one
/// that exceeds it raises it at least to the demand and by half, as far as the limit lets it.
pub proof fn law_learning(s: Learnt, demand: int, max: int)
    requires
        1 <= s.batch <= usize::MAX / 2,
        0 <= demand <= usize::MAX,
        0 <= max <= usize::MAX,
    ensures
        ({
            let next = learn(s, demand, max);
            &&& demand <= s.batch ==> next.batch <= s.batch && 2 * next.batch + 1 >= s.batch
            &&& demand <= s.batch && demand * 4 >= s.batch ==> next == (Learnt {
                batch: s.batch,
                low_count: 0,
            })
            &&& demand > s.batch ==> next.low_count == 0 && (next.batch == max || (next.batch
                >= demand && 2 * next.batch + 1 >= 3 * s.batch && (next.batch == demand || 2
                * next.batch <= 3 * s.batch)))
            &&& s.low_count < LOW_DEMANDS && demand <= s.batch ==> next.batch == s.batch
        }),
{
}

} // verus!
