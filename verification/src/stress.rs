//! What a stress run does to an allocator and holds it to.

use vstd::prelude::*;

verus! {

/// Most lanes of a run.
pub const MAX_THREADS: usize = 12;

/// Lanes of a run that a value stands for: at least two, and no more than there may be.
pub fn thread_count(value: u8) -> (r: usize)
    ensures
        r == 2 + value as int % (MAX_THREADS - 1),
        2 <= r <= MAX_THREADS,
{
    2 + value as usize % (MAX_THREADS - 1)
}

/// Sizes that a run asks for.
#[derive(Clone, Copy, Debug, PartialEq, Eq, Structural)]
pub enum FuzzType {
    Small,
    Big,
    Mixed,
    Full,
}

/// The sizes that a number stands for: 1 for small, 2 for big, 3 for mixed, 4 for full.
pub fn get_fuzz_type(number: usize) -> (r: Option<FuzzType>)
    ensures
        r == (if number == 1 {
            Some(FuzzType::Small)
        } else if number == 2 {
            Some(FuzzType::Big)
        } else if number == 3 {
            Some(FuzzType::Mixed)
        } else if number == 4 {
            Some(FuzzType::Full)
        } else {
            None
        }),
{
    if number == 1 {
        Some(FuzzType::Small)
    } else if number == 2 {
        Some(FuzzType::Big)
    } else if number == 3 {
        Some(FuzzType::Mixed)
    } else if number == 4 {
        Some(FuzzType::Full)
    } else {
        None
    }
}

/// The size that a value stands for.
pub open spec fn size_of_value(kind: FuzzType, value: int) -> int {
    match kind {
        FuzzType::Small => 1 + value % 0x4_0000,
        FuzzType::Big => 0x40_0000 + value % 0x3c0_0001,
        FuzzType::Mixed => 1 + value % 0x24_0000,
        FuzzType::Full => 1 + value % 0x80_0000,
    }
}

/// The size that a value stands for.
pub fn allocation_size(kind: FuzzType, value: u32) -> (r: usize)
    ensures
        r == size_of_value(kind, value as int),
        1 <= r <= 0x400_0000,
{
    match kind {
        FuzzType::Small => 1 + (value % 0x4_0000) as usize,
        FuzzType::Big => 0x40_0000 + (value % 0x3c0_0001) as usize,
        FuzzType::Mixed => 1 + (value % 0x24_0000) as usize,
        FuzzType::Full => 1 + (value % 0x80_0000) as usize,
    }
}

/// The pattern that follows: different from lane to lane and from step to step, and never zero.
pub open spec fn pattern_after(thread_id: int, sequence: int) -> int {
    let p = (thread_id * 67 + sequence) % 256;
    if p < 1 {
        1
    } else {
        p
    }
}

/// The next pattern of a lane.
pub fn next_pattern(thread_id: usize, sequence: &mut u8) -> (r: u8)
    ensures
        *final(sequence) == (*old(sequence) + 1) % 256,
        r == pattern_after(thread_id as int, *final(sequence) as int),
        r != 0,
{
    *sequence = if *sequence == 255 {
        0
    } else {
        *sequence + 1
    };
    let lane: usize = thread_id % 256;
    let p: usize = (lane * 67 + *sequence as usize) % 256;
    proof {
        let s = *sequence as int;
        let q = thread_id as int / 256;
        assert(thread_id * 67 + s == (lane * 67 + s) + 256 * (67 * q)) by (nonlinear_arith)
            requires
                thread_id == 256 * q + lane,
        ;
        vstd::arithmetic::div_mod::lemma_mod_multiples_vanish(67 * q, lane * 67 + s, 256);
    }
    if p < 1 {
        1
    } else {
        p as u8
    }
}

/// One step of a run.
#[derive(Clone, Copy, Debug, PartialEq, Eq, Structural)]
pub enum Op {
    Alloc { size: u32, align_shift: u8 },
    AllocZeroed { size: u32, align_shift: u8 },
    Dealloc { index: u16 },
    Realloc { index: u16, new_size: u32 },
}

/// A live allocation and the byte that all of it holds.
#[derive(Clone, Copy, Debug, PartialEq, Eq, Structural)]
pub struct Live {
    pub ptr: usize,
    pub size: usize,
    pub align: usize,
    pub pattern: u8,
}

/// What the allocator is asked to do.
#[derive(Clone, Copy, Debug, PartialEq, Eq, Structural)]
pub enum Task {
    Alloc { size: usize, align: usize, zeroed: bool },
    /// The allocation has to hold its pattern, and is freed.
    Dealloc(Live),
    /// The allocation has to hold its pattern, and is resized.
    Realloc { index: usize, live: Live, new_size: usize },
}

/// What an allocator did wrong.
#[derive(Clone, Copy, Debug, PartialEq, Eq, Structural)]
pub enum Defect {
    Misaligned,
    NotZeroed,
    PrefixLost,
    Overlap { first: usize, first_end: usize, second: usize, second_end: usize },
    RangeOverflow,
}

/// Bytes to be filled with a pattern.
#[derive(Clone, Copy, Debug, PartialEq, Eq, Structural)]
pub struct Fill {
    pub ptr: usize,
    pub len: usize,
    pub pattern: u8,
}

/// One of several threads that share out the steps of a run.
pub struct Lane {
    thread_id: usize,
    thread_count: usize,
    /// The step that is next.
    next: usize,
    kind: FuzzType,
    live: Vec<Live>,
    sequence: u8,
}

/// `1 << (shift % 13)`.
pub open spec fn alignment_of(shift: u8) -> usize {
    1usize << ((shift % 13) as usize)
}

impl Lane {
    pub closed spec fn thread_id(&self) -> int {
        self.thread_id as int
    }

    pub closed spec fn thread_count(&self) -> int {
        self.thread_count as int
    }

    pub closed spec fn position(&self) -> int {
        self.next as int
    }

    pub closed spec fn kind(&self) -> FuzzType {
        self.kind
    }

    pub closed spec fn live(&self) -> Seq<Live> {
        self.live@
    }

    pub closed spec fn sequence(&self) -> int {
        self.sequence as int
    }

    pub open spec fn wf(&self) -> bool {
        self.thread_count() > 0
    }

    /// Who the lane is does not change.
    pub open spec fn same_lane(&self, after: &Self) -> bool {
        &&& after.thread_id() == self.thread_id()
        &&& after.thread_count() == self.thread_count()
        &&& after.kind() == self.kind()
    }

    /// The lane of a thread before its first step.
    pub fn new(thread_id: usize, thread_count: usize, kind: FuzzType) -> (r: Self)
        requires
            thread_count > 0,
        ensures
            r.wf(),
            r.thread_id() == thread_id,
            r.thread_count() == thread_count,
            r.kind() == kind,
            r.position() == thread_id,
            r.live().len() == 0,
            r.sequence() == 0,
    {
        Lane { thread_id, thread_count, next: thread_id, kind, live: Vec::new(), sequence: 0 }
    }

    /// What a step asks of the allocator; nothing when it speaks of live allocations and there are
    /// none.
    pub open spec fn task_of(&self, op: Op) -> Option<Task> {
        match op {
            Op::Alloc { size, align_shift } => Some(
                Task::Alloc {
                    size: size_of_value(self.kind(), size as int) as usize,
                    align: alignment_of(align_shift),
                    zeroed: false,
                },
            ),
            Op::AllocZeroed { size, align_shift } => Some(
                Task::Alloc {
                    size: size_of_value(self.kind(), size as int) as usize,
                    align: alignment_of(align_shift),
                    zeroed: true,
                },
            ),
            Op::Dealloc { index } => if self.live().len() == 0 {
                None
            } else {
                Some(Task::Dealloc(self.live()[index as int % self.live().len() as int]))
            },
            Op::Realloc { index, new_size } => if self.live().len() == 0 {
                None
            } else {
                let i = index as int % self.live().len() as int;
                Some(
                    Task::Realloc {
                        index: i as usize,
                        live: self.live()[i],
                        new_size: size_of_value(self.kind(), new_size as int) as usize,
                    },
                )
            },
        }
    }

    /// The live allocations once a step was taken up: what is freed is taken out, and the last one
    /// takes its place.
    pub open spec fn live_after(&self, op: Op) -> Seq<Live> {
        let n = self.live().len() as int;
        match op {
            Op::Dealloc { index } => if n == 0 {
                self.live()
            } else {
                let i = index as int % n;
                self.live().update(i, self.live()[n - 1]).drop_last()
            },
            _ => self.live(),
        }
    }

    /// Takes up the next step of the lane: of every `thread_count` steps, one. `None` at the end,
    /// `Some(None)` for a step that asks nothing of the allocator.
    pub fn run_lane(&mut self, ops: &Vec<Op>) -> (r: Option<Option<Task>>)
        requires
            old(self).wf(),
            ops@.len() + old(self).thread_count() <= usize::MAX,
        ensures
            final(self).wf(),
            old(self).same_lane(final(self)),
            final(self).sequence() == old(self).sequence(),
            old(self).position() >= ops@.len() ==> {
                &&& r is None
                &&& final(self).position() == old(self).position()
                &&& final(self).live() == old(self).live()
            },
            old(self).position() < ops@.len() ==> {
                let op = ops@[old(self).position()];
                &&& r == Some(old(self).task_of(op))
                &&& final(self).position() == old(self).position() + old(self).thread_count()
                &&& final(self).live() == old(self).live_after(op)
            },
    {
        if self.next >= ops.len() {
            return None;
        }
        let op: Op = ops[self.next];
        self.next = self.next + self.thread_count;
        match op {
            Op::Alloc { size, align_shift } => Some(
                Some(
                    Task::Alloc {
                        size: allocation_size(self.kind, size),
                        align: 1usize << ((align_shift % 13) as usize),
                        zeroed: false,
                    },
                ),
            ),
            Op::AllocZeroed { size, align_shift } => Some(
                Some(
                    Task::Alloc {
                        size: allocation_size(self.kind, size),
                        align: 1usize << ((align_shift % 13) as usize),
                        zeroed: true,
                    },
                ),
            ),
            Op::Dealloc { index } => {
                let n: usize = self.live.len();
                if n == 0 {
                    return Some(None);
                }
                let ghost before = self.live@;
                let i: usize = index as usize % n;
                let entry = self.live[i];
                let last = self.live[n - 1];
                self.live.set(i, last);
                let _ = self.live.pop();
                assert(self.live@ =~= before.update(i as int, before[n - 1]).drop_last());
                Some(Some(Task::Dealloc(entry)))
            },
            Op::Realloc { index, new_size } => {
                let n: usize = self.live.len();
                if n == 0 {
                    return Some(None);
                }
                let i: usize = index as usize % n;
                Some(
                    Some(
                        Task::Realloc {
                            index: i,
                            live: self.live[i],
                            new_size: allocation_size(self.kind, new_size),
                        },
                    ),
                )
            },
        }
    }

    /// Holds the allocator to what it gave for an allocation, zero standing for nothing. What it
    /// gave becomes live and is to be filled. `is_zero` tells that all bytes are zero.
    pub fn allocated(
        &mut self,
        size: usize,
        align: usize,
        zeroed: bool,
        ptr: usize,
        is_zero: bool,
    ) -> (r: Result<Option<Fill>, Defect>)
        requires
            old(self).wf(),
            align > 0,
        ensures
            final(self).wf(),
            old(self).same_lane(final(self)),
            final(self).position() == old(self).position(),
            ({
                let good = ptr != 0 && ptr as int % align as int == 0 && (!zeroed || is_zero);
                let sequence = (old(self).sequence() + 1) % 256;
                let pattern = pattern_after(old(self).thread_id(), sequence) as u8;
                &&& !good ==> final(self).live() == old(self).live() && final(self).sequence()
                    == old(self).sequence()
                &&& good ==> {
                    &&& final(self).sequence() == sequence
                    &&& final(self).live() == old(self).live().push(
                        Live { ptr, size, align, pattern },
                    )
                }
                &&& r == (if ptr == 0 {
                    Ok::<Option<Fill>, Defect>(None)
                } else if ptr as int % align as int != 0 {
                    Err::<Option<Fill>, Defect>(Defect::Misaligned)
                } else if zeroed && !is_zero {
                    Err::<Option<Fill>, Defect>(Defect::NotZeroed)
                } else {
                    Ok::<Option<Fill>, Defect>(Some(Fill { ptr, len: size, pattern }))
                })
            }),
    {
        if ptr == 0 {
            return Ok(None);
        }
        if ptr % align != 0 {
            return Err(Defect::Misaligned);
        }
        if zeroed && !is_zero {
            return Err(Defect::NotZeroed);
        }
        let pattern: u8 = next_pattern(self.thread_id, &mut self.sequence);
        self.live.push(Live { ptr, size, align, pattern });
        Ok(Some(Fill { ptr, len: size, pattern }))
    }

    /// Bytes that a resized allocation has to keep.
    pub open spec fn spec_preserved(old_size: int, new_size: int) -> int {
        if old_size < new_size {
            old_size
        } else {
            new_size
        }
    }

    /// Bytes that a resized allocation has to keep.
    pub fn preserved(old_size: usize, new_size: usize) -> (r: usize)
        ensures
            r == Self::spec_preserved(old_size as int, new_size as int),
    {
        if old_size < new_size {
            old_size
        } else {
            new_size
        }
    }

    /// Holds the allocator to what it gave for a resized allocation, zero standing for nothing, in
    /// which case the old one stays live. `kept` tells that the bytes to keep hold the old pattern.
    pub fn reallocated(&mut self, index: usize, new_size: usize, ptr: usize, kept: bool) -> (r:
        Result<Option<Fill>, Defect>)
        requires
            old(self).wf(),
            index < old(self).live().len(),
        ensures
            final(self).wf(),
            old(self).same_lane(final(self)),
            final(self).position() == old(self).position(),
            ({
                let good = ptr != 0 && kept;
                let sequence = (old(self).sequence() + 1) % 256;
                let pattern = pattern_after(old(self).thread_id(), sequence) as u8;
                &&& !good ==> final(self).live() == old(self).live() && final(self).sequence()
                    == old(self).sequence()
                &&& good ==> {
                    &&& final(self).sequence() == sequence
                    &&& final(self).live() == old(self).live().update(
                        index as int,
                        Live {
                            ptr,
                            size: new_size,
                            align: old(self).live()[index as int].align,
                            pattern,
                        },
                    )
                }
                &&& r == (if ptr == 0 {
                    Ok::<Option<Fill>, Defect>(None)
                } else if !kept {
                    Err::<Option<Fill>, Defect>(Defect::PrefixLost)
                } else {
                    Ok::<Option<Fill>, Defect>(Some(Fill { ptr, len: new_size, pattern }))
                })
            }),
    {
        if ptr == 0 {
            return Ok(None);
        }
        if !kept {
            return Err(Defect::PrefixLost);
        }
        let pattern: u8 = next_pattern(self.thread_id, &mut self.sequence);
        let align: usize = self.live[index].align;
        self.live.set(index, Live { ptr, size: new_size, align, pattern });
        Ok(Some(Fill { ptr, len: new_size, pattern }))
    }

    /// The allocations that are live at the end.
    pub fn into_live(self) -> (r: Vec<Live>)
        ensures
            r@ == self.live(),
    {
        self.live
    }
}

/// Where a lane leaves what is live at its end.
pub struct LaneOutput {
    live: Option<Vec<Live>>,
}

impl LaneOutput {
    /// What was left, if anything was.
    pub closed spec fn left(&self) -> Option<Seq<Live>> {
        match self.live {
            Some(live) => Some(live@),
            None => None,
        }
    }

    pub fn new() -> (r: Self)
        ensures
            r.left() is None,
    {
        LaneOutput { live: None }
    }

    /// Leaves the live allocations of a lane, once.
    pub fn publish(&mut self, live: Vec<Live>)
        requires
            old(self).left() is None,
        ensures
            final(self).left() == Some(live@),
    {
        self.live = Some(live);
    }

    /// Takes what was left.
    pub fn into_live(self) -> (r: Vec<Live>)
        requires
            self.left() is Some,
        ensures
            self.left() == Some(r@),
    {
        match self.live {
            Some(live) => live,
            None => Vec::new(),
        }
    }
}

/// Two allocations share a byte.
pub open spec fn overlap(a: Live, b: Live) -> bool {
    a.ptr < b.ptr + b.size && b.ptr < a.ptr + a.size
}

/// The range of an allocation ends inside the address space.
pub open spec fn ends_in_memory(l: Live) -> bool {
    l.ptr + l.size <= usize::MAX
}

/// All allocations have bytes, end inside the address space, and no two share one.
pub open spec fn disjoint(live: Seq<Live>) -> bool {
    &&& forall|i: int| 0 <= i < live.len() ==> ends_in_memory(#[trigger] live[i])
    &&& forall|i: int, j: int|
        0 <= i < j < live.len() ==> !overlap(#[trigger] live[i], #[trigger] live[j])
}

/// Place `i` is listed in `order`.
pub open spec fn listed(order: Seq<usize>, i: int) -> bool {
    exists|p: int| 0 <= p < order.len() && #[trigger] order[p] == i
}

/// `order` lists the places of all allocations, each once, by ascending address.
pub open spec fn by_address(live: Seq<Live>, order: Seq<usize>) -> bool {
    &&& order.len() == live.len()
    &&& order.no_duplicates()
    &&& forall|p: int| 0 <= p < order.len() ==> 0 <= #[trigger] order[p] < live.len()
    &&& forall|i: int| 0 <= i < live.len() ==> #[trigger] listed(order, i)
    &&& forall|p: int, q: int|
        0 <= p <= q < order.len() ==> live[(#[trigger] order[p]) as int].ptr <= live[(
        #[trigger] order[q]) as int].ptr
}

/// The allocation at position `p` by address ends where the next one starts, or before.
pub open spec fn apart_at(live: Seq<Live>, order: Seq<usize>, p: int) -> bool {
    live[order[p] as int].ptr + live[order[p] as int].size <= live[order[p + 1] as int].ptr
}

/// The first allocation by address that reaches into the next one is at position `p`.
pub open spec fn first_clash(live: Seq<Live>, order: Seq<usize>, p: int) -> bool {
    &&& 0 <= p
    &&& p + 1 < order.len()
    &&& !apart_at(live, order, p)
    &&& forall|q: int| 0 <= q < p ==> #[trigger] apart_at(live, order, q)
}

/// What is found where the allocations at `a` and `b` share bytes.
pub open spec fn clash(a: Live, b: Live) -> Defect {
    Defect::Overlap {
        first: a.ptr,
        first_end: (a.ptr + a.size) as usize,
        second: b.ptr,
        second_end: (b.ptr + b.size) as usize,
    }
}

/// What is found among allocations by address: the first neighbours that share bytes, the lower one
/// first.
pub open spec fn found(live: Seq<Live>, order: Seq<usize>, r: Result<(), Defect>) -> bool {
    match r {
        Ok(_) => forall|p: int|
            0 <= p && p + 1 < order.len() ==> #[trigger] apart_at(live, order, p),
        Err(d) => exists|p: int| #[trigger]
            first_clash(live, order, p) && d == clash(
                live[order[p] as int],
                live[order[p + 1] as int],
            ),
    }
}

/// The places of the allocations by ascending address.
fn sort_by_address(live: &Vec<Live>) -> (order: Vec<usize>)
    ensures
        by_address(live@, order@),
{
    let mut order: Vec<usize> = Vec::new();
    let mut k: usize = 0;
    while k < live.len()
        invariant
            k <= live@.len(),
            order@.len() == k,
            order@.no_duplicates(),
            forall|p: int| 0 <= p < k ==> 0 <= #[trigger] order@[p] < k,
            forall|i: int| 0 <= i < k ==> #[trigger] listed(order@, i),
            forall|p: int, q: int|
                0 <= p <= q < k ==> live@[(#[trigger] order@[p]) as int].ptr <= live@[(
                #[trigger] order@[q]) as int].ptr,
        decreases live@.len() - k,
    {
        let ghost before = order@;
        let addr: usize = live[k].ptr;
        let mut at: usize = k;
        while at > 0 && live[order[at - 1]].ptr > addr
            invariant
                at <= k < live@.len(),
                order@ == before,
                order@.len() == k,
                addr == live@[k as int].ptr,
                forall|p: int| 0 <= p < k ==> 0 <= #[trigger] order@[p] < k,
                forall|p: int| at <= p < k ==> live@[(#[trigger] order@[p]) as int].ptr > addr,
            decreases at,
        {
            at = at - 1;
        }
        order.insert(at, k);
        proof {
            assert forall|p: int| 0 <= p < order@.len() implies #[trigger] order@[p] == (if p
                < at {
                before[p]
            } else if p == at {
                k
            } else {
                before[p - 1]
            }) by {}
            assert forall|i: int| 0 <= i < k + 1 implies #[trigger] listed(order@, i) by {
                if i == k {
                    assert(order@[at as int] == i);
                } else {
                    assert(listed(before, i));
                    let p = choose|p: int| 0 <= p < k && #[trigger] before[p] == i;
                    if p < at {
                        assert(order@[p] == i);
                    } else {
                        assert(order@[p + 1] == i);
                    }
                }
            }
            if at > 0 {
                assert(live@[before[at - 1] as int].ptr <= addr);
            }
            assert forall|p: int, q: int| 0 <= p <= q < k + 1 implies live@[(
            #[trigger] order@[p]) as int].ptr <= live@[(#[trigger] order@[q]) as int].ptr by {
                if p < at && q == at {
                    assert(live@[before[p] as int].ptr <= live@[before[at - 1] as int].ptr);
                } else if p == at && q > at {
                    assert(live@[before[q - 1] as int].ptr > addr);
                }
            }
        }
        k = k + 1;
    }
    order
}

/// Holds an allocator to having given disjoint allocations: all are looked at by ascending address,
/// each with the next one.
pub fn assert_disjoint(live: &Vec<Live>) -> (r: Result<(), Defect>)
    ensures
        r == Err::<(), Defect>(Defect::RangeOverflow) <==> exists|i: int|
            0 <= i < live@.len() && !ends_in_memory(#[trigger] live@[i]),
        r != Err::<(), Defect>(Defect::RangeOverflow) ==> exists|order: Seq<usize>|
            #[trigger] by_address(live@, order) && found(live@, order, r),
        r is Ok ==> disjoint(live@),
        (forall|i: int| 0 <= i < live@.len() ==> (#[trigger] live@[i]).size > 0) ==> (r is Ok
            <==> disjoint(live@)),
{
    let mut k: usize = 0;
    while k < live.len()
        invariant
            k <= live@.len(),
            forall|i: int| 0 <= i < k ==> ends_in_memory(#[trigger] live@[i]),
        decreases live@.len() - k,
    {
        if live[k].ptr.checked_add(live[k].size).is_none() {
            assert(!ends_in_memory(live@[k as int]));
            return Err(Defect::RangeOverflow);
        }
        k = k + 1;
    }
    let order: Vec<usize> = sort_by_address(live);
    let mut p: usize = 1;
    while p < order.len()
        invariant
            1 <= p,
            by_address(live@, order@),
            forall|i: int| 0 <= i < live@.len() ==> ends_in_memory(#[trigger] live@[i]),
            forall|q: int|
                0 <= q && q + 1 < p && q + 1 < order@.len() ==> #[trigger] apart_at(
                    live@,
                    order@,
                    q,
                ),
        decreases order@.len() - p,
    {
        let a: Live = live[order[p - 1]];
        let b: Live = live[order[p]];
        assert(ends_in_memory(live@[order@[p - 1] as int]) && ends_in_memory(
            live@[order@[p as int] as int],
        ));
        if a.ptr + a.size > b.ptr {
            proof {
                assert(!apart_at(live@, order@, p - 1));
                assert(first_clash(live@, order@, p - 1));
                assert(found(live@, order@, Err(clash(a, b))));
                if b.size > 0 {
                    assert(a.ptr <= b.ptr);
                    let x = order@[p - 1] as int;
                    let y = order@[p as int] as int;
                    assert(overlap(live@[x], live@[y]));
                    assert(overlap(live@[y], live@[x]));
                    assert(x != y);
                    assert(!disjoint(live@));
                }
            }
            return Err(
                Defect::Overlap {
                    first: a.ptr,
                    first_end: a.ptr + a.size,
                    second: b.ptr,
                    second_end: b.ptr + b.size,
                },
            );
        }
        assert(apart_at(live@, order@, p - 1));
        p = p + 1;
    }
    proof {
        assert(found(live@, order@, Ok(())));
        assert forall|i: int, j: int| 0 <= i < j < live@.len() implies !overlap(
            #[trigger] live@[i],
            #[trigger] live@[j],
        ) by {
            assert(listed(order@, i) && listed(order@, j));
            let x = choose|x: int| 0 <= x < order@.len() && #[trigger] order@[x] == i;
            let y = choose|y: int| 0 <= y < order@.len() && #[trigger] order@[y] == j;
            if x < y {
                assert(apart_at(live@, order@, x));
                assert(live@[order@[x + 1] as int].ptr <= live@[order@[y] as int].ptr);
            } else {
                assert(x != y);
                assert(apart_at(live@, order@, y));
                assert(live@[order@[y + 1] as int].ptr <= live@[order@[x] as int].ptr);
            }
        }
    }
    Ok(())
}

/// Step `k` of lane `id`.
pub open spec fn lane_step(id: int, k: int, thread_count: int) -> int {
    id + k * thread_count
}

/// The lanes of a run share out its steps: every step belongs to exactly one lane.
pub proof fn law_every_step_has_one_lane(step: int, thread_count: int)
    requires
        0 <= step,
        0 < thread_count,
    ensures
        0 <= step % thread_count < thread_count,
        step == lane_step(step % thread_count, step / thread_count, thread_count),
        forall|id: int, k: int|
            0 <= id < thread_count && 0 <= k && step == #[trigger] lane_step(id, k, thread_count)
                ==> id == step % thread_count,
{
    vstd::arithmetic::div_mod::lemma_fundamental_div_mod(step, thread_count);
    vstd::arithmetic::mul::lemma_mul_is_commutative(step / thread_count, thread_count);
    assert forall|id: int, k: int|
        0 <= id < thread_count && 0 <= k && step == #[trigger] lane_step(
            id,
            k,
            thread_count,
        ) implies id == step % thread_count by {
        vstd::arithmetic::div_mod::lemma_fundamental_div_mod_converse(
            step,
            thread_count,
            k,
            id,
        );
    }
}

/// Every kind of run has sizes within its own limits, all of them are reached, and none is zero.
pub proof fn law_sizes_of_a_kind(kind: FuzzType, value: int, size: int)
    requires
        0 <= value,
    ensures
        ({
            let (lo, hi): (int, int) = match kind {
                FuzzType::Small => (1, 0x4_0000),
                FuzzType::Big => (0x40_0000, 0x400_0000),
                FuzzType::Mixed => (1, 0x24_0000),
                FuzzType::Full => (1, 0x80_0000),
            };
            &&& lo <= size_of_value(kind, value) <= hi
            &&& lo <= size <= hi ==> size_of_value(kind, size - lo) == size
        }),
{
}

/// Patterns fit in a byte, are never zero, and the next one differs, unless it would be zero.
pub proof fn law_patterns(thread_id: int, sequence: int)
    requires
        0 <= thread_id,
        0 <= sequence,
    ensures
        1 <= pattern_after(thread_id, sequence) <= 255,
        pattern_after(thread_id, sequence) > 1 ==> pattern_after(thread_id, sequence + 1)
            != pattern_after(thread_id, sequence),
        pattern_after(0, sequence) == if sequence % 256 == 0 {
            1
        } else {
            sequence % 256
        },
{
}

/// A resized allocation keeps all that fits in both sizes.
pub proof fn law_preserved_bytes(old_size: int, new_size: int)
    ensures
        Lane::spec_preserved(old_size, new_size) <= old_size,
        Lane::spec_preserved(old_size, new_size) <= new_size,
        Lane::spec_preserved(old_size, new_size) == old_size || Lane::spec_preserved(
            old_size,
            new_size,
        ) == new_size,
{
}

/// A step asks for what it says: sizes of its kind, and only allocations that are live; what is
/// freed is no longer live, and nothing else is taken out.
pub proof fn law_steps(lane: &Lane, op: Op)
    ensures
        op matches Op::Alloc { size, align_shift } ==> (lane.task_of(op) matches Some(
            Task::Alloc { size: n, align, zeroed },
        ) && n == size_of_value(lane.kind(), size as int) as usize && align == alignment_of(
            align_shift,
        ) && !zeroed),
        op matches Op::AllocZeroed { size, align_shift } ==> (lane.task_of(op) matches Some(
            Task::Alloc { size: n, align, zeroed },
        ) && n == size_of_value(lane.kind(), size as int) as usize && align == alignment_of(
            align_shift,
        ) && zeroed),
        lane.live().len() > 0 ==> {
            &&& op matches Op::Dealloc { index } ==> {
                let i = index as int % lane.live().len() as int;
                &&& lane.task_of(op) == Some(Task::Dealloc(lane.live()[i]))
                &&& lane.live_after(op).len() == lane.live().len() - 1
                &&& lane.live_after(op).to_multiset() =~= lane.live().to_multiset().remove(
                    lane.live()[i],
                )
            }
            &&& op matches Op::Realloc { index, new_size } ==> (lane.task_of(op) matches Some(
                Task::Realloc { index: i, live, new_size: n },
            ) && i == index as int % lane.live().len() as int && live == lane.live()[i as int] && n
                == size_of_value(lane.kind(), new_size as int) as usize)
        },
        lane.live().len() == 0 ==> (op is Dealloc || op is Realloc ==> lane.task_of(op) is None)
            && lane.live_after(op) == lane.live(),
        !(op is Dealloc) ==> lane.live_after(op) == lane.live(),
{
    broadcast use vstd::seq_lib::group_to_multiset_ensures;

    let n = lane.live().len() as int;
    if n > 0 {
        if let Op::Dealloc { index } = op {
            let i = index as int % n;
            assert(0 <= i < n) by (nonlinear_arith)
                requires
                    i == index as int % n,
                    n > 0,
                    index >= 0,
            ;
            let s = lane.live();
            let moved = s.update(i, s[n - 1]);
            assert(moved =~= moved.drop_last().push(s[n - 1]));
            assert(moved.to_multiset() =~= moved.drop_last().to_multiset().insert(s[n - 1]));
            assert(moved.to_multiset() =~= s.to_multiset().insert(s[n - 1]).remove(s[i]));
            assert(s.contains(s[i]));
            assert(s.to_multiset().count(s[i]) > 0);
            let left = moved.drop_last().to_multiset();
            let all = s.to_multiset();
            assert forall|v: Live| left.count(v) == #[trigger] all.remove(s[i]).count(v) by {
                assert(moved.to_multiset().count(v) == left.insert(s[n - 1]).count(v));
                assert(moved.to_multiset().count(v) == all.insert(s[n - 1]).remove(s[i]).count(v));
            }
            assert(left =~= all.remove(s[i]));
        } else if let Op::Realloc { index, new_size } = op {
            let i = index as int % n;
            assert(0 <= i < n && i <= 0xffff) by (nonlinear_arith)
                requires
                    i == index as int % n,
                    n > 0,
                    0 <= index <= 0xffff,
            ;
        }
    }
}

/// Allocations share a byte exactly where some address lies in both.
pub proof fn law_overlap(a: Live, b: Live, x: int)
    requires
        a.size > 0,
        b.size > 0,
    ensures
        a.ptr <= x < a.ptr + a.size && b.ptr <= x < b.ptr + b.size ==> overlap(a, b),
        overlap(a, b) && a.ptr <= b.ptr ==> b.ptr < a.ptr + a.size,
        overlap(a, b) && b.ptr <= a.ptr ==> a.ptr < b.ptr + b.size,
        overlap(a, b) == overlap(b, a),
{
}

/// An alignment is a power of two up to a page, the same for shifts that are 13 apart, and the first
/// 13 shifts double it each time.
pub proof fn law_alignments(shift: u8)
    ensures
        alignment_of(0) == 1,
        alignment_of(12) == 4096,
        shift < 12 ==> alignment_of((shift + 1) as u8) == 2 * alignment_of(shift),
        shift + 13 <= 255 ==> alignment_of((shift + 13) as u8) == alignment_of(shift),
{
    assert(1usize << 0usize == 1 && 1usize << 1usize == 2 && 1usize << 2usize == 4 && 1usize
        << 3usize == 8 && 1usize << 4usize == 16 && 1usize << 5usize == 32 && 1usize << 6usize == 64
        && 1usize << 7usize == 128 && 1usize << 8usize == 256 && 1usize << 9usize == 512 && 1usize
        << 10usize == 1024 && 1usize << 11usize == 2048 && 1usize << 12usize == 4096)
        by (bit_vector);
}

/// What is found among allocations by address is true: none share bytes, or the two that are named
/// do, and the one that is named first starts first.
pub proof fn law_found_overlaps(live: Seq<Live>, order: Seq<usize>, r: Result<(), Defect>, i: int, j: int)
    requires
        by_address(live, order),
        forall|k: int|
            0 <= k < live.len() ==> ends_in_memory(#[trigger] live[k]) && live[k].size > 0,
        found(live, order, r),
        0 <= i < live.len(),
        0 <= j < live.len(),
        i != j,
    ensures
        r is Ok ==> !overlap(live[i], live[j]),
        r matches Err(d) ==> (d matches Defect::Overlap { first, first_end, second, second_end }
            && first <= second < first_end && second < second_end),
{
    if r is Ok {
        assert(listed(order, i) && listed(order, j));
        let p = choose|p: int| 0 <= p < order.len() && #[trigger] order[p] == i;
        let q = choose|q: int| 0 <= q < order.len() && #[trigger] order[q] == j;
        if p < q {
            lemma_later_is_apart(live, order, p, q);
        } else {
            lemma_later_is_apart(live, order, q, p);
        }
    } else {
        let p = choose|p: int| #[trigger]
            first_clash(live, order, p) && r->Err_0 == clash(
                live[order[p] as int],
                live[order[p + 1] as int],
            );
        let a = live[order[p] as int];
        let b = live[order[p + 1] as int];
        assert(!apart_at(live, order, p));
        assert(ends_in_memory(a) && ends_in_memory(b));
        assert(a.ptr <= b.ptr);
    }
}

proof fn lemma_later_is_apart(live: Seq<Live>, order: Seq<usize>, p: int, q: int)
    requires
        by_address(live, order),
        0 <= p < q < order.len(),
        forall|k: int| 0 <= k && k + 1 < order.len() ==> #[trigger] apart_at(live, order, k),
    ensures
        live[order[p] as int].ptr + live[order[p] as int].size <= live[order[q] as int].ptr,
    decreases q - p,
{
    assert(apart_at(live, order, p));
    assert(live[order[p + 1] as int].ptr <= live[order[q] as int].ptr);
}

} // verus!
