//! Page-granular allocation from large per-node arenas.

use crate::internals::lock::SpinLock;
use crate::internals::once::Once;
use crate::utility;
use crate::utility::PAGE_SIZE;
use vstd::prelude::*;

verus! {

/// Where inaccessible pages are kept between allocations.
#[derive(Clone, Copy, Debug, PartialEq, Eq, Structural)]
pub enum GuardPolicy {
    /// Nowhere.
    Off,
    /// In the last page of every two mebibytes.
    PerHugePage,
    /// In the last page of every sixty-four kibibytes.
    Dense,
}

/// Distance between guard pages, zero when there are none.
pub fn guard_align(policy: GuardPolicy) -> (r: usize)
    ensures
        r == policy.align(),
        policy is Off || r >= 2 * PAGE_SIZE,
{
    match policy {
        GuardPolicy::Off => 0,
        GuardPolicy::PerHugePage => 0x20_0000,
        GuardPolicy::Dense => 0x1_0000,
    }
}

impl GuardPolicy {
    pub open spec fn align(&self) -> int {
        match *self {
            GuardPolicy::Off => 0,
            GuardPolicy::PerHugePage => 0x20_0000,
            GuardPolicy::Dense => 0x1_0000,
        }
    }

    /// Offset of the guard page in each stretch between guard pages.
    pub open spec fn offset(&self) -> int {
        self.align() - PAGE_SIZE
    }

    /// A guard page starts at `addr`.
    pub open spec fn guards(&self, addr: int) -> bool {
        !(*self is Off) && addr % self.align() == self.offset()
    }

    /// The first guard page from `start` on.
    pub open spec fn next_guard(&self, start: int) -> int {
        let first = start - start % self.align() + self.offset();
        if first < start {
            first + self.align()
        } else {
            first
        }
    }

    /// The first guard page that starts in the range.
    pub open spec fn guard_in(&self, start: int, size: int) -> Option<int> {
        if !(*self is Off) && start + size <= usize::MAX && self.next_guard(start) < start + size {
            Some(self.next_guard(start))
        } else {
            None
        }
    }

    /// Behind the guard page at `addr`, or `addr` when there is none below `end`.
    pub open spec fn behind(&self, addr: int, end: int) -> int {
        if self.guards(addr) && addr < end {
            addr + PAGE_SIZE
        } else {
            addr
        }
    }

    /// Where an allocation of `size` bytes is tried in an arena that is filled up to `current`.
    pub open spec fn candidate(&self, current: int, end: int, size: int) -> int {
        let start = self.behind(current, end);
        match self.guard_in(start, size) {
            Some(guard) => self.behind(guard, end),
            None => start,
        }
    }

    /// Where an allocation of `size` bytes goes in an arena that is filled up to `current`.
    pub open spec fn placement(&self, current: int, end: int, size: int) -> Option<int> {
        let start = self.candidate(current, end, size);
        if start + size > end {
            None
        } else if !(*self is Off) && size <= self.offset() && self.guard_in(start, size) is Some {
            None
        } else {
            Some(start)
        }
    }
}

/// The first guard page is the least one that is not below `start`.
pub proof fn law_next_guard(policy: GuardPolicy, start: int)
    requires
        !(policy is Off),
        start >= 0,
    ensures
        policy.guards(policy.next_guard(start)),
        start <= policy.next_guard(start) < start + policy.align(),
        forall|addr: int| #[trigger]
            policy.guards(addr) && addr >= start ==> policy.next_guard(start) <= addr,
{
    let a = policy.align();
    let g = policy.next_guard(start);
    if policy is Dense {
        assert(g % 0x1_0000 == 0xf000);
        assert forall|addr: int| #[trigger] policy.guards(addr) && addr >= start implies g <= addr by {
            assert(addr % 0x1_0000 == 0xf000);
        }
    } else {
        assert(g % 0x20_0000 == 0x1f_f000);
        assert forall|addr: int| #[trigger] policy.guards(addr) && addr >= start implies g <= addr by {
            assert(addr % 0x20_0000 == 0x1f_f000);
        }
    }
}

/// An allocation that fits between two guard pages covers none of them.
pub proof fn law_no_guard_inside(policy: GuardPolicy, current: int, end: int, size: int, addr: int)
    requires
        !(policy is Off),
        0 <= current,
        0 < size <= policy.offset(),
        end <= usize::MAX,
        policy.placement(current, end, size) matches Some(start) && start <= addr < start + size,
    ensures
        !policy.guards(addr),
{
    let start = policy.placement(current, end, size)->0;
    if policy.guards(addr) {
        let first = policy.behind(current, end);
        assert(start >= 0) by {
            assert(first >= 0);
            law_next_guard(policy, first);
        }
        law_next_guard(policy, start);
    }
}

/// Whether a guard page starts in the range, and where.
pub fn guard_page_in_range(policy: GuardPolicy, start: usize, size: usize) -> (r: Option<usize>)
    requires
        start + 0x20_0000 <= usize::MAX,
    ensures
        match policy.guard_in(start as int, size as int) {
            Some(guard) => r matches Some(g) && g == guard,
            None => r is None,
        },
{
    let align: usize = guard_align(policy);
    if align == 0 {
        return None;
    }
    let end: usize = match start.checked_add(size) {
        Some(end) => end,
        None => {
            return None;
        },
    };
    let mut guard: usize = start - start % align + (align - PAGE_SIZE);
    if guard < start {
        guard = guard + align;
    }
    if guard < end {
        Some(guard)
    } else {
        None
    }
}

/// Whether an allocation can lie between two guard pages.
pub fn fits_within_guard_segment(policy: GuardPolicy, size: usize) -> (r: bool)
    requires
        !(policy is Off),
    ensures
        r == (size <= policy.offset()),
{
    size <= guard_align(policy) - PAGE_SIZE
}

/// Steps over the guard page at `addr`; the flag tells whether there is one, which has to be made
/// inaccessible.
pub fn skip_guard_page(policy: GuardPolicy, addr: usize, end: usize) -> (r: (usize, bool))
    requires
        addr + PAGE_SIZE <= usize::MAX,
    ensures
        r.0 == policy.behind(addr as int, end as int),
        r.1 == (policy.guards(addr as int) && addr < end),
{
    let align: usize = guard_align(policy);
    if align != 0 && addr % align == align - PAGE_SIZE && addr < end {
        (addr + PAGE_SIZE, true)
    } else {
        (addr, false)
    }
}

/// A mapping that is handed out from its start to its end.
#[derive(Clone, Copy, Debug, PartialEq, Eq, Structural)]
pub struct PageArena {
    base: usize,
    end: usize,
    current: usize,
}

/// Room above every arena, so that addresses next to it can be computed.
pub const HEADROOM: usize = 0x40_0000;

impl PageArena {
    pub closed spec fn start(&self) -> int {
        self.base as int
    }

    pub closed spec fn limit(&self) -> int {
        self.end as int
    }

    /// Everything below this address is handed out.
    pub closed spec fn filled(&self) -> int {
        self.current as int
    }

    pub open spec fn wf(&self) -> bool {
        self.start() <= self.filled() <= self.limit() && self.limit() + HEADROOM <= usize::MAX
    }

    /// Where an allocation goes.
    pub open spec fn place(&self, policy: GuardPolicy, size: int) -> Option<int> {
        policy.placement(self.filled(), self.limit(), size)
    }

    /// Too little is left to be worth keeping the arena.
    pub open spec fn spent(&self, min_refill: int) -> bool {
        self.limit() - self.filled() < min_refill
    }

    /// `after` is this arena filled up to `filled`.
    pub open spec fn filled_to(&self, after: &Self, filled: int) -> bool {
        after.start() == self.start() && after.limit() == self.limit() && after.filled() == filled
    }

    /// An arena over the given addresses with nothing handed out.
    pub fn new(base: usize, end: usize) -> (r: Self)
        requires
            base <= end,
            end + HEADROOM <= usize::MAX,
        ensures
            r.wf(),
            r.start() == base,
            r.limit() == end,
            r.filled() == base,
    {
        PageArena { base, end, current: base }
    }

    /// Hands out `size` bytes. Also gives the guard pages that were stepped over and have to be
    /// made inaccessible.
    fn allocate_from_arena(&mut self, policy: GuardPolicy, size: usize) -> (r: (
        Option<usize>,
        Vec<usize>,
    ))
        requires
            old(self).wf(),
        ensures
            final(self).wf(),
            match old(self).place(policy, size as int) {
                Some(start) => r.0 matches Some(addr) && addr == start && old(self).filled_to(
                    final(self),
                    start + size,
                ),
                None => r.0 is None && *final(self) == *old(self),
            },
            r.1@ == stepped_over(policy, old(self).filled(), old(self).limit(), size as int),
    {
        let mut guards: Vec<usize> = Vec::new();
        let (first, skipped) = skip_guard_page(policy, self.current, self.end);
        if skipped {
            guards.push(self.current);
        }
        let mut start: usize = first;
        if let Some(guard) = guard_page_in_range(policy, start, size) {
            proof {
                law_next_guard(policy, first as int);
            }
            let (behind, skipped) = skip_guard_page(policy, guard, self.end);
            if skipped {
                guards.push(guard);
            }
            start = behind;
        }
        assert(guards@ =~= stepped_over(
            policy,
            self.current as int,
            self.end as int,
            size as int,
        ));
        let next: usize = match start.checked_add(size) {
            Some(next) => next,
            None => {
                return (None, guards);
            },
        };
        if next > self.end {
            return (None, guards);
        }
        if !matches!(policy, GuardPolicy::Off) && fits_within_guard_segment(policy, size)
            && guard_page_in_range(policy, start, size).is_some() {
            return (None, guards);
        }
        proof {
            if !(policy is Off) {
                law_next_guard(policy, first as int);
            }
        }
        self.current = next;
        (Some(start), guards)
    }
}

/// The guard pages that an attempt to place `size` bytes steps over.
pub open spec fn stepped_over(
    policy: GuardPolicy,
    current: int,
    end: int,
    size: int,
) -> Seq<usize> {
    let first = policy.behind(current, end);
    let one = if policy.guards(current) && current < end {
        seq![current as usize]
    } else {
        Seq::empty()
    };
    match policy.guard_in(first, size) {
        Some(guard) => if policy.guards(guard) && guard < end {
            one.push(guard as usize)
        } else {
            one
        },
        None => one,
    }
}

/// Arenas of one memory node, the newest first.
pub struct NodeArena {
    arenas: Vec<PageArena>,
    current: Option<usize>,
    lock: SpinLock<()>,
}

/// Limits that the arenas go by.
#[derive(Clone, Copy, Debug, PartialEq, Eq, Structural)]
pub struct ArenaLimits {
    pub policy: GuardPolicy,
    /// Arenas with less than this left are given up.
    pub min_refill: usize,
    /// Least size of an arena.
    pub arena_size: usize,
}

/// What a search leaves of a list of arenas: the first arena that can serve is filled further,
/// and spent arenas before it are gone.
pub open spec fn searched(arenas: Seq<PageArena>, limits: ArenaLimits, size: int) -> Seq<PageArena>
    decreases arenas.len(),
{
    if arenas.len() == 0 {
        arenas
    } else {
        let rest = arenas.subrange(1, arenas.len() as int);
        match arenas[0].place(limits.policy, size) {
            Some(start) => seq![served(arenas[0], start + size)] + rest,
            None => if arenas[0].spent(limits.min_refill as int) {
                searched(rest, limits, size)
            } else {
                seq![arenas[0]] + searched(rest, limits, size)
            },
        }
    }
}

/// The first arena that can serve.
pub open spec fn server(arenas: Seq<PageArena>, limits: ArenaLimits, size: int) -> Option<PageArena>
    decreases arenas.len(),
{
    if arenas.len() == 0 {
        None
    } else if arenas[0].place(limits.policy, size) is Some {
        Some(arenas[0])
    } else {
        server(arenas.subrange(1, arenas.len() as int), limits, size)
    }
}

/// The arena filled up to `filled`.
pub closed spec fn served(arena: PageArena, filled: int) -> PageArena {
    PageArena { current: filled as usize, ..arena }
}

/// The guard pages that a search steps over.
pub open spec fn searched_guards(
    arenas: Seq<PageArena>,
    limits: ArenaLimits,
    size: int,
) -> Seq<usize>
    decreases arenas.len(),
{
    if arenas.len() == 0 {
        Seq::empty()
    } else {
        let here = stepped_over(limits.policy, arenas[0].filled(), arenas[0].limit(), size);
        if arenas[0].place(limits.policy, size) is Some {
            here
        } else {
            here + searched_guards(arenas.subrange(1, arenas.len() as int), limits, size)
        }
    }
}

/// Number of the first `hi` arenas that a search without success leaves.
pub open spec fn kept_below(arenas: Seq<PageArena>, limits: ArenaLimits, hi: int) -> int
    decreases hi,
{
    if hi <= 0 {
        0
    } else {
        kept_below(arenas, limits, hi - 1) + if arenas[hi - 1].spent(limits.min_refill as int) {
            0int
        } else {
            1
        }
    }
}

/// The arena to be tried first once arena `i` of `len` is gone: the next older one takes the place
/// of a lost one.
pub open spec fn first_without(current: Option<usize>, i: int, len: int) -> Option<usize> {
    match current {
        None => None,
        Some(c) => if c > i {
            Some((c - 1) as usize)
        } else if c == i && i + 1 >= len {
            None
        } else {
            Some(c)
        },
    }
}

/// The arena to be tried first after a search without success.
pub open spec fn first_after_search(
    arenas: Seq<PageArena>,
    current: Option<usize>,
    limits: ArenaLimits,
) -> Option<usize> {
    match current {
        None => None,
        Some(c) => {
            let k = kept_below(arenas, limits, c as int);
            if k < kept_below(arenas, limits, arenas.len() as int) {
                Some(k as usize)
            } else {
                None
            }
        },
    }
}

/// The arena to be tried first once a search passed `seen` arenas.
spec fn first_during_search(
    arenas: Seq<PageArena>,
    before: Option<usize>,
    limits: ArenaLimits,
    seen: int,
    current: Option<usize>,
) -> bool {
    let kept = kept_below(arenas, limits, seen);
    match before {
        None => current is None,
        Some(c) => if c >= seen {
            current == Some((kept + (c - seen)) as usize)
        } else if kept_below(arenas, limits, c as int) < kept {
            current == Some(kept_below(arenas, limits, c as int) as usize)
        } else if seen < arenas.len() {
            current == Some(kept as usize)
        } else {
            current is None
        },
    }
}

proof fn lemma_kept_grows(arenas: Seq<PageArena>, limits: ArenaLimits, lo: int, hi: int)
    requires
        0 <= lo <= hi,
    ensures
        0 <= kept_below(arenas, limits, lo) <= kept_below(arenas, limits, hi) <= hi,
        kept_below(arenas, limits, lo) <= lo,
    decreases hi,
{
    if lo < hi {
        lemma_kept_grows(arenas, limits, lo, hi - 1);
    } else if hi > 0 {
        lemma_kept_grows(arenas, limits, lo - 1, hi - 1);
    }
}

fn extend(out: &mut Vec<usize>, part: &Vec<usize>)
    ensures
        final(out)@ == old(out)@ + part@,
{
    let mut i: usize = 0;
    while i < part.len()
        invariant
            i <= part@.len(),
            out@ == old(out)@ + part@.subrange(0, i as int),
        decreases part@.len() - i,
    {
        out.push(part[i]);
        i = i + 1;
        assert(part@.subrange(0, i as int) =~= part@.subrange(0, i - 1).push(part@[i - 1]));
    }
    assert(part@.subrange(0, i as int) =~= part@);
}

impl NodeArena {
    /// Arenas from the newest to the oldest.
    pub closed spec fn arenas(&self) -> Seq<PageArena> {
        self.arenas@
    }

    /// The arena that is tried first.
    pub closed spec fn current(&self) -> Option<usize> {
        self.current
    }

    pub closed spec fn locked(&self) -> bool {
        self.lock.locked()
    }

    /// All arenas are well formed and the one that is tried first exists.
    pub open spec fn wf(&self) -> bool {
        &&& forall|i: int| 0 <= i < self.arenas().len() ==> (#[trigger] self.arenas()[i]).wf()
        &&& self.current() matches Some(c) ==> c < self.arenas().len()
    }

    /// A node without arenas.
    pub fn new() -> (r: Self)
        ensures
            r.wf(),
            r.arenas().len() == 0,
            r.current() is None,
            !r.locked(),
    {
        NodeArena { arenas: Vec::new(), current: None, lock: SpinLock::new(()) }
    }

    /// Forgets arena `i`; when it was the one tried first, the next older one takes its place.
    fn remove_arena(&mut self, i: usize)
        requires
            old(self).wf(),
            i < old(self).arenas().len(),
        ensures
            final(self).wf(),
            final(self).arenas() == old(self).arenas().remove(i as int),
            final(self).locked() == old(self).locked(),
            final(self).current() == first_without(
                old(self).current(),
                i as int,
                old(self).arenas().len() as int,
            ),
    {
        let ghost before = self.arenas();
        let _ = self.arenas.remove(i);
        match self.current {
            None => {},
            Some(c) => {
                if c > i {
                    self.current = Some(c - 1);
                } else if c == i && i >= self.arenas.len() {
                    self.current = None;
                }
            },
        }
        assert forall|k: int| 0 <= k < self.arenas().len() implies (#[trigger] self.arenas()[k]).wf() by {
            if k < i {
                assert(before[k].wf());
            } else {
                assert(before[k + 1].wf());
            }
        }
    }

    /// Walks the list for an arena that can serve, dropping spent ones on the way.
    fn allocate_search(&mut self, limits: ArenaLimits, size: usize) -> (r: (
        Option<usize>,
        Vec<usize>,
    ))
        requires
            old(self).wf(),
        ensures
            final(self).wf(),
            final(self).locked() == old(self).locked(),
            final(self).arenas() == searched(old(self).arenas(), limits, size as int),
            r.1@ == searched_guards(old(self).arenas(), limits, size as int),
            match server(old(self).arenas(), limits, size as int) {
                None => r.0 is None && final(self).current() == first_after_search(
                    old(self).arenas(),
                    old(self).current(),
                    limits,
                ),
                Some(arena) => {
                    let start = arena.place(limits.policy, size as int)->0;
                    &&& r.0 matches Some(addr) && addr == start
                    &&& final(self).current() matches Some(c) && final(self).arenas()[c as int]
                        == served(arena, start + size)
                },
            },
    {
        let ghost all = self.arenas();
        let ghost mut seen: int = 0;
        let mut guards: Vec<usize> = Vec::new();
        let mut i: usize = 0;
        proof {
            assert(all.subrange(0, all.len() as int) =~= all);
            assert(all.subrange(0, 0) + searched(all, limits, size as int) =~= searched(
                all,
                limits,
                size as int,
            ));
            assert(guards@ + searched_guards(all, limits, size as int) =~= searched_guards(
                all,
                limits,
                size as int,
            ));
        }
        while i < self.arenas.len()
            invariant
                self.wf(),
                i <= self.arenas().len(),
                self.locked() == old(self).locked(),
                all == old(self).arenas(),
                old(self).wf(),
                0 <= seen <= all.len(),
                i == kept_below(all, limits, seen),
                self.arenas().len() - i == all.len() - seen,
                self.arenas().subrange(i as int, self.arenas().len() as int) == all.subrange(
                    seen,
                    all.len() as int,
                ),
                first_during_search(all, old(self).current(), limits, seen, self.current()),
                self.arenas().subrange(0, i as int) + searched(
                    self.arenas().subrange(i as int, self.arenas().len() as int),
                    limits,
                    size as int,
                ) == searched(all, limits, size as int),
                server(
                    self.arenas().subrange(i as int, self.arenas().len() as int),
                    limits,
                    size as int,
                ) == server(all, limits, size as int),
                guards@ + searched_guards(
                    self.arenas().subrange(i as int, self.arenas().len() as int),
                    limits,
                    size as int,
                ) == searched_guards(all, limits, size as int),
            decreases self.arenas().len() - i,
        {
            let ghost list = self.arenas();
            let ghost rest = list.subrange(i as int, list.len() as int);
            let ghost tail = list.subrange(i + 1, list.len() as int);
            proof {
                assert(rest[0] == list[i as int]);
                assert(rest.subrange(1, rest.len() as int) =~= tail);
                assert(list[i as int].wf());
                assert(rest[0] == all[seen]);
                assert(all.subrange(seen + 1, all.len() as int) =~= tail) by {
                    assert(all.subrange(seen, all.len() as int).subrange(1, rest.len() as int)
                        =~= all.subrange(seen + 1, all.len() as int));
                }
                if let Some(c) = old(self).current() {
                    if c <= seen {
                        lemma_kept_grows(all, limits, c as int, seen);
                    }
                }
            }
            let mut arena: PageArena = self.arenas[i];
            let (found, stepped) = arena.allocate_from_arena(limits.policy, size);
            let ghost old_guards = guards@;
            extend(&mut guards, &stepped);
            if found.is_some() {
                self.arenas[i] = arena;
                self.current = Some(i);
                proof {
                    let start = list[i as int].place(limits.policy, size as int)->0;
                    assert(arena == served(list[i as int], start + size));
                    assert(self.arenas() =~= list.subrange(0, i as int) + (seq![arena] + tail));
                    assert forall|k: int| 0 <= k < self.arenas().len() implies (
                    #[trigger] self.arenas()[k]).wf() by {
                        if k != i {
                            assert(list[k].wf());
                        }
                    }
                }
                return (found, guards);
            }
            let left: usize = self.arenas[i].end - self.arenas[i].current;
            if left < limits.min_refill {
                self.remove_arena(i);
                proof {
                    assert(self.arenas().subrange(i as int, self.arenas().len() as int) =~= tail);
                    assert(self.arenas().subrange(0, i as int) =~= list.subrange(0, i as int));
                    assert(old_guards + (stepped@ + searched_guards(tail, limits, size as int))
                        =~= guards@ + searched_guards(tail, limits, size as int));
                    seen = seen + 1;
                }
            } else {
                proof {
                    let more = searched(tail, limits, size as int);
                    assert(list.subrange(0, i as int) + (seq![list[i as int]] + more)
                        =~= list.subrange(0, i + 1) + more);
                    assert(old_guards + (stepped@ + searched_guards(tail, limits, size as int))
                        =~= guards@ + searched_guards(tail, limits, size as int));
                    seen = seen + 1;
                }
                i = i + 1;
            }
        }
        proof {
            let none = self.arenas().subrange(i as int, self.arenas().len() as int);
            assert(none.len() == 0);
            assert(self.arenas().subrange(0, i as int) + searched(none, limits, size as int)
                =~= self.arenas());
            assert(guards@ + searched_guards(none, limits, size as int) =~= guards@);
        }
        (None, guards)
    }

    /// The list without the arena that is tried first, when that one is spent.
    pub open spec fn after_current(&self, limits: ArenaLimits) -> Seq<PageArena> {
        match self.current() {
            Some(c) => if self.arenas()[c as int].spent(limits.min_refill as int) {
                self.arenas().remove(c as int)
            } else {
                self.arenas()
            },
            None => self.arenas(),
        }
    }

    /// The arena of that list that is tried first.
    pub open spec fn first_after_current(&self, limits: ArenaLimits) -> Option<usize> {
        match self.current() {
            Some(c) => if self.arenas()[c as int].spent(limits.min_refill as int) {
                first_without(self.current(), c as int, self.arenas().len() as int)
            } else {
                self.current()
            },
            None => None,
        }
    }

    /// Where the arena that is tried first places an allocation.
    pub open spec fn current_place(&self, limits: ArenaLimits, size: int) -> Option<int> {
        match self.current() {
            Some(c) => self.arenas()[c as int].place(limits.policy, size),
            None => None,
        }
    }

    /// The guard pages that the attempt in the arena tried first steps over.
    pub open spec fn current_guards(&self, limits: ArenaLimits, size: int) -> Seq<usize> {
        match self.current() {
            Some(c) => stepped_over(
                limits.policy,
                self.arenas()[c as int].filled(),
                self.arenas()[c as int].limit(),
                size,
            ),
            None => Seq::empty(),
        }
    }

    /// Hands out `size` bytes from the arena that is tried first, or from the newest one that can
    /// serve. Also gives the guard pages to be made inaccessible.
    pub fn allocate(&mut self, limits: ArenaLimits, size: usize) -> (r: (Option<usize>, Vec<usize>))
        requires
            old(self).wf(),
        ensures
            final(self).wf(),
            final(self).locked() == old(self).locked(),
            match old(self).current_place(limits, size as int) {
                Some(start) => {
                    let c = old(self).current()->0 as int;
                    &&& r.0 matches Some(addr) && addr == start
                    &&& r.1@ == old(self).current_guards(limits, size as int)
                    &&& final(self).current() == old(self).current()
                    &&& final(self).arenas() == old(self).arenas().update(
                        c,
                        served(old(self).arenas()[c], start + size),
                    )
                },
                None => {
                    let list = old(self).after_current(limits);
                    &&& final(self).arenas() == searched(list, limits, size as int)
                    &&& r.1@ == old(self).current_guards(limits, size as int) + searched_guards(
                        list,
                        limits,
                        size as int,
                    )
                    &&& match server(list, limits, size as int) {
                        None => r.0 is None && final(self).current() == first_after_search(
                            list,
                            old(self).first_after_current(limits),
                            limits,
                        ),
                        Some(arena) => {
                            let start = arena.place(limits.policy, size as int)->0;
                            &&& r.0 matches Some(addr) && addr == start
                            &&& final(self).current() matches Some(c)
                                && final(self).arenas()[c as int] == served(arena, start + size)
                        },
                    }
                },
            },
    {
        let ghost before = *self;
        let mut guards: Vec<usize> = Vec::new();
        if let Some(c) = self.current {
            assert(before.arenas()[c as int].wf());
            let mut arena: PageArena = self.arenas[c];
            let (found, stepped) = arena.allocate_from_arena(limits.policy, size);
            extend(&mut guards, &stepped);
            assert(guards@ =~= stepped@);
            if found.is_some() {
                self.arenas[c] = arena;
                proof {
                    let start = before.arenas()[c as int].place(limits.policy, size as int)->0;
                    assert(arena == served(before.arenas()[c as int], start + size));
                    assert forall|k: int| 0 <= k < self.arenas().len() implies (
                    #[trigger] self.arenas()[k]).wf() by {
                        if k != c {
                            assert(before.arenas()[k].wf());
                        }
                    }
                }
                return (found, guards);
            }
            let left: usize = self.arenas[c].end - self.arenas[c].current;
            if left < limits.min_refill {
                self.remove_arena(c);
            }
        }
        let (found, stepped) = self.allocate_search(limits, size);
        extend(&mut guards, &stepped);
        (found, guards)
    }

    /// Adds a fresh arena, tries it first from now on, and hands out `size` bytes from it.
    pub fn add_arena(&mut self, arena: PageArena, limits: ArenaLimits, size: usize) -> (r: (
        Option<usize>,
        Vec<usize>,
    ))
        requires
            old(self).wf(),
            arena.wf(),
        ensures
            final(self).wf(),
            final(self).locked() == old(self).locked(),
            final(self).current() == Some(0usize),
            r.1@ == stepped_over(limits.policy, arena.filled(), arena.limit(), size as int),
            match arena.place(limits.policy, size as int) {
                Some(start) => {
                    &&& r.0 matches Some(addr) && addr == start
                    &&& final(self).arenas() == seq![served(arena, start + size)] + old(
                        self).arenas()
                },
                None => r.0 is None && final(self).arenas() == seq![arena] + old(self).arenas(),
            },
    {
        let ghost before = self.arenas();
        let mut fresh: PageArena = arena;
        let (found, guards) = fresh.allocate_from_arena(limits.policy, size);
        self.arenas.insert(0, fresh);
        self.current = Some(0);
        proof {
            assert(self.arenas() =~= seq![fresh] + before);
            if found is Some {
                let start = arena.place(limits.policy, size as int)->0;
                assert(fresh == served(arena, start + size));
            }
            assert forall|k: int| 0 <= k < self.arenas().len() implies (
            #[trigger] self.arenas()[k]).wf() by {
                if k > 0 {
                    assert(before[k - 1].wf());
                }
            }
        }
        (found, guards)
    }

    /// The first arena that holds an address.
    pub open spec fn holder(&self, addr: int, i: int) -> bool {
        &&& 0 <= i < self.arenas().len()
        &&& self.arenas()[i].start() <= addr < self.arenas()[i].limit()
        &&& forall|j: int|
            0 <= j < i ==> !((#[trigger] self.arenas()[j]).start() <= addr
                < self.arenas()[j].limit())
    }

    /// The allocation of `old_size` bytes at `addr` is the last one of its arena, and the arena has
    /// room for `new_size` bytes there without covering a guard page.
    pub open spec fn can_grow(
        arena: PageArena,
        policy: GuardPolicy,
        addr: int,
        old_size: int,
        new_size: int,
    ) -> bool {
        &&& (addr - arena.start()) % (PAGE_SIZE as int) == 0
        &&& addr + new_size <= arena.limit()
        &&& arena.filled() == addr + old_size
        &&& policy is Off || new_size - old_size > policy.offset() || policy.guard_in(
            addr + old_size,
            new_size - old_size,
        ) is None
    }

    /// Extends the last allocation of an arena; a spent arena is dropped.
    fn grow(
        &mut self,
        limits: ArenaLimits,
        addr: usize,
        old_size: usize,
        new_size: usize,
    ) -> (r: bool)
        requires
            old(self).wf(),
            old_size < new_size,
        ensures
            final(self).wf(),
            final(self).locked() == old(self).locked(),
            (forall|i: int| !#[trigger] old(self).holder(addr as int, i)) ==> !r && *final(self)
                == *old(self),
            forall|i: int| #[trigger]
                old(self).holder(addr as int, i) ==> {
                    let arena = old(self).arenas()[i];
                    let grown = served(arena, addr + new_size);
                    &&& r <==> Self::can_grow(
                        arena,
                        limits.policy,
                        addr as int,
                        old_size as int,
                        new_size as int,
                    )
                    &&& !r ==> *final(self) == *old(self)
                    &&& r && grown.spent(limits.min_refill as int) ==> {
                        &&& final(self).arenas() == old(self).arenas().remove(i)
                        &&& final(self).current() == first_without(
                            old(self).current(),
                            i,
                            old(self).arenas().len() as int,
                        )
                    }
                    &&& r && !grown.spent(limits.min_refill as int) ==> {
                        &&& final(self).arenas() == old(self).arenas().update(i, grown)
                        &&& final(self).current() == old(self).current()
                    }
                },
    {
        let ghost before = *self;
        let mut i: usize = 0;
        while i < self.arenas.len()
            invariant
                *self == before,
                before == *old(self),
                self.wf(),
                i <= self.arenas().len(),
                old_size < new_size,
                forall|j: int|
                    0 <= j < i ==> !((#[trigger] self.arenas()[j]).start() <= addr
                        < self.arenas()[j].limit()),
            decreases self.arenas().len() - i,
        {
            let arena: PageArena = self.arenas[i];
            assert(before.arenas()[i as int] == arena && arena.wf());
            if addr >= arena.base && addr < arena.end {
                proof {
                    assert(before.holder(addr as int, i as int));
                    assert forall|k: int| #[trigger] before.holder(addr as int, k) implies k
                        == i by {
                        if k < i {
                            assert(!(before.arenas()[k].start() <= addr
                                < before.arenas()[k].limit()));
                        } else if k > i {
                            assert(!(before.arenas()[i as int].start() <= addr
                                < before.arenas()[i as int].limit()));
                        }
                    }
                }
                if (addr - arena.base) % PAGE_SIZE != 0 {
                    return false;
                }
                let old_end: usize = match addr.checked_add(old_size) {
                    Some(end) => end,
                    None => {
                        return false;
                    },
                };
                let new_end: usize = match addr.checked_add(new_size) {
                    Some(end) => end,
                    None => {
                        return false;
                    },
                };
                if new_end > arena.end {
                    return false;
                }
                if !matches!(limits.policy, GuardPolicy::Off) && fits_within_guard_segment(
                    limits.policy,
                    new_size - old_size,
                ) && guard_page_in_range(
                    limits.policy,
                    old_end,
                    new_size - old_size,
                ).is_some() {
                    return false;
                }
                if arena.current != old_end {
                    return false;
                }
                let grown: PageArena = PageArena { current: new_end, ..arena };
                assert(grown == served(arena, addr + new_size));
                self.arenas[i] = grown;
                let ghost mid = *self;
                assert forall|k: int| 0 <= k < self.arenas().len() implies (
                #[trigger] self.arenas()[k]).wf() by {
                    if k != i {
                        assert(before.arenas()[k].wf());
                    }
                }
                if arena.end - new_end < limits.min_refill {
                    self.remove_arena(i);
                    assert(self.arenas() =~= before.arenas().remove(i as int));
                }
                return true;
            }
            i = i + 1;
        }
        false
    }
}

/// A mapping that a node needs before it can serve.
#[derive(Clone, Copy, Debug, PartialEq, Eq, Structural)]
pub struct ArenaRequest {
    pub node: usize,
    /// Bytes that are to be served from it.
    pub size: usize,
    /// Bytes that can be handed out.
    pub data_size: usize,
    /// Bytes to map, with a page in front for the description of the arena.
    pub map_size: usize,
}

/// Outcome of an attempt to hand out pages.
#[derive(Clone, Copy, Debug, PartialEq, Eq, Structural)]
pub enum PageOutcome {
    /// The request cannot be served.
    Refused,
    /// Address of the pages.
    Served(usize),
    /// A new arena is needed first.
    NeedsArena(ArenaRequest),
}

/// Bytes of a new arena that can be handed out.
pub open spec fn arena_data_size(limits: ArenaLimits, size: int) -> int {
    utility::round_up(
        if size > limits.arena_size {
            size
        } else {
            limits.arena_size as int
        },
        PAGE_SIZE as int,
    ) + if limits.policy is Off {
        0
    } else {
        PAGE_SIZE as int
    }
}

/// The mapping that a new arena for `size` bytes needs, when it fits in the address space.
pub fn arena_request(limits: ArenaLimits, node: usize, size: usize) -> (r: Option<ArenaRequest>)
    ensures
        r is Some <==> arena_data_size(limits, size as int) + PAGE_SIZE <= usize::MAX,
        r matches Some(request) ==> {
            &&& request.node == node
            &&& request.size == size
            &&& request.data_size == arena_data_size(limits, size as int)
            &&& request.map_size == request.data_size + PAGE_SIZE
        },
{
    let least: usize = if size > limits.arena_size {
        size
    } else {
        limits.arena_size
    };
    let whole: usize = match utility::checked_align_to(least, PAGE_SIZE) {
        Some(whole) => whole,
        None => {
            return None;
        },
    };
    let data_size: usize = if matches!(limits.policy, GuardPolicy::Off) {
        whole
    } else {
        match whole.checked_add(PAGE_SIZE) {
            Some(data_size) => data_size,
            None => {
                return None;
            },
        }
    };
    match data_size.checked_add(PAGE_SIZE) {
        Some(map_size) => Some(ArenaRequest { node, size, data_size, map_size }),
        None => None,
    }
}

/// Bytes that a request for `size` bytes takes.
pub open spec fn page_bytes(size: int) -> int {
    utility::round_up(
        if size < 1 {
            1
        } else {
            size
        },
        PAGE_SIZE as int,
    )
}

/// Allocator of whole pages, one list of arenas for each memory node.
pub struct PageAllocator {
    nodes: Vec<NodeArena>,
    once: Once,
}

impl PageAllocator {
    pub closed spec fn nodes(&self) -> Seq<NodeArena> {
        self.nodes@
    }

    pub closed spec fn progress(&self) -> crate::internals::once::Progress {
        self.once.progress()
    }

    pub open spec fn wf(&self) -> bool {
        forall|n: int| 0 <= n < self.nodes().len() ==> (#[trigger] self.nodes()[n]).wf()
    }

    /// The node that serves a request for `node_id`.
    pub open spec fn home(&self, node_id: int) -> int {
        if node_id < self.nodes().len() {
            node_id
        } else {
            0
        }
    }

    /// Nothing but node `n` differs in `after`.
    pub open spec fn same_but(&self, after: &Self, n: int) -> bool {
        &&& after.progress() == self.progress()
        &&& after.nodes().len() == self.nodes().len()
        &&& forall|m: int|
            0 <= m < self.nodes().len() && m != n ==> #[trigger] after.nodes()[m]
                == self.nodes()[m]
    }

    pub fn new() -> (r: Self)
        ensures
            r.wf(),
            r.nodes().len() == 0,
            r.progress() == crate::internals::once::Progress::New,
    {
        PageAllocator { nodes: Vec::new(), once: Once::new() }
    }

    /// Sets up one node at least, once.
    pub fn init(&mut self, node_count: usize)
        requires
            old(self).wf(),
            old(self).progress() != crate::internals::once::Progress::Running,
            old(self).progress() == crate::internals::once::Progress::New ==> old(
                self).nodes().len() == 0,
        ensures
            final(self).wf(),
            final(self).progress() == crate::internals::once::Progress::Done,
            old(self).progress() == crate::internals::once::Progress::Done ==> final(self).nodes()
                == old(self).nodes(),
            old(self).progress() == crate::internals::once::Progress::New ==> {
                &&& final(self).nodes().len() == if node_count < 1 {
                    1
                } else {
                    node_count as int
                }
                &&& forall|n: int|
                    0 <= n < final(self).nodes().len() ==> (
                    #[trigger] final(self).nodes()[n]).arenas().len() == 0
                        && !final(self).nodes()[n].locked()
            },
    {
        if !self.once.begin() {
            return;
        }
        let count: usize = if node_count < 1 {
            1
        } else {
            node_count
        };
        while self.nodes.len() < count
            invariant
                self.nodes().len() <= count,
                self.progress() == crate::internals::once::Progress::Running,
                forall|n: int|
                    0 <= n < self.nodes().len() ==> (#[trigger] self.nodes()[n]).wf()
                        && self.nodes()[n].arenas().len() == 0 && !self.nodes()[n].locked(),
            decreases count - self.nodes().len(),
        {
            let ghost before = self.nodes();
            self.nodes.push(NodeArena::new());
            assert(self.nodes() =~= before.push(self.nodes()[before.len() as int]));
        }
        self.once.finish();
    }

    /// Number of arenas of each node.
    pub fn arena_counts(&self) -> (r: Vec<usize>)
        ensures
            r@.len() == self.nodes().len(),
            forall|n: int| 0 <= n < r@.len() ==> #[trigger] r@[n] == self.nodes()[n].arenas().len(),
    {
        let mut counts: Vec<usize> = Vec::new();
        let mut n: usize = 0;
        while n < self.nodes.len()
            invariant
                n <= self.nodes().len(),
                counts@.len() == n,
                forall|m: int|
                    0 <= m < n ==> #[trigger] counts@[m] == self.nodes()[m].arenas().len(),
            decreases self.nodes().len() - n,
        {
            counts.push(self.nodes[n].arenas.len());
            n = n + 1;
        }
        counts
    }

    /// Hands out whole pages for `size` bytes from the arenas of a node. The list holds the guard
    /// pages to be made inaccessible.
    pub fn allocate(&mut self, limits: ArenaLimits, node_id: u16, size: usize) -> (r: (
        PageOutcome,
        Vec<usize>,
    ))
        requires
            old(self).wf(),
        ensures
            final(self).wf(),
            ({
                let n = old(self).home(node_id as int);
                let bytes = page_bytes(size as int);
                if old(self).nodes().len() == 0 || bytes > usize::MAX {
                    r.0 is Refused && r.1@.len() == 0 && old(self).same_but(final(self), -1)
                } else {
                    let node = old(self).nodes()[n];
                    let list = node.after_current(limits);
                    &&& old(self).same_but(final(self), n)
                    &&& match node.current_place(limits, bytes) {
                        Some(start) => {
                            let c = node.current()->0 as int;
                            &&& r.0 matches PageOutcome::Served(addr) && addr == start
                            &&& r.1@ == node.current_guards(limits, bytes)
                            &&& final(self).nodes()[n].current() == node.current()
                            &&& final(self).nodes()[n].arenas() == node.arenas().update(
                                c,
                                served(node.arenas()[c], start + bytes),
                            )
                        },
                        None => {
                            &&& final(self).nodes()[n].arenas() == searched(list, limits, bytes)
                            &&& r.1@ == node.current_guards(limits, bytes) + searched_guards(
                                list,
                                limits,
                                bytes,
                            )
                            &&& match server(list, limits, bytes) {
                                Some(arena) => {
                                    let start = arena.place(limits.policy, bytes)->0;
                                    &&& r.0 matches PageOutcome::Served(addr) && addr == start
                                    &&& final(self).nodes()[n].current() matches Some(c)
                                        && final(self).nodes()[n].arenas()[c as int] == served(
                                        arena,
                                        start + bytes,
                                    )
                                },
                                None => {
                                    &&& final(self).nodes()[n].current() == first_after_search(
                                        list,
                                        node.first_after_current(limits),
                                        limits,
                                    )
                                    &&& if arena_data_size(limits, bytes) + PAGE_SIZE
                                        <= usize::MAX {
                                        r.0 matches PageOutcome::NeedsArena(request)
                                            && request.node == n && request.size == bytes
                                            && request.data_size == arena_data_size(limits, bytes)
                                            && request.map_size == request.data_size + PAGE_SIZE
                                    } else {
                                        r.0 is Refused
                                    }
                                },
                            }
                        },
                    }
                }
            }),
    {
        let least: usize = if size < 1 {
            1
        } else {
            size
        };
        let bytes: usize = match utility::checked_align_to(least, PAGE_SIZE) {
            Some(bytes) => bytes,
            None => {
                return (PageOutcome::Refused, Vec::new());
            },
        };
        if self.nodes.len() == 0 {
            return (PageOutcome::Refused, Vec::new());
        }
        let node: usize = if node_id as usize >= self.nodes.len() {
            0
        } else {
            node_id as usize
        };
        let ghost before = *self;
        assert(before.nodes()[node as int].wf());
        let (found, guards) = self.nodes[node].allocate(limits, bytes);
        assert forall|n: int| 0 <= n < self.nodes().len() implies (#[trigger] self.nodes()[n]).wf() by {
            if n != node {
                assert(before.nodes()[n].wf());
            }
        }
        match found {
            Some(addr) => (PageOutcome::Served(addr), guards),
            None => match arena_request(limits, node, bytes) {
                Some(request) => (PageOutcome::NeedsArena(request), guards),
                None => (PageOutcome::Refused, guards),
            },
        }
    }

    /// Continues after a mapping of the requested size was made at `mem`.
    pub fn add_arena(&mut self, limits: ArenaLimits, request: ArenaRequest, mem: usize) -> (r: (
        Option<usize>,
        Vec<usize>,
    ))
        requires
            old(self).wf(),
            request.node < old(self).nodes().len(),
            request.map_size == request.data_size + PAGE_SIZE,
            mem + request.map_size + HEADROOM <= usize::MAX,
        ensures
            final(self).wf(),
            old(self).same_but(final(self), request.node as int),
            ({
                let node = old(self).nodes()[request.node as int];
                let base = mem + PAGE_SIZE;
                let end = base + request.data_size;
                let place = limits.policy.placement(base, end, request.size as int);
                let arenas = final(self).nodes()[request.node as int].arenas();
                &&& final(self).nodes()[request.node as int].current() == Some(0usize)
                &&& arenas.len() == node.arenas().len() + 1
                &&& arenas.subrange(1, arenas.len() as int) == node.arenas()
                &&& arenas[0].start() == base
                &&& arenas[0].limit() == end
                &&& r.1@ == stepped_over(limits.policy, base, end, request.size as int)
                &&& match place {
                    Some(start) => r.0 matches Some(addr) && addr == start && arenas[0].filled()
                        == start + request.size,
                    None => r.0 is None && arenas[0].filled() == base,
                }
            }),
    {
        let base: usize = mem + PAGE_SIZE;
        let arena = PageArena::new(base, base + request.data_size);
        let ghost before = *self;
        assert(before.nodes()[request.node as int].wf());
        let r = self.nodes[request.node].add_arena(arena, limits, request.size);
        proof {
            let arenas = self.nodes()[request.node as int].arenas();
            assert(arenas.subrange(1, arenas.len() as int)
                =~= before.nodes()[request.node as int].arenas());
            assert forall|n: int| 0 <= n < self.nodes().len() implies (
            #[trigger] self.nodes()[n]).wf() by {
                if n != request.node {
                    assert(before.nodes()[n].wf());
                }
            }
        }
        r
    }

    /// Extends an allocation in place. When both sizes take the same pages there is nothing to do;
    /// otherwise the allocation has to be the last one of its arena.
    pub fn try_grow_inplace(
        &mut self,
        limits: ArenaLimits,
        node_id: u16,
        addr: usize,
        old_size: usize,
        new_size: usize,
    ) -> (r: bool)
        requires
            old(self).wf(),
        ensures
            final(self).wf(),
            ({
                let n = old(self).home(node_id as int);
                let old_bytes = page_bytes(old_size as int);
                let new_bytes = page_bytes(new_size as int);
                if addr == 0 || new_size <= old_size || new_bytes > usize::MAX {
                    !r && old(self).same_but(final(self), -1)
                } else if new_bytes <= old_bytes {
                    r && old(self).same_but(final(self), -1)
                } else if old(self).nodes().len() == 0 {
                    !r && old(self).same_but(final(self), -1)
                } else {
                    let node = old(self).nodes()[n];
                    &&& old(self).same_but(final(self), n)
                    &&& (forall|i: int| !#[trigger] node.holder(addr as int, i)) ==> !r
                        && final(self).nodes()[n] == node
                    &&& forall|i: int| #[trigger]
                        node.holder(addr as int, i) ==> {
                            let arena = node.arenas()[i];
                            let grown = served(arena, addr + new_bytes);
                            &&& r <==> NodeArena::can_grow(
                                arena,
                                limits.policy,
                                addr as int,
                                old_bytes,
                                new_bytes,
                            )
                            &&& !r ==> final(self).nodes()[n] == node
                            &&& r && grown.spent(limits.min_refill as int) ==> {
                                &&& final(self).nodes()[n].arenas() == node.arenas().remove(i)
                                &&& final(self).nodes()[n].current() == first_without(
                                    node.current(),
                                    i,
                                    node.arenas().len() as int,
                                )
                            }
                            &&& r && !grown.spent(limits.min_refill as int) ==> {
                                &&& final(self).nodes()[n].arenas() == node.arenas().update(
                                    i,
                                    grown,
                                )
                                &&& final(self).nodes()[n].current() == node.current()
                            }
                        }
                }
            }),
    {
        if addr == 0 || new_size <= old_size {
            return false;
        }
        proof {
            utility::lemma_round_up(new_size as int, PAGE_SIZE as int);
            utility::lemma_round_up(old_size as int, PAGE_SIZE as int);
            lemma_page_bytes_monotonic(old_size as int, new_size as int);
        }
        let new_bytes: usize = match utility::checked_align_to(new_size, PAGE_SIZE) {
            Some(bytes) => bytes,
            None => {
                return false;
            },
        };
        let least: usize = if old_size < 1 {
            1
        } else {
            old_size
        };
        let old_bytes: usize = match utility::checked_align_to(least, PAGE_SIZE) {
            Some(bytes) => bytes,
            None => {
                return false;
            },
        };
        if new_bytes <= old_bytes {
            return true;
        }
        if self.nodes.len() == 0 {
            return false;
        }
        let node: usize = if node_id as usize >= self.nodes.len() {
            0
        } else {
            node_id as usize
        };
        let ghost before = *self;
        assert(before.nodes()[node as int].wf());
        let r: bool = self.nodes[node].grow(limits, addr, old_bytes, new_bytes);
        assert forall|n: int| 0 <= n < self.nodes().len() implies (#[trigger] self.nodes()[n]).wf() by {
            if n != node {
                assert(before.nodes()[n].wf());
            }
        }
        r
    }

    /// Takes the locks of all nodes and keeps them across a fork.
    pub fn lock_all_for_fork(&mut self)
        requires
            old(self).wf(),
            forall|n: int|
                0 <= n < old(self).nodes().len() ==> !(#[trigger] old(self).nodes()[n]).locked(),
        ensures
            final(self).wf(),
            final(self).nodes().len() == old(self).nodes().len(),
            final(self).progress() == old(self).progress(),
            forall|n: int|
                0 <= n < old(self).nodes().len() ==> (#[trigger] final(self).nodes()[n]).locked()
                    && old(self).nodes()[n].same_arenas(&final(self).nodes()[n]),
    {
        let ghost before = *self;
        let mut n: usize = 0;
        while n < self.nodes.len()
            invariant
                n <= self.nodes().len(),
                self.nodes().len() == before.nodes().len(),
                self.progress() == before.progress(),
                before.wf(),
                forall|m: int|
                    0 <= m < before.nodes().len() ==> !(#[trigger] before.nodes()[m]).locked(),
                forall|m: int|
                    0 <= m < before.nodes().len() ==> (#[trigger] self.nodes()[m]).locked() == (m
                        < n) && before.nodes()[m].same_arenas(&self.nodes()[m]),
            decreases self.nodes().len() - n,
        {
            assert(!before.nodes()[n as int].locked());
            let ghost mid = self.nodes();
            self.nodes[n].lock.lock_for_fork();
            assert forall|m: int| 0 <= m < before.nodes().len() implies (
            #[trigger] self.nodes()[m]).locked() == (m < n + 1) && before.nodes()[m].same_arenas(
                &self.nodes()[m],
            ) by {
                assert(before.nodes()[m].same_arenas(&mid[m]));
            }
            n = n + 1;
        }
        assert forall|m: int| 0 <= m < self.nodes().len() implies (#[trigger] self.nodes()[m]).wf() by {
            assert(before.nodes()[m].wf());
        }
    }

    /// Frees the locks of all nodes after a fork.
    pub fn reset_locks_on_fork(&mut self)
        requires
            old(self).wf(),
        ensures
            final(self).wf(),
            final(self).nodes().len() == old(self).nodes().len(),
            final(self).progress() == old(self).progress(),
            forall|n: int|
                0 <= n < old(self).nodes().len() ==> !(#[trigger] final(self).nodes()[n]).locked()
                    && old(self).nodes()[n].same_arenas(&final(self).nodes()[n]),
    {
        let ghost before = *self;
        let mut n: usize = 0;
        while n < self.nodes.len()
            invariant
                n <= self.nodes().len(),
                self.nodes().len() == before.nodes().len(),
                self.progress() == before.progress(),
                before.wf(),
                forall|m: int|
                    0 <= m < before.nodes().len() ==> ((#[trigger] self.nodes()[m]).locked() ==> m
                        >= n) && before.nodes()[m].same_arenas(&self.nodes()[m]),
            decreases self.nodes().len() - n,
        {
            let ghost mid = self.nodes();
            self.nodes[n].lock.reset_at_fork();
            assert forall|m: int| 0 <= m < before.nodes().len() implies ((
            #[trigger] self.nodes()[m]).locked() ==> m >= n + 1) && before.nodes()[m].same_arenas(
                &self.nodes()[m],
            ) by {
                assert(before.nodes()[m].same_arenas(&mid[m]));
            }
            n = n + 1;
        }
        assert forall|m: int| 0 <= m < self.nodes().len() implies (#[trigger] self.nodes()[m]).wf() by {
            assert(before.nodes()[m].wf());
        }
    }
}

impl NodeArena {
    /// Nothing but the lock may differ in `after`.
    pub open spec fn same_arenas(&self, after: &Self) -> bool {
        after.arenas() == self.arenas() && after.current() == self.current()
    }
}

proof fn lemma_page_bytes_monotonic(a: int, b: int)
    requires
        0 <= a < b,
    ensures
        page_bytes(a) <= page_bytes(b),
        page_bytes(b) == utility::round_up(b, PAGE_SIZE as int),
{
}

/// An arena that served differs in how far it is filled only.
pub proof fn law_served(arena: PageArena, filled: int)
    requires
        0 <= filled <= usize::MAX,
    ensures
        arena.filled_to(&served(arena, filled), filled),
{
}

/// Two allocations that an arena hands out one after the other lie in it and do not overlap.
pub proof fn law_allocations_are_apart(
    first: PageArena,
    second: PageArena,
    policy: GuardPolicy,
    one: int,
    one_size: int,
    two: int,
    two_size: int,
)
    requires
        first.wf(),
        one_size >= 0,
        two_size >= 0,
        first.place(policy, one_size) == Some(one),
        first.filled_to(&second, one + one_size),
        second.place(policy, two_size) == Some(two),
    ensures
        first.start() <= one,
        one + one_size <= two,
        two + two_size <= first.limit(),
{
    if !(policy is Off) {
        law_next_guard(policy, policy.behind(first.filled(), first.limit()));
        law_next_guard(policy, policy.behind(second.filled(), second.limit()));
    }
}

/// Guard pages are the last ones of every two mebibytes, or of every sixty-four kibibytes, or there
/// are none.
pub proof fn law_guard_pages(policy: GuardPolicy, addr: int)
    requires
        0 <= addr,
    ensures
        policy == GuardPolicy::Off ==> !policy.guards(addr),
        policy == GuardPolicy::PerHugePage ==> (policy.guards(addr) <==> (addr + PAGE_SIZE)
            % 0x20_0000 == 0),
        policy == GuardPolicy::Dense ==> (policy.guards(addr) <==> (addr + PAGE_SIZE) % 0x1_0000
            == 0),
{
    if policy is Dense {
        assert(policy.guards(addr) <==> addr % 0x1_0000 == 0xf000);
    } else if policy is PerHugePage {
        assert(policy.guards(addr) <==> addr % 0x20_0000 == 0x1f_f000);
    }
}

/// Two guard pages are as far apart as the policy says.
pub proof fn law_guards_are_apart(policy: GuardPolicy, g: int, h: int)
    requires
        policy.guards(g),
        policy.guards(h),
        0 <= g < h,
    ensures
        policy is Dense ==> h - g >= 0x1_0000,
        policy is PerHugePage ==> h - g >= 0x20_0000,
{
    if policy is Dense {
        assert(g % 0x1_0000 == 0xf000);
        assert(h % 0x1_0000 == 0xf000);
    } else {
        assert(g % 0x20_0000 == 0x1f_f000);
        assert(h % 0x20_0000 == 0x1f_f000);
    }
}

/// The guard page that is found in a range is the first one that starts there, and where none is
/// found, none does.
pub proof fn law_guard_in_range(policy: GuardPolicy, start: int, size: int, addr: int)
    requires
        0 <= start,
        start + size <= usize::MAX,
    ensures
        policy.guard_in(start, size) matches Some(g) ==> policy.guards(g) && start <= g < start
            + size,
        policy.guards(addr) && start <= addr < start + size ==> (policy.guard_in(start, size)
            matches Some(g) && g <= addr),
{
    if !(policy is Off) {
        law_next_guard(policy, start);
    }
}

/// An allocation goes where the arena is filled up to, or, to get past a guard page, right behind
/// one; nothing is passed over where no guard page is in the way, and what does not fit is refused.
pub proof fn law_placement_is_tight(policy: GuardPolicy, current: int, end: int, size: int)
    requires
        0 <= current,
        0 < size,
        current <= end,
        end + HEADROOM <= usize::MAX,
    ensures
        policy is Off ==> policy.placement(current, end, size) == (if current + size <= end {
            Some(current)
        } else {
            None::<int>
        }),
        policy.placement(current, end, size) matches Some(start) ==> {
            &&& current <= start
            &&& start + size <= end
            &&& start == current || (policy.guards(start - PAGE_SIZE) && start - PAGE_SIZE
                >= current)
        },
        current + size <= end && (forall|g: int|
            current <= g < current + size ==> !#[trigger] policy.guards(g)) ==> policy.placement(
            current,
            end,
            size,
        ) == Some(current),
        current + size > end ==> policy.placement(current, end, size) is None,
{
    if !(policy is Off) {
        let first = policy.behind(current, end);
        law_next_guard(policy, current);
        law_next_guard(policy, first);
        law_next_guard(policy, policy.behind(policy.next_guard(first), end));
        if current + size <= end && (forall|g: int|
            current <= g < current + size ==> !#[trigger] policy.guards(g)) {
            assert(!policy.guards(current));
            assert(first == current);
            if policy.next_guard(current) < current + size {
                assert(policy.guards(policy.next_guard(current)));
            }
        }
    }
}

/// The guard pages that a placement steps over are guard pages below the end, from where the arena is
/// filled up to, in ascending order.
pub proof fn law_stepped_over(policy: GuardPolicy, current: int, end: int, size: int, i: int)
    requires
        0 <= current,
        0 < size,
        end + HEADROOM <= usize::MAX,
        0 <= i < stepped_over(policy, current, end, size).len(),
    ensures
        stepped_over(policy, current, end, size).len() <= 2,
        policy.guards(stepped_over(policy, current, end, size)[i] as int),
        current <= stepped_over(policy, current, end, size)[i] < end,
        i > 0 ==> stepped_over(policy, current, end, size)[i - 1] < stepped_over(
            policy,
            current,
            end,
            size,
        )[i],
        policy.placement(current, end, size) matches Some(start) ==> forall|g: int|
            current <= g < start && #[trigger] policy.guards(g) ==> stepped_over(policy, current, end, size).contains(
                g as usize,
            ),
{
    if !(policy is Off) {
        let first = policy.behind(current, end);
        law_next_guard(policy, first);
        law_next_guard(policy, current);
        let all = stepped_over(policy, current, end, size);
        if policy.placement(current, end, size) is Some {
            let start = policy.placement(current, end, size)->0;
            assert forall|g: int|
                current <= g < start && #[trigger] policy.guards(g) implies all.contains(
                g as usize,
            ) by {
                if g == current {
                    assert(all[0] == g as usize);
                } else {
                    if policy.guards(current) {
                        law_guards_are_apart(policy, current, g);
                    }
                    assert(g >= first);
                    let second = policy.next_guard(first);
                    assert(second <= g);
                    assert(start == second + PAGE_SIZE);
                    if g > second {
                        law_guards_are_apart(policy, second, g);
                    }
                    assert(all[all.len() - 1] == second as usize);
                }
            }
        }
    }
}

/// The first arena that can serve does: none before it can.
pub proof fn law_first_arena_serves(arenas: Seq<PageArena>, limits: ArenaLimits, size: int, i: int)
    requires
        0 <= i < arenas.len(),
        forall|j: int| 0 <= j < i ==> (#[trigger] arenas[j]).place(limits.policy, size) is None,
    ensures
        arenas[i].place(limits.policy, size) is Some ==> server(arenas, limits, size) == Some(
            arenas[i],
        ),
        i == arenas.len() - 1 && arenas[i].place(limits.policy, size) is None ==> server(
            arenas,
            limits,
            size,
        ) is None,
        i == arenas.len() - 1 && arenas[i].place(limits.policy, size) is None ==> searched(
            arenas,
            limits,
            size,
        ) == arenas.filter(|a: PageArena| !a.spent(limits.min_refill as int)),
        arenas[i].place(limits.policy, size) matches Some(start) ==> searched(arenas, limits, size)
            == arenas.take(i).filter(|a: PageArena| !a.spent(limits.min_refill as int)) + seq![
            served(arenas[i], start + size),
        ] + arenas.skip(i + 1),
    decreases arenas.len(),
{
    let keep = |a: PageArena| !a.spent(limits.min_refill as int);
    let rest = arenas.subrange(1, arenas.len() as int);
    if i == 0 {
        reveal(Seq::filter);
        assert(arenas.take(0).filter(keep) =~= Seq::<PageArena>::empty());
        if arenas[0].place(limits.policy, size) is Some {
            let start = arenas[0].place(limits.policy, size)->0;
            assert(arenas.skip(1) =~= rest);
            assert(searched(arenas, limits, size) =~= arenas.take(0).filter(keep) + seq![
                served(arenas[0], start + size),
            ] + arenas.skip(1));
        } else if arenas.len() == 1 {
            assert(arenas =~= seq![arenas[0]]);
            assert(arenas.drop_last() =~= Seq::<PageArena>::empty());
            assert(rest =~= Seq::<PageArena>::empty());
            assert(arenas.drop_last().filter(keep) =~= Seq::<PageArena>::empty());
            lemma_filter_first(arenas, keep);
            assert(arenas.skip(1) =~= rest);
            assert(searched(rest, limits, size) =~= rest);
            assert(rest.filter(keep) =~= Seq::<PageArena>::empty());
            assert(searched(arenas, limits, size) =~= arenas.filter(keep));
        }
    } else {
        assert(arenas[0].place(limits.policy, size) is None);
        assert forall|j: int| 0 <= j < i - 1 implies (#[trigger] rest[j]).place(
            limits.policy,
            size,
        ) is None by {
            assert(rest[j] == arenas[j + 1]);
        }
        assert(rest[i - 1] == arenas[i]);
        law_first_arena_serves(rest, limits, size, i - 1);
        assert(rest.skip(i) =~= arenas.skip(i + 1));
        lemma_filter_first(arenas.take(i), keep);
        assert(arenas.take(i).skip(1) =~= rest.take(i - 1));
        lemma_filter_first(arenas, keep);
        assert(arenas.skip(1) =~= rest);
        if arenas[i].place(limits.policy, size) is Some {
            let start = arenas[i].place(limits.policy, size)->0;
            assert(searched(arenas, limits, size) =~= arenas.take(i).filter(keep) + seq![
                served(arenas[i], start + size),
            ] + arenas.skip(i + 1));
        }
    }
}

proof fn lemma_filter_first(s: Seq<PageArena>, keep: spec_fn(PageArena) -> bool)
    requires
        s.len() > 0,
    ensures
        s.filter(keep) == (if keep(s[0]) {
            seq![s[0]]
        } else {
            Seq::empty()
        }) + s.skip(1).filter(keep),
    decreases s.len(),
{
    reveal(Seq::filter);
    if s.len() == 1 {
        assert(s.skip(1) =~= Seq::<PageArena>::empty());
        assert(s.drop_last() =~= Seq::<PageArena>::empty());
        assert(s.skip(1).filter(keep) =~= Seq::<PageArena>::empty());
        assert(s.drop_last().filter(keep) =~= Seq::<PageArena>::empty());
        assert(s.filter(keep) =~= (if keep(s[0]) {
            seq![s[0]]
        } else {
            Seq::empty()
        }) + s.skip(1).filter(keep));
    } else {
        let rest = s.drop_last();
        lemma_filter_first(rest, keep);
        assert(rest.skip(1) =~= s.skip(1).drop_last());
        assert(s.filter(keep) =~= (if keep(s[0]) {
            seq![s[0]]
        } else {
            Seq::empty()
        }) + s.skip(1).filter(keep));
    }
}

/// The arenas that a search without success leaves are those with enough room, counted.
pub proof fn law_arenas_with_room_are_kept(arenas: Seq<PageArena>, limits: ArenaLimits, hi: int)
    requires
        0 <= hi <= arenas.len(),
    ensures
        kept_below(arenas, limits, hi) == arenas.take(hi).filter(
            |a: PageArena| !a.spent(limits.min_refill as int),
        ).len(),
        forall|a: PageArena| #[trigger]
            a.spent(limits.min_refill as int) <==> a.limit() < a.filled() + limits.min_refill,
    decreases hi,
{
    reveal(Seq::filter);
    if hi > 0 {
        law_arenas_with_room_are_kept(arenas, limits, hi - 1);
        assert(arenas.take(hi).drop_last() =~= arenas.take(hi - 1));
    }
}

/// Once an arena is gone, the same arena is tried first as before, or the one that took the place of
/// the lost one.
pub proof fn law_first_arena_stays(arenas: Seq<PageArena>, current: usize, i: int)
    requires
        0 <= i < arenas.len(),
        current < arenas.len(),
    ensures
        current != i ==> (first_without(Some(current), i, arenas.len() as int) matches Some(c)
            && arenas.remove(i)[c as int] == arenas[current as int]),
        current == i && i + 1 < arenas.len() ==> (first_without(
            Some(current),
            i,
            arenas.len() as int,
        ) matches Some(c) && arenas.remove(i)[c as int] == arenas[i + 1]),
        current == i && i + 1 == arenas.len() ==> first_without(
            Some(current),
            i,
            arenas.len() as int,
        ) is None,
        first_without(None, i, arenas.len() as int) is None,
{
}

/// Only the last allocation of an arena grows, inside the arena, and where it grows by less than the
/// distance of guard pages it covers none.
pub proof fn law_growth_covers_no_guard(
    arena: PageArena,
    policy: GuardPolicy,
    addr: int,
    old_size: int,
    new_size: int,
    g: int,
)
    requires
        arena.wf(),
        arena.start() <= addr,
        0 <= addr,
        0 <= old_size <= new_size,
        NodeArena::can_grow(arena, policy, addr, old_size, new_size),
    ensures
        addr + old_size == arena.filled(),
        addr + new_size <= arena.limit(),
        (addr - arena.start()) % (PAGE_SIZE as int) == 0,
        policy.guards(g) && new_size - old_size <= policy.offset() ==> g < addr + old_size || addr
            + new_size <= g,
{
    law_guard_in_range(policy, addr + old_size, new_size - old_size, g);
}

/// Requests take whole pages, at least one, and less than a page more than they ask for.
pub proof fn law_page_bytes(size: int)
    ensures
        page_bytes(size) % (PAGE_SIZE as int) == 0,
        page_bytes(size) >= PAGE_SIZE,
        page_bytes(size) >= size,
        size >= 1 ==> page_bytes(size) < size + PAGE_SIZE,
        size < 1 ==> page_bytes(size) == PAGE_SIZE,
{
    utility::lemma_round_up(
        if size < 1 {
            1
        } else {
            size
        },
        PAGE_SIZE as int,
    );
}

/// A new arena has whole pages for the request that it is made for and for the least size, and one
/// page more where there are guard pages.
pub proof fn law_new_arena_holds_the_request(limits: ArenaLimits, size: int)
    requires
        0 <= size,
    ensures
        arena_data_size(limits, size) % (PAGE_SIZE as int) == 0,
        arena_data_size(limits, size) >= size,
        arena_data_size(limits, size) >= limits.arena_size,
        !(limits.policy is Off) ==> arena_data_size(limits, size) >= size + PAGE_SIZE,
        arena_data_size(limits, size) < larger_of(size, limits.arena_size as int) + 2 * PAGE_SIZE,
        limits.policy is Off ==> arena_data_size(limits, size) < larger_of(
            size,
            limits.arena_size as int,
        ) + PAGE_SIZE,
{
    utility::lemma_round_up(larger_of(size, limits.arena_size as int), PAGE_SIZE as int);
}

/// The larger of two numbers.
pub open spec fn larger_of(a: int, b: int) -> int {
    if a > b {
        a
    } else {
        b
    }
}

/// After a search without success the arena that was tried first is still the first to be tried, or,
/// where it is gone, the next one that is left.
pub proof fn law_first_arena_after_a_search(
    arenas: Seq<PageArena>,
    current: usize,
    limits: ArenaLimits,
)
    requires
        current < arenas.len() <= usize::MAX,
    ensures
        ({
            let keep = |a: PageArena| !a.spent(limits.min_refill as int);
            let left = arenas.filter(keep);
            let first = first_after_search(arenas, Some(current), limits);
            &&& first_after_search(arenas, None, limits) is None
            &&& first matches Some(k) ==> k < left.len() && left.skip(k as int) == arenas.skip(
                current as int,
            ).filter(keep)
            &&& first is None ==> arenas.skip(current as int).filter(keep).len() == 0
            &&& keep(arenas[current as int]) ==> (first matches Some(k) && left[k as int]
                == arenas[current as int])
        }),
{
    let keep = |a: PageArena| !a.spent(limits.min_refill as int);
    let c = current as int;
    let head = arenas.take(c);
    let rest = arenas.skip(c);
    law_arenas_with_room_are_kept(arenas, limits, c);
    law_arenas_with_room_are_kept(arenas, limits, arenas.len() as int);
    assert(arenas.take(arenas.len() as int) =~= arenas);
    assert(head + rest =~= arenas);
    lemma_filter_joined(head, rest, keep);
    let left = arenas.filter(keep);
    assert(left.skip(head.filter(keep).len() as int) =~= rest.filter(keep));
    lemma_filter_shorter(arenas, keep);
    if keep(arenas[c]) {
        lemma_filter_first(rest, keep);
        assert(rest.filter(keep)[0] == arenas[c]);
        assert(left[head.filter(keep).len() as int] == arenas[c]);
    }
}

proof fn lemma_filter_shorter(s: Seq<PageArena>, keep: spec_fn(PageArena) -> bool)
    ensures
        s.filter(keep).len() <= s.len(),
    decreases s.len(),
{
    reveal(Seq::filter);
    if s.len() > 0 {
        lemma_filter_shorter(s.drop_last(), keep);
    }
}

proof fn lemma_filter_joined(
    a: Seq<PageArena>,
    b: Seq<PageArena>,
    keep: spec_fn(PageArena) -> bool,
)
    ensures
        (a + b).filter(keep) == a.filter(keep) + b.filter(keep),
    decreases b.len(),
{
    reveal(Seq::filter);
    if b.len() == 0 {
        assert(a + b =~= a);
        assert(b.filter(keep) =~= Seq::<PageArena>::empty());
        assert(a.filter(keep) + b.filter(keep) =~= a.filter(keep));
    } else {
        lemma_filter_joined(a, b.drop_last(), keep);
        assert((a + b).drop_last() =~= a + b.drop_last());
        assert((a + b).last() == b.last());
        assert((a + b).filter(keep) =~= a.filter(keep) + b.filter(keep));
    }
}

/// A search steps over the guard pages that its attempts do, up to the arena that serves, and over
/// nothing else.
pub proof fn law_searched_guards(arenas: Seq<PageArena>, limits: ArenaLimits, size: int, i: int)
    requires
        0 <= i < arenas.len(),
        forall|j: int| 0 <= j < i ==> (#[trigger] arenas[j]).place(limits.policy, size) is None,
    ensures
        ({
            let here = stepped_over(limits.policy, arenas[i].filled(), arenas[i].limit(), size);
            let before = searched_guards(arenas.take(i), limits, size);
            let rest = searched_guards(arenas.skip(i + 1), limits, size);
            &&& searched_guards(arenas.take(0), limits, size).len() == 0
            &&& arenas[i].place(limits.policy, size) is Some ==> searched_guards(
                arenas,
                limits,
                size,
            ) == before + here
            &&& arenas[i].place(limits.policy, size) is None ==> searched_guards(
                arenas,
                limits,
                size,
            ) == before + here + rest
        }),
    decreases i,
{
    let rest = arenas.subrange(1, arenas.len() as int);
    let here = stepped_over(limits.policy, arenas[i].filled(), arenas[i].limit(), size);
    assert(arenas.skip(1) =~= rest);
    if i == 0 {
        assert(arenas.take(0) =~= Seq::<PageArena>::empty());
        assert(searched_guards(arenas.take(0), limits, size) =~= Seq::<usize>::empty());
        assert(Seq::<usize>::empty() + here =~= here);
    } else {
        assert forall|j: int| 0 <= j < i - 1 implies (#[trigger] rest[j]).place(
            limits.policy,
            size,
        ) is None by {
            assert(rest[j] == arenas[j + 1]);
        }
        assert(arenas[0].place(limits.policy, size) is None);
        law_searched_guards(rest, limits, size, i - 1);
        assert(rest[i - 1] == arenas[i]);
        assert(rest.skip(i) =~= arenas.skip(i + 1));
        let head = arenas.take(i);
        assert(head.subrange(1, head.len() as int) =~= rest.take(i - 1));
        let first = stepped_over(limits.policy, arenas[0].filled(), arenas[0].limit(), size);
        let mid = searched_guards(rest.take(i - 1), limits, size);
        let behind = searched_guards(arenas.skip(i + 1), limits, size);
        assert(searched_guards(head, limits, size) == first + mid);
        assert(first + (mid + here) =~= first + mid + here);
        assert(first + (mid + here + behind) =~= first + mid + here + behind);
    }
}

/// The arena that is tried first is taken off the list when it is spent, and no other is.
pub proof fn law_spent_arena_is_dropped(node: &NodeArena, limits: ArenaLimits)
    requires
        node.current() matches Some(c) ==> c < node.arenas().len(),
    ensures
        node.current() is None ==> node.after_current(limits) == node.arenas()
            && node.first_after_current(limits) is None,
        node.current() matches Some(c) ==> {
            let a = node.arenas()[c as int];
            let after = node.after_current(limits);
            &&& !a.spent(limits.min_refill as int) ==> after == node.arenas()
                && node.first_after_current(limits) == Some(c)
            &&& a.spent(limits.min_refill as int) ==> node.arenas() == after.insert(c as int, a)
        },
{
    if node.current() is Some {
        let c = node.current()->0 as int;
        assert(node.arenas().remove(c).insert(c, node.arenas()[c]) =~= node.arenas());
    }
}

} // verus!
