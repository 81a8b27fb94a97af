//! Open-addressing map from payload addresses to their metadata.

use crate::internals::hash;
use crate::BigAllocMeta;
use vstd::prelude::*;

verus! {

/// A slot has never held a key, holds one, or held one that was removed.
#[derive(Clone, Copy, Debug, PartialEq, Eq, Structural)]
pub enum SlotState {
    Empty,
    Occupied,
    Tombstone,
}

#[derive(Clone, Copy)]
pub struct Entry {
    key: usize,
    meta: BigAllocMeta,
    state: SlotState,
}

/// Slots of the first table.
pub const INITIAL_CAP: usize = 16384;

/// At most this many in ten slots may be occupied.
pub const LOAD_NUM: usize = 7;

pub const LOAD_DEN: usize = 10;

/// Where the search for a key starts in a table of `cap` slots.
pub open spec fn home(key: usize, cap: int) -> int {
    hash::spec_mix(key as u64) as int % cap
}

/// The slot that a search from `start` looks at after `step` steps.
pub open spec fn probe(start: int, step: int, cap: int) -> int {
    if start + step < cap {
        start + step
    } else {
        start + step - cap
    }
}

/// Steps that a search from `start` takes to `slot`.
pub open spec fn distance(start: int, slot: int, cap: int) -> int {
    if slot >= start {
        slot - start
    } else {
        slot - start + cap
    }
}

/// Slot `j` holds `key`.
spec fn holds(t: Seq<Entry>, j: int, key: usize) -> bool {
    0 <= j < t.len() && t[j].state == SlotState::Occupied && t[j].key == key
}

/// Every key can be reached from where its search starts without passing an empty slot, and no
/// key stands in two slots.
spec fn reachable(t: Seq<Entry>) -> bool {
    &&& forall|j: int, step: int|
        0 <= j < t.len() && (#[trigger] t[j]).state == SlotState::Occupied && 0 <= step < distance(
            home(t[j].key, t.len() as int),
            j,
            t.len() as int,
        ) ==> (#[trigger] t[probe(home(t[j].key, t.len() as int), step, t.len() as int)]).state
            != SlotState::Empty
    &&& forall|i: int, j: int, key: usize| #[trigger]
        holds(t, i, key) && #[trigger] holds(t, j, key) ==> i == j
}

/// The keys and metadata that a table holds.
spec fn contents(t: Seq<Entry>) -> Map<usize, BigAllocMeta> {
    Map::new(
        |key: usize| exists|j: int| holds(t, j, key),
        |key: usize| t[choose|j: int| holds(t, j, key)].meta,
    )
}

/// Slots below `hi` in the given state.
spec fn count(t: Seq<Entry>, state: SlotState, hi: int) -> int
    decreases hi,
{
    if hi <= 0 {
        0
    } else {
        count(t, state, hi - 1) + if t[hi - 1].state == state {
            1int
        } else {
            0
        }
    }
}

proof fn lemma_count_update(t: Seq<Entry>, state: SlotState, j: int, e: Entry, hi: int)
    requires
        0 <= j < t.len(),
        0 <= hi <= t.len(),
    ensures
        count(t.update(j, e), state, hi) == count(t, state, hi) + (if j < hi {
            (if e.state == state {
                1int
            } else {
                0
            }) - (if t[j].state == state {
                1int
            } else {
                0
            })
        } else {
            0
        }),
    decreases hi,
{
    if hi > 0 {
        lemma_count_update(t, state, j, e, hi - 1);
    }
}

proof fn lemma_count_bound(t: Seq<Entry>, hi: int)
    requires
        0 <= hi <= t.len(),
    ensures
        0 <= count(t, SlotState::Occupied, hi),
        0 <= count(t, SlotState::Tombstone, hi),
        count(t, SlotState::Occupied, hi) + count(t, SlotState::Tombstone, hi) <= hi,
        count(t, SlotState::Occupied, hi) < hi ==> exists|j: int|
            0 <= j < hi && (#[trigger] t[j]).state != SlotState::Occupied,
    decreases hi,
{
    if hi > 0 {
        lemma_count_bound(t, hi - 1);
        if t[hi - 1].state == SlotState::Occupied {
            if count(t, SlotState::Occupied, hi) < hi {
                let j = choose|j: int|
                    0 <= j < hi - 1 && (#[trigger] t[j]).state != SlotState::Occupied;
                assert(0 <= j < hi);
            }
        } else {
            assert(t[hi - 1].state != SlotState::Occupied);
        }
    }
}

/// What a lookup of a key that stands in slot `j` finds.
proof fn lemma_contents(t: Seq<Entry>, j: int, key: usize)
    requires
        reachable(t),
        holds(t, j, key),
    ensures
        contents(t).dom().contains(key),
        contents(t)[key] == t[j].meta,
{
    let i = choose|i: int| holds(t, i, key);
    assert(holds(t, i, key) && holds(t, j, key));
}

/// Where a search for a key starts.
fn hash_key(key: usize, cap: usize) -> (r: usize)
    requires
        cap > 0,
    ensures
        r == home(key, cap as int),
        r < cap,
{
    let h: u64 = hash::mix(key as u64);
    (h % (cap as u64)) as usize
}

/// Outcome of a search.
enum Found {
    /// The key stands in this slot.
    At(usize),
    /// The key is absent; the search ended at this slot or after it, which is where it may go.
    Free(usize),
    /// The key is absent and every slot is occupied.
    Full,
}

/// Looks for `key` from where its search starts.
fn search(t: &Vec<Entry>, key: usize) -> (r: Found)
    requires
        t@.len() > 0,
        reachable(t@),
    ensures
        match r {
            Found::At(j) => holds(t@, j as int, key),
            Found::Free(j) => {
                &&& j < t@.len()
                &&& t@[j as int].state != SlotState::Occupied
                &&& forall|i: int| !#[trigger] holds(t@, i, key)
                &&& forall|step: int|
                    0 <= step < distance(home(key, t@.len() as int), j as int, t@.len() as int)
                        ==> (#[trigger] t@[probe(
                        home(key, t@.len() as int),
                        step,
                        t@.len() as int,
                    )]).state != SlotState::Empty
            },
            Found::Full => {
                &&& forall|i: int| !#[trigger] holds(t@, i, key)
                &&& forall|i: int|
                    0 <= i < t@.len() ==> (#[trigger] t@[i]).state == SlotState::Occupied
            },
        },
{
    let cap: usize = t.len();
    let ghost c = cap as int;
    let start: usize = hash_key(key, cap);
    let mut idx: usize = start;
    let mut step: usize = 0;
    let mut first_tomb: Option<usize> = None;
    while step < cap
        invariant
            cap == t@.len(),
            c == cap as int,
            cap > 0,
            start == home(key, c),
            start < cap,
            step <= cap,
            idx < cap,
            step < cap ==> idx == probe(start as int, step as int, c),
            reachable(t@),
            forall|s: int|
                0 <= s < step ==> (#[trigger] t@[probe(start as int, s, c)]).state
                    != SlotState::Empty && !holds(t@, probe(start as int, s, c), key),
            first_tomb matches Some(f) ==> f < cap && t@[f as int].state == SlotState::Tombstone
                && distance(start as int, f as int, c) < step,
            first_tomb is None ==> forall|s: int|
                0 <= s < step ==> (#[trigger] t@[probe(start as int, s, c)]).state
                    == SlotState::Occupied,
        decreases cap - step,
    {
        let state = t[idx].state;
        if matches!(state, SlotState::Empty) {
            proof {
                lemma_absent(t@, key, step as int);
            }
            let target: usize = match first_tomb {
                Some(f) => f,
                None => idx,
            };
            return Found::Free(target);
        }
        if matches!(state, SlotState::Occupied) {
            if t[idx].key == key {
                return Found::At(idx);
            }
        } else if first_tomb.is_none() {
            first_tomb = Some(idx);
        }
        idx = idx + 1;
        if idx == cap {
            idx = 0;
        }
        step = step + 1;
    }
    proof {
        assert forall|i: int| !#[trigger] holds(t@, i, key) by {
            if 0 <= i < c {
                let s = distance(start as int, i, c);
                assert(probe(start as int, s, c) == i);
                assert(!holds(t@, probe(start as int, s, c), key));
            }
        }
    }
    match first_tomb {
        Some(f) => Found::Free(f),
        None => {
            proof {
                assert forall|i: int| 0 <= i < t@.len() implies (#[trigger] t@[i]).state
                    == SlotState::Occupied by {
                    let s = distance(start as int, i, c);
                    assert(probe(start as int, s, c) == i);
                    assert(t@[probe(start as int, s, c)].state == SlotState::Occupied);
                }
            }
            Found::Full
        },
    }
}

/// A key that was not met before an empty slot is nowhere in the table.
proof fn lemma_absent(t: Seq<Entry>, key: usize, step: int)
    requires
        t.len() > 0,
        reachable(t),
        0 <= home(key, t.len() as int) < t.len(),
        0 <= step < t.len(),
        t[probe(home(key, t.len() as int), step, t.len() as int)].state == SlotState::Empty,
        forall|s: int|
            0 <= s < step ==> !holds(
                t,
                #[trigger] probe(home(key, t.len() as int), s, t.len() as int),
                key,
            ),
    ensures
        forall|i: int| !#[trigger] holds(t, i, key),
{
    let c = t.len() as int;
    let h = home(key, c);
    assert forall|i: int| !#[trigger] holds(t, i, key) by {
        if holds(t, i, key) {
            let d = distance(h, i, c);
            assert(probe(h, d, c) == i);
            if d < step {
                assert(!holds(t, probe(h, d, c), key));
            } else if d > step {
                assert(t[probe(home(t[i].key, c), step, c)].state != SlotState::Empty);
            }
        }
    }
}

/// Putting an absent key where its search may end keeps all keys reachable.
proof fn lemma_store(t: Seq<Entry>, j: int, key: usize, meta: BigAllocMeta)
    requires
        reachable(t),
        0 <= j < t.len(),
        t[j].state != SlotState::Occupied,
        forall|i: int| !#[trigger] holds(t, i, key),
        forall|step: int|
            0 <= step < distance(home(key, t.len() as int), j, t.len() as int) ==> (
            #[trigger] t[probe(home(key, t.len() as int), step, t.len() as int)]).state
                != SlotState::Empty,
    ensures
        reachable(t.update(j, (Entry { key, meta, state: SlotState::Occupied }))),
        contents(t.update(j, (Entry { key, meta, state: SlotState::Occupied }))) == contents(
            t,
        ).insert(key, meta),
{
    let e = Entry { key, meta, state: SlotState::Occupied };
    let u = t.update(j, e);
    let c = t.len() as int;
    assert forall|i: int, step: int|
        0 <= i < u.len() && (#[trigger] u[i]).state == SlotState::Occupied && 0 <= step < distance(
            home(u[i].key, c),
            i,
            c,
        ) implies (#[trigger] u[probe(home(u[i].key, c), step, c)]).state != SlotState::Empty by {
        let p = probe(home(u[i].key, c), step, c);
        if i == j {
            assert(t[p].state != SlotState::Empty || p == j || !(0 <= p < c));
        } else {
            assert(t[i].state == SlotState::Occupied);
            assert(t[p].state != SlotState::Empty);
        }
    }
    assert forall|a: int, b: int, k: usize| #[trigger] holds(u, a, k) && #[trigger] holds(u, b, k)
        implies a == b by {
        if a != j {
            assert(holds(t, a, k));
        }
        if b != j {
            assert(holds(t, b, k));
        }
    }
    lemma_same_lookups(t, u, j);
    assert(holds(u, j, key));
    lemma_contents(u, j, key);
    assert(contents(u) =~= contents(t).insert(key, meta)) by {
        assert forall|k: usize| #[trigger] contents(u).dom().contains(k) <==> contents(t).insert(
            key,
            meta,
        ).dom().contains(k) by {
            if contents(u).dom().contains(k) && k != key {
                let i = choose|i: int| holds(u, i, k);
                assert(holds(t, i, k));
            }
            if contents(t).dom().contains(k) {
                let i = choose|i: int| holds(t, i, k);
                assert(holds(u, i, k));
            }
        }
        assert forall|k: usize| #[trigger] contents(u).dom().contains(k) implies contents(u)[k]
            == contents(t).insert(key, meta)[k] by {
            if k != key {
                let i = choose|i: int| holds(u, i, k);
                assert(holds(t, i, k));
                lemma_contents(t, i, k);
                lemma_contents(u, i, k);
            }
        }
    }
}

/// Slots other than `j` hold what they held.
proof fn lemma_same_lookups(t: Seq<Entry>, u: Seq<Entry>, j: int)
    requires
        u.len() == t.len(),
        forall|i: int| 0 <= i < t.len() && i != j ==> u[i] == t[i],
    ensures
        forall|i: int, k: usize| i != j ==> #[trigger] holds(u, i, k) == holds(t, i, k),
{
}

/// Changing the metadata of a key leaves all keys where they are.
proof fn lemma_overwrite(t: Seq<Entry>, j: int, key: usize, meta: BigAllocMeta)
    requires
        reachable(t),
        holds(t, j, key),
    ensures
        reachable(t.update(j, (Entry { meta, ..t[j] }))),
        contents(t.update(j, (Entry { meta, ..t[j] }))) == contents(t).insert(key, meta),
        contents(t).dom().contains(key),
        contents(t)[key] == t[j].meta,
{
    let u = t.update(j, Entry { meta, ..t[j] });
    let c = t.len() as int;
    lemma_contents(t, j, key);
    assert forall|i: int, k: usize| #[trigger] holds(u, i, k) == holds(t, i, k) by {}
    assert forall|i: int, step: int|
        0 <= i < u.len() && (#[trigger] u[i]).state == SlotState::Occupied && 0 <= step < distance(
            home(u[i].key, c),
            i,
            c,
        ) implies (#[trigger] u[probe(home(u[i].key, c), step, c)]).state != SlotState::Empty by {
        assert(t[i].state == SlotState::Occupied);
        assert(t[probe(home(t[i].key, c), step, c)].state != SlotState::Empty);
    }
    assert forall|a: int, b: int, k: usize| #[trigger] holds(u, a, k) && #[trigger] holds(u, b, k)
        implies a == b by {
        assert(holds(t, a, k) && holds(t, b, k));
    }
    lemma_contents(u, j, key);
    assert(contents(u) =~= contents(t).insert(key, meta)) by {
        assert forall|k: usize| #[trigger] contents(u).dom().contains(k) <==> contents(t).insert(
            key,
            meta,
        ).dom().contains(k) by {
            if contents(u).dom().contains(k) {
                let i = choose|i: int| holds(u, i, k);
                assert(holds(t, i, k));
            }
            if contents(t).dom().contains(k) {
                let i = choose|i: int| holds(t, i, k);
                assert(holds(u, i, k));
            }
        }
        assert forall|k: usize| #[trigger] contents(u).dom().contains(k) implies contents(u)[k]
            == contents(t).insert(key, meta)[k] by {
            if k != key {
                let i = choose|i: int| holds(u, i, k);
                assert(holds(t, i, k));
                lemma_contents(t, i, k);
                lemma_contents(u, i, k);
            }
        }
    }
}

/// Marking the slot of a key as removed keeps the other keys reachable.
proof fn lemma_bury(t: Seq<Entry>, j: int, key: usize)
    requires
        reachable(t),
        holds(t, j, key),
    ensures
        reachable(t.update(j, (Entry { state: SlotState::Tombstone, ..t[j] }))),
        contents(t.update(j, (Entry { state: SlotState::Tombstone, ..t[j] }))) == contents(
            t,
        ).remove(key),
        contents(t).dom().contains(key),
        contents(t)[key] == t[j].meta,
{
    let u = t.update(j, Entry { state: SlotState::Tombstone, ..t[j] });
    let c = t.len() as int;
    lemma_contents(t, j, key);
    lemma_same_lookups(t, u, j);
    assert forall|i: int, step: int|
        0 <= i < u.len() && (#[trigger] u[i]).state == SlotState::Occupied && 0 <= step < distance(
            home(u[i].key, c),
            i,
            c,
        ) implies (#[trigger] u[probe(home(u[i].key, c), step, c)]).state != SlotState::Empty by {
        assert(t[i].state == SlotState::Occupied);
        assert(t[probe(home(t[i].key, c), step, c)].state != SlotState::Empty);
    }
    assert forall|a: int, b: int, k: usize| #[trigger] holds(u, a, k) && #[trigger] holds(u, b, k)
        implies a == b by {
        assert(holds(t, a, k) && holds(t, b, k));
    }
    assert forall|i: int| !#[trigger] holds(u, i, key) by {
        if holds(u, i, key) {
            assert(i != j);
            assert(holds(t, i, key) && holds(t, j, key));
        }
    }
    assert(contents(u) =~= contents(t).remove(key)) by {
        assert forall|k: usize| #[trigger] contents(u).dom().contains(k) <==> contents(t).remove(
            key,
        ).dom().contains(k) by {
            if contents(u).dom().contains(k) {
                let i = choose|i: int| holds(u, i, k);
                assert(holds(t, i, k));
            }
            if contents(t).dom().contains(k) && k != key {
                let i = choose|i: int| holds(t, i, k);
                assert(i != j);
                assert(holds(u, i, k));
            }
        }
        assert forall|k: usize| #[trigger] contents(u).dom().contains(k) implies contents(u)[k]
            == contents(t).remove(key)[k] by {
            let i = choose|i: int| holds(u, i, k);
            assert(holds(t, i, k));
            lemma_contents(t, i, k);
            lemma_contents(u, i, k);
        }
    }
}

/// A table of empty slots holds nothing.
proof fn lemma_empty_table(t: Seq<Entry>, hi: int)
    requires
        forall|j: int| 0 <= j < t.len() ==> (#[trigger] t[j]).state == SlotState::Empty,
        0 <= hi <= t.len(),
    ensures
        reachable(t),
        contents(t) == Map::<usize, BigAllocMeta>::empty(),
        count(t, SlotState::Occupied, hi) == 0,
        count(t, SlotState::Tombstone, hi) == 0,
    decreases hi,
{
    assert(contents(t) =~= Map::<usize, BigAllocMeta>::empty());
    if hi > 0 {
        lemma_empty_table(t, hi - 1);
    }
}

/// A fresh table.
fn empty_table(cap: usize) -> (t: Vec<Entry>)
    ensures
        t@.len() == cap,
        forall|j: int| 0 <= j < cap ==> (#[trigger] t@[j]).state == SlotState::Empty,
{
    let mut t: Vec<Entry> = Vec::new();
    while t.len() < cap
        invariant
            t@.len() <= cap,
            forall|j: int| 0 <= j < t@.len() ==> (#[trigger] t@[j]).state == SlotState::Empty,
        decreases cap - t@.len(),
    {
        t.push(
            Entry {
                key: 0,
                meta: BigAllocMeta { size: 0, order: 0, buddy_region: 0, aligned: false },
                state: SlotState::Empty,
            },
        );
    }
    t
}

/// Map from payload addresses to metadata with open addressing.
pub struct BigAllocMap {
    table: Vec<Entry>,
    len: usize,
    tombstones: usize,
}

impl View for BigAllocMap {
    type V = Map<usize, BigAllocMeta>;

    closed spec fn view(&self) -> Map<usize, BigAllocMeta> {
        contents(self.table@)
    }
}

impl BigAllocMap {
    /// Every key is reachable, no key stands twice, and the counters are right.
    pub closed spec fn wf(&self) -> bool {
        &&& reachable(self.table@)
        &&& self.len == count(self.table@, SlotState::Occupied, self.table@.len() as int)
        &&& self.tombstones == count(self.table@, SlotState::Tombstone, self.table@.len() as int)
    }

    /// Slots of the table.
    pub closed spec fn capacity(&self) -> nat {
        self.table@.len()
    }

    /// Slots of the table after it grew.
    pub open spec fn grown(&self) -> int {
        if 2 * self.capacity() > INITIAL_CAP {
            2 * self.capacity() as int
        } else {
            INITIAL_CAP as int
        }
    }

    /// A map that has no table yet.
    pub fn new() -> (r: Self)
        ensures
            r.wf(),
            r.capacity() == 0,
            r@ == Map::<usize, BigAllocMeta>::empty(),
    {
        let table: Vec<Entry> = Vec::new();
        proof {
            lemma_empty_table(table@, 0);
        }
        BigAllocMap { table, len: 0, tombstones: 0 }
    }

    /// Moves all keys to a table of twice the size, leaving the tombstones behind.
    fn grow(&mut self)
        requires
            old(self).wf(),
            old(self).capacity() <= usize::MAX / 20,
        ensures
            final(self).wf(),
            final(self)@ == old(self)@,
            final(self).len == old(self).len,
            final(self).tombstones == 0,
            final(self).capacity() == old(self).grown(),
    {
        let old_cap: usize = self.table.len();
        let doubled: usize = old_cap * 2;
        let new_cap: usize = if doubled > INITIAL_CAP {
            doubled
        } else {
            INITIAL_CAP
        };
        let ghost from = self.table@;
        let mut next: Vec<Entry> = empty_table(new_cap);
        proof {
            lemma_empty_table(next@, next@.len() as int);
        }
        let mut i: usize = 0;
        while i < old_cap
            invariant
                i <= old_cap,
                old_cap == from.len(),
                old_cap < new_cap,
                from == self.table@,
                *self == *old(self),
                reachable(from),
                next@.len() == new_cap,
                reachable(next@),
                forall|j: int|
                    0 <= j < new_cap ==> (#[trigger] next@[j]).state != SlotState::Tombstone,
                count(next@, SlotState::Occupied, new_cap as int) == count(
                    from,
                    SlotState::Occupied,
                    i as int,
                ),
                count(next@, SlotState::Tombstone, new_cap as int) == 0,
                forall|j: int, key: usize|
                    j < i && #[trigger] holds(from, j, key) ==> contents(next@).dom().contains(key)
                        && contents(next@)[key] == from[j].meta,
                forall|key: usize| #[trigger]
                    contents(next@).dom().contains(key) ==> exists|j: int|
                        j < i && holds(from, j, key),
            decreases old_cap - i,
        {
            let entry = self.table[i];
            if matches!(entry.state, SlotState::Occupied) {
                let ghost before = next@;
                proof {
                    assert(holds(from, i as int, entry.key));
                    lemma_count_bound(from, i as int);
                    lemma_count_bound(next@, new_cap as int);
                    assert forall|j: int| !#[trigger] holds(next@, j, entry.key) by {
                        if holds(next@, j, entry.key) {
                            lemma_contents(next@, j, entry.key);
                            let q = choose|q: int| q < i && holds(from, q, entry.key);
                            assert(holds(from, q, entry.key) && holds(from, i as int, entry.key));
                        }
                    }
                }
                match search(&next, entry.key) {
                    Found::Free(j) => {
                        proof {
                            lemma_store(before, j as int, entry.key, entry.meta);
                            lemma_count_update(
                                before,
                                SlotState::Occupied,
                                j as int,
                                entry,
                                new_cap as int,
                            );
                            lemma_count_update(
                                before,
                                SlotState::Tombstone,
                                j as int,
                                entry,
                                new_cap as int,
                            );
                        }
                        next[j] = Entry {
                            key: entry.key,
                            meta: entry.meta,
                            state: SlotState::Occupied,
                        };
                        proof {
                            assert forall|q: int, key: usize|
                                q < i + 1 && #[trigger] holds(from, q, key) implies contents(
                                next@,
                            ).dom().contains(key) && contents(next@)[key] == from[q].meta by {
                                if q < i {
                                    if key == entry.key {
                                        assert(holds(from, i as int, key));
                                    }
                                }
                            }
                            assert forall|key: usize| #[trigger]
                                contents(next@).dom().contains(key) implies exists|q: int|
                                q < i + 1 && holds(from, q, key) by {
                                if key == entry.key {
                                    assert(holds(from, i as int, key));
                                } else {
                                    assert(contents(before).dom().contains(key));
                                    let q = choose|q: int| q < i && holds(from, q, key);
                                    assert(q < i + 1 && holds(from, q, key));
                                }
                            }
                        }
                    },
                    _ => {},
                }
            } else {
                proof {
                    assert forall|key: usize| #[trigger]
                        contents(next@).dom().contains(key) implies exists|q: int|
                        q < i + 1 && holds(from, q, key) by {
                        let q = choose|q: int| q < i && holds(from, q, key);
                        assert(q < i + 1 && holds(from, q, key));
                    }
                }
            }
            i = i + 1;
        }
        proof {
            assert(contents(next@) =~= contents(from)) by {
                assert forall|key: usize| #[trigger] contents(next@).dom().contains(key)
                    <==> contents(from).dom().contains(key) by {
                    if contents(from).dom().contains(key) {
                        let q = choose|q: int| holds(from, q, key);
                        assert(q < old_cap);
                    }
                }
                assert forall|key: usize| #[trigger]
                    contents(next@).dom().contains(key) implies contents(next@)[key] == contents(
                    from,
                )[key] by {
                    let q = choose|q: int| q < old_cap && holds(from, q, key);
                    lemma_contents(from, q, key);
                }
            }
        }
        self.table = next;
        self.tombstones = 0;
    }

    /// Makes room for one more key.
    fn ensure_capacity(&mut self)
        requires
            old(self).wf(),
            old(self).capacity() <= usize::MAX / 20,
        ensures
            final(self).wf(),
            final(self)@ == old(self)@,
            final(self).len < final(self).capacity(),
            final(self).capacity() == old(self).capacity() || final(self).capacity() == old(
                self).grown(),
    {
        let cap: usize = self.table.len();
        proof {
            lemma_count_bound(self.table@, self.table@.len() as int);
        }
        if cap == 0 {
            assert(self@ =~= Map::<usize, BigAllocMeta>::empty());
            self.table = empty_table(INITIAL_CAP);
            self.len = 0;
            self.tombstones = 0;
            proof {
                lemma_empty_table(self.table@, INITIAL_CAP as int);
            }
            return;
        }
        if (self.len + 1) * LOAD_DEN <= cap * LOAD_NUM && self.tombstones * 2 <= cap {
            return;
        }
        self.grow();
    }

    /// Maps `key` to `meta`, whether or not it was mapped before.
    pub fn insert(&mut self, key: usize, meta: BigAllocMeta)
        requires
            old(self).wf(),
            old(self).capacity() <= usize::MAX / 20,
        ensures
            final(self).wf(),
            final(self)@ == old(self)@.insert(key, meta),
            final(self).capacity() == old(self).capacity() || final(self).capacity() == old(
                self).grown(),
    {
        self.ensure_capacity();
        let cap: usize = self.table.len();
        let ghost t = self.table@;
        proof {
            lemma_count_bound(t, t.len() as int);
        }
        match search(&self.table, key) {
            Found::At(j) => {
                let entry = self.table[j];
                proof {
                    lemma_overwrite(t, j as int, key, meta);
                    lemma_count_update(
                        t,
                        SlotState::Occupied,
                        j as int,
                        Entry { meta, ..entry },
                        t.len() as int,
                    );
                    lemma_count_update(
                        t,
                        SlotState::Tombstone,
                        j as int,
                        Entry { meta, ..entry },
                        t.len() as int,
                    );
                }
                self.table[j] = Entry { key: entry.key, meta, state: entry.state };
            },
            Found::Free(j) => {
                let reused: bool = matches!(self.table[j].state, SlotState::Tombstone);
                let entry = Entry { key, meta, state: SlotState::Occupied };
                proof {
                    lemma_store(t, j as int, key, meta);
                    lemma_count_update(t, SlotState::Occupied, j as int, entry, t.len() as int);
                    lemma_count_update(t, SlotState::Tombstone, j as int, entry, t.len() as int);
                    lemma_count_bound(t.update(j as int, entry), t.len() as int);
                }
                self.table[j] = entry;
                assert(self.len < cap);
                self.len = self.len + 1;
                if reused {
                    self.tombstones = self.tombstones - 1;
                }
            },
            Found::Full => {},
        }
    }

    /// The metadata of `key`.
    pub fn get(&self, key: usize) -> (r: Option<BigAllocMeta>)
        requires
            self.wf(),
        ensures
            r == (if self@.dom().contains(key) {
                Some(self@[key])
            } else {
                None
            }),
    {
        if self.table.len() == 0 {
            return None;
        }
        match search(&self.table, key) {
            Found::At(j) => {
                proof {
                    lemma_contents(self.table@, j as int, key);
                }
                Some(self.table[j].meta)
            },
            _ => None,
        }
    }

    /// Changes the metadata of `key` when it is mapped and gives back what it was.
    pub fn replace(&mut self, key: usize, meta: BigAllocMeta) -> (r: Option<BigAllocMeta>)
        requires
            old(self).wf(),
        ensures
            final(self).wf(),
            final(self).capacity() == old(self).capacity(),
            old(self)@.dom().contains(key) ==> r == Some(old(self)@[key]) && final(self)@ == old(
                self)@.insert(key, meta),
            !old(self)@.dom().contains(key) ==> r is None && final(self)@ == old(self)@,
    {
        if self.table.len() == 0 {
            return None;
        }
        let ghost t = self.table@;
        match search(&self.table, key) {
            Found::At(j) => {
                let entry = self.table[j];
                proof {
                    lemma_overwrite(t, j as int, key, meta);
                    lemma_count_update(
                        t,
                        SlotState::Occupied,
                        j as int,
                        Entry { meta, ..entry },
                        t.len() as int,
                    );
                    lemma_count_update(
                        t,
                        SlotState::Tombstone,
                        j as int,
                        Entry { meta, ..entry },
                        t.len() as int,
                    );
                }
                self.table[j] = Entry { key: entry.key, meta, state: entry.state };
                Some(entry.meta)
            },
            _ => None,
        }
    }

    /// Unmaps `key` and gives back what it was mapped to.
    pub fn remove(&mut self, key: usize) -> (r: Option<BigAllocMeta>)
        requires
            old(self).wf(),
        ensures
            final(self).wf(),
            final(self).capacity() == old(self).capacity(),
            final(self)@ == old(self)@.remove(key),
            r == (if old(self)@.dom().contains(key) {
                Some(old(self)@[key])
            } else {
                None
            }),
    {
        if self.table.len() == 0 {
            assert(self@ =~= self@.remove(key));
            return None;
        }
        let ghost t = self.table@;
        match search(&self.table, key) {
            Found::At(j) => {
                let entry = self.table[j];
                let buried = Entry {
                    key: entry.key,
                    meta: entry.meta,
                    state: SlotState::Tombstone,
                };
                proof {
                    lemma_bury(t, j as int, key);
                    lemma_count_bound(t, t.len() as int);
                    lemma_count_update(t, SlotState::Occupied, j as int, buried, t.len() as int);
                    lemma_count_update(t, SlotState::Tombstone, j as int, buried, t.len() as int);
                    lemma_count_bound(t.update(j as int, buried), t.len() as int);
                }
                self.table[j] = buried;
                self.len = self.len - 1;
                self.tombstones = self.tombstones + 1;
                Some(entry.meta)
            },
            _ => {
                assert(self@ =~= self@.remove(key));
                None
            },
        }
    }
}

/// A search starts in the table, looks at every slot once and ends where it began.
pub proof fn law_search_reaches_all(key: usize, cap: int, start: int, step: int, slot: int)
    requires
        0 < cap,
        0 <= start < cap,
        0 <= step < cap,
        0 <= slot < cap,
    ensures
        0 <= home(key, cap) < cap,
        0 <= probe(start, step, cap) < cap,
        probe(start, 0, cap) == start,
        distance(start, probe(start, step, cap), cap) == step,
        0 <= distance(start, slot, cap) < cap,
        probe(start, distance(start, slot, cap), cap) == slot,
        step + 1 < cap ==> probe(start, step + 1, cap) == (if probe(start, step, cap) + 1 == cap {
            0
        } else {
            probe(start, step, cap) + 1
        }),
{
    vstd::arithmetic::div_mod::lemma_mod_bound(hash::spec_mix(key as u64) as int, cap);
}

} // verus!
