//! Sharded map from payload addresses to their metadata.

use crate::internals::hash;
use crate::internals::lock::SpinLock;
use crate::BigAllocMeta;
use vstd::prelude::*;

verus! {

pub const SHARD_COUNT: usize = 64;

pub const BUCKETS_PER_SHARD: usize = 64;

#[derive(Clone, Copy)]
struct Node {
    key: usize,
    meta: BigAllocMeta,
}

/// Entries of one shard behind its lock. Each bucket is a chain whose head is its last element.
struct Shard {
    lock: SpinLock<()>,
    buckets: Vec<Vec<Node>>,
}

/// No key stands twice in a chain.
spec fn distinct(chain: Seq<Node>) -> bool {
    forall|i: int, j: int|
        0 <= i < chain.len() && 0 <= j < chain.len() && (#[trigger] chain[i]).key == (
        #[trigger] chain[j]).key ==> i == j
}

/// What a chain maps.
spec fn chain_map(chain: Seq<Node>) -> Map<usize, BigAllocMeta> {
    Map::new(
        |key: usize| exists|i: int| 0 <= i < chain.len() && (#[trigger] chain[i]).key == key,
        |key: usize|
            chain[choose|i: int| 0 <= i < chain.len() && (#[trigger] chain[i]).key == key].meta,
    )
}

proof fn lemma_chain_at(chain: Seq<Node>, i: int)
    requires
        distinct(chain),
        0 <= i < chain.len(),
    ensures
        chain_map(chain).dom().contains(chain[i].key),
        chain_map(chain)[chain[i].key] == chain[i].meta,
{
    let key = chain[i].key;
    let j = choose|j: int| 0 <= j < chain.len() && (#[trigger] chain[j]).key == key;
    assert(chain[j].key == chain[i].key);
}

proof fn lemma_chain_push(chain: Seq<Node>, n: Node)
    requires
        distinct(chain),
        !chain_map(chain).dom().contains(n.key),
    ensures
        distinct(chain.push(n)),
        chain_map(chain.push(n)) == chain_map(chain).insert(n.key, n.meta),
{
    let u = chain.push(n);
    assert forall|i: int, j: int|
        0 <= i < u.len() && 0 <= j < u.len() && (#[trigger] u[i]).key == (
        #[trigger] u[j]).key implies i == j by {
        if i < chain.len() {
            assert(u[i] == chain[i]);
        }
        if j < chain.len() {
            assert(u[j] == chain[j]);
        }
    }
    lemma_chain_at(u, chain.len() as int);
    assert forall|k: usize| #[trigger] chain_map(u).dom().contains(k) <==> chain_map(chain).insert(
        n.key,
        n.meta,
    ).dom().contains(k) by {
        if chain_map(chain).dom().contains(k) {
            let i = choose|i: int| 0 <= i < chain.len() && (#[trigger] chain[i]).key == k;
            assert(u[i].key == k);
        }
        if chain_map(u).dom().contains(k) && k != n.key {
            let i = choose|i: int| 0 <= i < u.len() && (#[trigger] u[i]).key == k;
            assert(chain[i].key == k);
        }
    }
    assert forall|k: usize| #[trigger] chain_map(u).dom().contains(k) implies chain_map(u)[k]
        == chain_map(chain).insert(n.key, n.meta)[k] by {
        if k != n.key {
            let i = choose|i: int| 0 <= i < u.len() && (#[trigger] u[i]).key == k;
            lemma_chain_at(u, i);
            lemma_chain_at(chain, i);
        }
    }
    assert(chain_map(u) =~= chain_map(chain).insert(n.key, n.meta));
}

proof fn lemma_chain_update(chain: Seq<Node>, at: int, meta: BigAllocMeta)
    requires
        distinct(chain),
        0 <= at < chain.len(),
    ensures
        distinct(chain.update(at, (Node { meta, ..chain[at] }))),
        chain_map(chain.update(at, (Node { meta, ..chain[at] }))) == chain_map(chain).insert(
            chain[at].key,
            meta,
        ),
{
    let key = chain[at].key;
    let u = chain.update(at, Node { meta, ..chain[at] });
    assert forall|i: int| 0 <= i < u.len() implies (#[trigger] u[i]).key == chain[i].key by {}
    assert forall|i: int, j: int|
        0 <= i < u.len() && 0 <= j < u.len() && (#[trigger] u[i]).key == (
        #[trigger] u[j]).key implies i == j by {
        assert(chain[i].key == chain[j].key);
    }
    lemma_chain_at(u, at);
    lemma_chain_at(chain, at);
    assert forall|k: usize| #[trigger] chain_map(u).dom().contains(k) <==> chain_map(chain).insert(
        key,
        meta,
    ).dom().contains(k) by {
        if chain_map(chain).dom().contains(k) {
            let i = choose|i: int| 0 <= i < chain.len() && (#[trigger] chain[i]).key == k;
            assert(u[i].key == k);
        }
        if chain_map(u).dom().contains(k) {
            let i = choose|i: int| 0 <= i < u.len() && (#[trigger] u[i]).key == k;
            assert(chain[i].key == k);
        }
    }
    assert forall|k: usize| #[trigger] chain_map(u).dom().contains(k) implies chain_map(u)[k]
        == chain_map(chain).insert(key, meta)[k] by {
        if k != key {
            let i = choose|i: int| 0 <= i < u.len() && (#[trigger] u[i]).key == k;
            lemma_chain_at(u, i);
            lemma_chain_at(chain, i);
        }
    }
    assert(chain_map(u) =~= chain_map(chain).insert(key, meta));
}

proof fn lemma_chain_remove(chain: Seq<Node>, at: int)
    requires
        distinct(chain),
        0 <= at < chain.len(),
    ensures
        distinct(chain.remove(at)),
        chain_map(chain.remove(at)) == chain_map(chain).remove(chain[at].key),
{
    let key = chain[at].key;
    let u = chain.remove(at);
    assert forall|i: int, j: int|
        0 <= i < u.len() && 0 <= j < u.len() && (#[trigger] u[i]).key == (
        #[trigger] u[j]).key implies i == j by {
        let a = if i < at {
            i
        } else {
            i + 1
        };
        let b = if j < at {
            j
        } else {
            j + 1
        };
        assert(u[i] == chain[a] && u[j] == chain[b]);
    }
    assert forall|k: usize| #[trigger] chain_map(u).dom().contains(k) <==> chain_map(chain).remove(
        key,
    ).dom().contains(k) by {
        if chain_map(chain).dom().contains(k) && k != key {
            let i = choose|i: int| 0 <= i < chain.len() && (#[trigger] chain[i]).key == k;
            let a = if i < at {
                i
            } else {
                i - 1
            };
            assert(u[a] == chain[i]);
        }
        if chain_map(u).dom().contains(k) {
            let i = choose|i: int| 0 <= i < u.len() && (#[trigger] u[i]).key == k;
            let a = if i < at {
                i
            } else {
                i + 1
            };
            assert(u[i] == chain[a]);
            if k == key {
                assert(chain[a].key == chain[at].key);
            }
        }
    }
    assert forall|k: usize| #[trigger] chain_map(u).dom().contains(k) implies chain_map(u)[k]
        == chain_map(chain).remove(key)[k] by {
        let i = choose|i: int| 0 <= i < u.len() && (#[trigger] u[i]).key == k;
        let a = if i < at {
            i
        } else {
            i + 1
        };
        assert(u[i] == chain[a]);
        lemma_chain_at(u, i);
        lemma_chain_at(chain, a);
    }
    assert(chain_map(u) =~= chain_map(chain).remove(key));
}

/// Walks a chain from its head and finds the entry of `key`.
fn find(chain: &Vec<Node>, key: usize) -> (r: Option<usize>)
    ensures
        r matches Some(i) ==> i < chain@.len() && chain@[i as int].key == key,
        r is Some <==> chain_map(chain@).dom().contains(key),
{
    let mut i: usize = chain.len();
    while i > 0
        invariant
            i <= chain@.len(),
            forall|j: int| i <= j < chain@.len() ==> (#[trigger] chain@[j]).key != key,
        decreases i,
    {
        i = i - 1;
        if chain[i].key == key {
            return Some(i);
        }
    }
    None
}

/// Shard and bucket of a key.
pub open spec fn spec_location(key: usize) -> (usize, usize) {
    let h = hash::spec_mix((key >> 4usize) as u64);
    ((h & 63u64) as usize, ((h >> 6u64) & 63u64) as usize)
}

proof fn lemma_low_bits(h: u64)
    by (bit_vector)
    ensures
        h & 63u64 < 64,
        (h >> 6u64) & 63u64 < 64,
{
}

/// Map from payload addresses to metadata, split into independently locked shards.
pub struct BigMetaMap {
    shards: Vec<Shard>,
}

impl View for BigMetaMap {
    type V = Map<usize, BigAllocMeta>;

    closed spec fn view(&self) -> Map<usize, BigAllocMeta> {
        Map::new(
            |key: usize| chain_map(self.chain_of(key)).dom().contains(key),
            |key: usize| chain_map(self.chain_of(key))[key],
        )
    }
}

impl BigMetaMap {
    spec fn chain(&self, s: int, b: int) -> Seq<Node> {
        self.shards@[s].buckets@[b]@
    }

    spec fn chain_of(&self, key: usize) -> Seq<Node> {
        self.chain(spec_location(key).0 as int, spec_location(key).1 as int)
    }

    /// All shards and buckets exist and no chain holds a key twice.
    pub closed spec fn wf(&self) -> bool {
        &&& self.shards@.len() == SHARD_COUNT
        &&& forall|s: int|
            0 <= s < SHARD_COUNT ==> (#[trigger] self.shards@[s]).buckets@.len()
                == BUCKETS_PER_SHARD
        &&& forall|s: int, b: int|
            0 <= s < SHARD_COUNT && 0 <= b < BUCKETS_PER_SHARD ==> distinct(
                #[trigger] self.chain(s, b),
            )
    }

    /// Whether the lock of a shard is held.
    pub closed spec fn shard_locked(&self, s: int) -> bool {
        self.shards@[s].lock.locked()
    }

    /// No shard is locked.
    pub open spec fn unlocked(&self) -> bool {
        forall|s: int| 0 <= s < SHARD_COUNT ==> !#[trigger] self.shard_locked(s)
    }

    pub fn new() -> (r: Self)
        ensures
            r.wf(),
            r.unlocked(),
            r@ == Map::<usize, BigAllocMeta>::empty(),
    {
        let mut shards: Vec<Shard> = Vec::new();
        while shards.len() < SHARD_COUNT
            invariant
                shards@.len() <= SHARD_COUNT,
                forall|s: int|
                    0 <= s < shards@.len() ==> (#[trigger] shards@[s]).buckets@.len()
                        == BUCKETS_PER_SHARD && !shards@[s].lock.locked(),
                forall|s: int, b: int|
                    0 <= s < shards@.len() && 0 <= b < BUCKETS_PER_SHARD ==> (
                    #[trigger] shards@[s].buckets@[b])@.len() == 0,
            decreases SHARD_COUNT - shards@.len(),
        {
            let mut buckets: Vec<Vec<Node>> = Vec::new();
            while buckets.len() < BUCKETS_PER_SHARD
                invariant
                    buckets@.len() <= BUCKETS_PER_SHARD,
                    forall|b: int| 0 <= b < buckets@.len() ==> (#[trigger] buckets@[b])@.len() == 0,
                decreases BUCKETS_PER_SHARD - buckets@.len(),
            {
                buckets.push(Vec::new());
            }
            shards.push(Shard { lock: SpinLock::new(()), buckets });
        }
        let r = BigMetaMap { shards };
        proof {
            assert forall|s: int, b: int|
                0 <= s < SHARD_COUNT && 0 <= b < BUCKETS_PER_SHARD implies distinct(
                #[trigger] r.chain(s, b),
            ) by {
                assert(r.shards@[s].buckets@[b]@.len() == 0);
            }
            assert forall|key: usize| !#[trigger] r@.dom().contains(key) by {
                lemma_low_bits(hash::spec_mix((key >> 4usize) as u64));
                let (s, b) = spec_location(key);
                assert(r.shards@[s as int].buckets@[b as int]@.len() == 0);
            }
            assert(r@ =~= Map::<usize, BigAllocMeta>::empty());
        }
        r
    }

    /// Shard and bucket of a key.
    pub fn location(key: usize) -> (r: (usize, usize))
        ensures
            r == spec_location(key),
            r.0 < SHARD_COUNT,
            r.1 < BUCKETS_PER_SHARD,
    {
        let h: u64 = hash::mix((key >> 4usize) as u64);
        proof {
            lemma_low_bits(h);
        }
        ((h & 63u64) as usize, ((h >> 6u64) & 63u64) as usize)
    }

    /// A change of the chain of `key` is a change of the map.
    proof fn lemma_changed(before: &Self, after: &Self, key: usize)
        requires
            before.wf(),
            after.shards@.len() == SHARD_COUNT,
            forall|s: int|
                0 <= s < SHARD_COUNT ==> (#[trigger] after.shards@[s]).buckets@.len()
                    == BUCKETS_PER_SHARD && after.shards@[s].lock.locked()
                    == before.shards@[s].lock.locked(),
            forall|s: int, b: int|
                0 <= s < SHARD_COUNT && 0 <= b < BUCKETS_PER_SHARD && (s, b) != (
                    spec_location(key).0 as int,
                    spec_location(key).1 as int,
                ) ==> #[trigger] after.chain(s, b) == before.chain(s, b),
            distinct(after.chain_of(key)),
            chain_map(after.chain_of(key)).remove(key) == chain_map(before.chain_of(key)).remove(
                key,
            ),
        ensures
            after.wf(),
            after@.remove(key) == before@.remove(key),
            after@.dom().contains(key) <==> chain_map(after.chain_of(key)).dom().contains(key),
            after@.dom().contains(key) ==> after@[key] == chain_map(after.chain_of(key))[key],
            forall|s: int| #[trigger]
                after.shard_locked(s) == before.shard_locked(s) || !(0 <= s < SHARD_COUNT),
    {
        assert forall|k: usize| k != key implies (#[trigger] after@.dom().contains(k)
            <==> before@.dom().contains(k)) && (after@.dom().contains(k) ==> after@[k]
            == before@[k]) by {
            lemma_low_bits(hash::spec_mix((k >> 4usize) as u64));
            let (s, b) = spec_location(k);
            if (s as int, b as int) == (
                spec_location(key).0 as int,
                spec_location(key).1 as int,
            ) {
                let a = chain_map(after.chain_of(key)).remove(key);
                let c = chain_map(before.chain_of(key)).remove(key);
                assert(a.dom().contains(k) <==> c.dom().contains(k));
                assert(a.dom().contains(k) ==> a[k] == c[k]);
            } else {
                assert(after.chain(s as int, b as int) == before.chain(s as int, b as int));
            }
        }
        assert(after@.remove(key) =~= before@.remove(key));
        assert forall|s: int, b: int|
            0 <= s < SHARD_COUNT && 0 <= b < BUCKETS_PER_SHARD implies distinct(
            #[trigger] after.chain(s, b),
        ) by {
            assert(distinct(before.chain(s, b)));
        }
    }

    /// Maps `key` to `meta`, whether or not it was mapped before.
    pub fn insert(&mut self, key: usize, meta: BigAllocMeta)
        requires
            old(self).wf(),
            !old(self).shard_locked(spec_location(key).0 as int),
        ensures
            final(self).wf(),
            final(self)@ == old(self)@.insert(key, meta),
            old(self).same_locks(final(self)),
    {
        let ghost before = *self;
        let (s, b) = Self::location(key);
        let ghost chain = self.chain(s as int, b as int);
        assert(distinct(chain));
        match find(&self.shards[s].buckets[b], key) {
            Some(i) => {
                self.shards[s].buckets[b][i] = Node { key, meta };
                proof {
                    lemma_chain_update(chain, i as int, meta);
                    assert(self.chain_of(key) =~= chain.update(i as int, Node { key, meta }));
                }
            },
            None => {
                self.shards[s].buckets[b].push(Node { key, meta });
                proof {
                    lemma_chain_push(chain, Node { key, meta });
                    assert(self.chain_of(key) =~= chain.push(Node { key, meta }));
                }
            },
        }
        proof {
            assert(chain_map(self.chain_of(key)).remove(key) =~= chain_map(chain).remove(key));
            Self::lemma_changed(&before, self, key);
            lemma_rebuilt(before@, self@, key, meta);
        }
    }

    /// The metadata of `key`.
    pub fn get(&self, key: usize) -> (r: Option<BigAllocMeta>)
        requires
            self.wf(),
            !self.shard_locked(spec_location(key).0 as int),
        ensures
            r == (if self@.dom().contains(key) {
                Some(self@[key])
            } else {
                None
            }),
    {
        let (s, b) = Self::location(key);
        assert(distinct(self.chain(s as int, b as int)));
        match find(&self.shards[s].buckets[b], key) {
            Some(i) => {
                proof {
                    lemma_chain_at(self.chain(s as int, b as int), i as int);
                }
                Some(self.shards[s].buckets[b][i].meta)
            },
            None => None,
        }
    }

    /// Changes the metadata of `key` when it is mapped and gives back what it was.
    pub fn replace(&mut self, key: usize, meta: BigAllocMeta) -> (r: Option<BigAllocMeta>)
        requires
            old(self).wf(),
            !old(self).shard_locked(spec_location(key).0 as int),
        ensures
            final(self).wf(),
            old(self).same_locks(final(self)),
            old(self)@.dom().contains(key) ==> r == Some(old(self)@[key]) && final(self)@ == old(
                self)@.insert(key, meta),
            !old(self)@.dom().contains(key) ==> r is None && final(self)@ == old(self)@,
    {
        let ghost before = *self;
        let (s, b) = Self::location(key);
        let ghost chain = self.chain(s as int, b as int);
        assert(distinct(chain));
        match find(&self.shards[s].buckets[b], key) {
            Some(i) => {
                let found: BigAllocMeta = self.shards[s].buckets[b][i].meta;
                self.shards[s].buckets[b][i] = Node { key, meta };
                proof {
                    lemma_chain_at(chain, i as int);
                    lemma_chain_update(chain, i as int, meta);
                    assert(self.chain_of(key) =~= chain.update(i as int, Node { key, meta }));
                    assert(chain_map(self.chain_of(key)).remove(key) =~= chain_map(chain).remove(
                        key,
                    ));
                    Self::lemma_changed(&before, self, key);
                    lemma_rebuilt(before@, self@, key, meta);
                }
                Some(found)
            },
            None => None,
        }
    }

    /// Unmaps `key` and gives back what it was mapped to.
    pub fn remove(&mut self, key: usize) -> (r: Option<BigAllocMeta>)
        requires
            old(self).wf(),
            !old(self).shard_locked(spec_location(key).0 as int),
        ensures
            final(self).wf(),
            old(self).same_locks(final(self)),
            final(self)@ == old(self)@.remove(key),
            r == (if old(self)@.dom().contains(key) {
                Some(old(self)@[key])
            } else {
                None
            }),
    {
        let ghost before = *self;
        let (s, b) = Self::location(key);
        let ghost chain = self.chain(s as int, b as int);
        assert(distinct(chain));
        match find(&self.shards[s].buckets[b], key) {
            Some(i) => {
                let gone = self.shards[s].buckets[b].remove(i);
                proof {
                    lemma_chain_at(chain, i as int);
                    lemma_chain_remove(chain, i as int);
                    assert(self.chain_of(key) =~= chain.remove(i as int));
                    assert(chain_map(self.chain_of(key)).remove(key) =~= chain_map(chain).remove(
                        key,
                    ));
                    Self::lemma_changed(&before, self, key);
                    assert(self@ =~= self@.remove(key));
                }
                Some(gone.meta)
            },
            None => {
                assert(self@ =~= self@.remove(key));
                None
            },
        }
    }

    /// The same shards are locked.
    pub open spec fn same_locks(&self, after: &Self) -> bool {
        forall|s: int|
            0 <= s < SHARD_COUNT ==> #[trigger] after.shard_locked(s) == self.shard_locked(s)
    }

    /// Takes the locks of all shards and keeps them across a fork.
    pub fn lock_for_fork(&mut self)
        requires
            old(self).wf(),
            old(self).unlocked(),
        ensures
            final(self).wf(),
            final(self)@ == old(self)@,
            forall|s: int| 0 <= s < SHARD_COUNT ==> #[trigger] final(self).shard_locked(s),
    {
        let ghost before = *self;
        let mut s: usize = 0;
        assert forall|i: int| 0 <= i < SHARD_COUNT implies !(
        #[trigger] self.shards@[i]).lock.locked() by {
            assert(!self.shard_locked(i));
        }
        while s < SHARD_COUNT
            invariant
                s <= SHARD_COUNT,
                before.wf(),
                before.unlocked(),
                self.shards@.len() == SHARD_COUNT,
                forall|i: int|
                    0 <= i < SHARD_COUNT ==> (#[trigger] self.shards@[i]).buckets
                        == before.shards@[i].buckets && self.shards@[i].lock.locked() == (i < s),
            decreases SHARD_COUNT - s,
        {
            self.shards[s].lock.lock_for_fork();
            s = s + 1;
        }
        proof {
            Self::lemma_only_locks(&before, self);
        }
    }

    /// Frees the locks of all shards after a fork.
    pub fn reset_lock_on_fork(&mut self)
        requires
            old(self).wf(),
        ensures
            final(self).wf(),
            final(self)@ == old(self)@,
            final(self).unlocked(),
    {
        let ghost before = *self;
        let mut s: usize = 0;
        while s < SHARD_COUNT
            invariant
                s <= SHARD_COUNT,
                before.wf(),
                self.shards@.len() == SHARD_COUNT,
                forall|i: int|
                    0 <= i < SHARD_COUNT ==> (#[trigger] self.shards@[i]).buckets
                        == before.shards@[i].buckets && (self.shards@[i].lock.locked() ==> i >= s),
            decreases SHARD_COUNT - s,
        {
            self.shards[s].lock.reset_at_fork();
            s = s + 1;
        }
        proof {
            Self::lemma_only_locks(&before, self);
        }
    }

    proof fn lemma_only_locks(before: &Self, after: &Self)
        requires
            before.wf(),
            after.shards@.len() == SHARD_COUNT,
            forall|i: int|
                0 <= i < SHARD_COUNT ==> (#[trigger] after.shards@[i]).buckets
                    == before.shards@[i].buckets,
        ensures
            after.wf(),
            after@ == before@,
    {
        assert forall|s: int, b: int|
            0 <= s < SHARD_COUNT && 0 <= b < BUCKETS_PER_SHARD implies #[trigger] after.chain(s, b)
            == before.chain(s, b) by {
            assert(after.shards@[s].buckets == before.shards@[s].buckets);
        }
        assert forall|s: int, b: int|
            0 <= s < SHARD_COUNT && 0 <= b < BUCKETS_PER_SHARD implies distinct(
            #[trigger] after.chain(s, b),
        ) by {
            assert(distinct(before.chain(s, b)));
        }
        assert forall|s: int| 0 <= s < SHARD_COUNT implies (
        #[trigger] after.shards@[s]).buckets@.len() == BUCKETS_PER_SHARD by {
            assert(before.shards@[s].buckets@.len() == BUCKETS_PER_SHARD);
        }
        assert forall|k: usize| #[trigger] after.chain_of(k) == before.chain_of(k) by {
            lemma_low_bits(hash::spec_mix((k >> 4usize) as u64));
        }
        assert(after@ =~= before@);
    }
}

/// Maps that agree but on one key, which one of them maps to `meta`.
proof fn lemma_rebuilt(
    before: Map<usize, BigAllocMeta>,
    after: Map<usize, BigAllocMeta>,
    key: usize,
    meta: BigAllocMeta,
)
    requires
        after.remove(key) == before.remove(key),
        after.dom().contains(key),
        after[key] == meta,
    ensures
        after == before.insert(key, meta),
{
    assert forall|k: usize| k != key implies (#[trigger] after.dom().contains(k)
        <==> before.dom().contains(k)) && (after.dom().contains(k) ==> after[k] == before[k]) by {
        assert(after.remove(key).dom().contains(k) <==> after.dom().contains(k));
        assert(before.remove(key).dom().contains(k) <==> before.dom().contains(k));
        if after.dom().contains(k) {
            assert(after.remove(key)[k] == after[k]);
            assert(before.remove(key)[k] == before[k]);
        }
    }
    assert(after =~= before.insert(key, meta));
}

/// Keys have their place in a shard and a bucket that exist, and the place does not depend on where
/// in its sixteen bytes a key lies.
pub proof fn law_locations(key: usize, other: usize)
    ensures
        spec_location(key).0 < SHARD_COUNT,
        spec_location(key).1 < BUCKETS_PER_SHARD,
        key / 16 == other / 16 ==> spec_location(key) == spec_location(other),
{
    let h = hash::spec_mix((key >> 4usize) as u64);
    lemma_low_bits(h);
    assert(key >> 4usize == key / 16) by (bit_vector);
    assert(other >> 4usize == other / 16) by (bit_vector);
}

} // verus!
