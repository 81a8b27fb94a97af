//! Radix tree that tells which pages belong to the allocator.

use vstd::prelude::*;

verus! {

/// Bytes that share one bit of the tree.
pub const CHUNK_SIZE: usize = 4096;

pub const L0_SIZE: usize = 256;

pub const L1_SIZE: usize = 4096;

pub const L2_SIZE: usize = 4096;

pub const L3_SIZE: usize = 4096;

pub const L3_BITMAP_WORDS: usize = 64;

/// Addresses below this one can be registered.
pub const MAX_ADDR: u64 = 0x100_0000_0000_0000;

/// Pages below that address.
pub const RADIX_MAX_CHUNKS: u64 = 0x1000_0000_0000;

proof fn lemma_bit(w: u64, k: u64, j: u64)
    by (bit_vector)
    requires
        k < 64,
        j < 64,
    ensures
        ((w | (1u64 << k)) >> j) & 1u64 == 1u64 <==> j == k || (w >> j) & 1u64 == 1u64,
        ((w & !(1u64 << k)) >> j) & 1u64 == 1u64 <==> j != k && (w >> j) & 1u64 == 1u64,
        w & (1u64 << k) != 0 <==> (w >> k) & 1u64 == 1u64,
        (0u64 >> j) & 1u64 == 0u64,
{
}

/// Bits of 4096 consecutive pages.
struct Leaf {
    words: Vec<u64>,
}

impl Leaf {
    spec fn wf(&self) -> bool {
        self.words@.len() == L3_BITMAP_WORDS
    }

    spec fn has(&self, i: int) -> bool {
        (self.words@[i / 64] >> ((i % 64) as u64)) & 1u64 == 1u64
    }

    fn new() -> (r: Self)
        ensures
            r.wf(),
            forall|i: int| 0 <= i < L3_SIZE ==> !#[trigger] r.has(i),
    {
        let mut words: Vec<u64> = Vec::new();
        while words.len() < L3_BITMAP_WORDS
            invariant
                words@.len() <= L3_BITMAP_WORDS,
                forall|w: int| 0 <= w < words@.len() ==> words@[w] == 0,
            decreases L3_BITMAP_WORDS - words@.len(),
        {
            words.push(0);
        }
        let r = Leaf { words };
        assert forall|i: int| 0 <= i < L3_SIZE implies !#[trigger] r.has(i) by {
            lemma_bit(0, 0, (i % 64) as u64);
            assert(r.words@[i / 64] == 0);
        }
        r
    }

    fn set(&mut self, i: usize, val: bool)
        requires
            old(self).wf(),
            i < L3_SIZE,
        ensures
            final(self).wf(),
            forall|j: int| 0 <= j < L3_SIZE ==> #[trigger]
                final(self).has(j) == if j == i {
                    val
                } else {
                    old(self).has(j)
                },
    {
        let word: usize = i / 64;
        let bit: u64 = (i % 64) as u64;
        let w: u64 = self.words[word];
        let one: u64 = 1u64 << bit;
        if val {
            self.words[word] = w | one;
        } else {
            self.words[word] = w & !one;
        }
        assert forall|j: int| 0 <= j < L3_SIZE implies #[trigger] self.has(j) == if j == i {
            val
        } else {
            old(self).has(j)
        } by {
            lemma_bit(w, bit, (j % 64) as u64);
        }
    }

    fn get(&self, i: usize) -> (r: bool)
        requires
            self.wf(),
            i < L3_SIZE,
        ensures
            r == self.has(i as int),
    {
        let bit: u64 = (i % 64) as u64;
        let w: u64 = self.words[i / 64];
        proof {
            lemma_bit(w, bit, bit);
        }
        w & (1u64 << bit) != 0
    }
}

/// Leaves that exist only once one of their bits was written.
struct Level2 {
    leaves: Vec<Option<Leaf>>,
}

impl Level2 {
    spec fn wf(&self) -> bool {
        &&& self.leaves@.len() == L2_SIZE
        &&& forall|c: int| 0 <= c < L2_SIZE ==> match #[trigger] self.leaves@[c] {
            Some(leaf) => leaf.wf(),
            None => true,
        }
    }

    spec fn has(&self, c: int, d: int) -> bool {
        match self.leaves@[c] {
            Some(leaf) => leaf.has(d),
            None => false,
        }
    }

    fn new() -> (r: Self)
        ensures
            r.wf(),
            forall|c: int, d: int| 0 <= c < L2_SIZE ==> !#[trigger] r.has(c, d),
    {
        let mut leaves: Vec<Option<Leaf>> = Vec::new();
        while leaves.len() < L2_SIZE
            invariant
                leaves@.len() <= L2_SIZE,
                forall|c: int| 0 <= c < leaves@.len() ==> leaves@[c] is None,
            decreases L2_SIZE - leaves@.len(),
        {
            leaves.push(None);
        }
        Level2 { leaves }
    }

    fn set(&mut self, c: usize, d: usize, val: bool)
        requires
            old(self).wf(),
            c < L2_SIZE,
            d < L3_SIZE,
        ensures
            final(self).wf(),
            forall|x: int, y: int| 0 <= x < L2_SIZE && 0 <= y < L3_SIZE ==> #[trigger]
                final(self).has(x, y) == if x == c && y == d {
                    val
                } else {
                    old(self).has(x, y)
                },
    {
        let ghost before = *self;
        assert(before.leaves@[c as int] matches Some(leaf) ==> leaf.wf());
        let mut leaf = match self.leaves[c].take() {
            Some(leaf) => leaf,
            None => Leaf::new(),
        };
        let ghost first = leaf;
        leaf.set(d, val);
        self.leaves[c] = Some(leaf);
        assert forall|x: int, y: int| 0 <= x < L2_SIZE && 0 <= y < L3_SIZE implies #[trigger] self.has(
            x,
            y,
        ) == if x == c && y == d {
            val
        } else {
            before.has(x, y)
        } by {
            if x == c {
                assert(first.has(y) == before.has(x, y));
            } else {
                assert(self.leaves@[x] == before.leaves@[x]);
            }
        }
        assert forall|x: int| 0 <= x < L2_SIZE implies match #[trigger] self.leaves@[x] {
            Some(leaf) => leaf.wf(),
            None => true,
        } by {
            if x != c {
                assert(self.leaves@[x] == before.leaves@[x]);
            }
        }
    }

    fn get(&self, c: usize, d: usize) -> (r: bool)
        requires
            self.wf(),
            c < L2_SIZE,
            d < L3_SIZE,
        ensures
            r == self.has(c as int, d as int),
    {
        match &self.leaves[c] {
            Some(leaf) => leaf.get(d),
            None => false,
        }
    }
}

struct Level1 {
    nodes: Vec<Option<Level2>>,
}

impl Level1 {
    spec fn wf(&self) -> bool {
        &&& self.nodes@.len() == L1_SIZE
        &&& forall|b: int| 0 <= b < L1_SIZE ==> match #[trigger] self.nodes@[b] {
            Some(node) => node.wf(),
            None => true,
        }
    }

    spec fn has(&self, b: int, c: int, d: int) -> bool {
        match self.nodes@[b] {
            Some(node) => node.has(c, d),
            None => false,
        }
    }

    fn new() -> (r: Self)
        ensures
            r.wf(),
            forall|b: int, c: int, d: int| 0 <= b < L1_SIZE ==> !#[trigger] r.has(b, c, d),
    {
        let mut nodes: Vec<Option<Level2>> = Vec::new();
        while nodes.len() < L1_SIZE
            invariant
                nodes@.len() <= L1_SIZE,
                forall|b: int| 0 <= b < nodes@.len() ==> nodes@[b] is None,
            decreases L1_SIZE - nodes@.len(),
        {
            nodes.push(None);
        }
        Level1 { nodes }
    }

    fn set(&mut self, b: usize, c: usize, d: usize, val: bool)
        requires
            old(self).wf(),
            b < L1_SIZE,
            c < L2_SIZE,
            d < L3_SIZE,
        ensures
            final(self).wf(),
            forall|w: int, x: int, y: int|
                0 <= w < L1_SIZE && 0 <= x < L2_SIZE && 0 <= y < L3_SIZE ==> #[trigger]
                final(self).has(w, x, y) == if w == b && x == c && y == d {
                    val
                } else {
                    old(self).has(w, x, y)
                },
    {
        let ghost before = *self;
        assert(before.nodes@[b as int] matches Some(node) ==> node.wf());
        let mut node = match self.nodes[b].take() {
            Some(node) => node,
            None => Level2::new(),
        };
        let ghost first = node;
        node.set(c, d, val);
        self.nodes[b] = Some(node);
        assert forall|w: int, x: int, y: int|
            0 <= w < L1_SIZE && 0 <= x < L2_SIZE && 0 <= y < L3_SIZE implies #[trigger] self.has(
            w,
            x,
            y,
        ) == if w == b && x == c && y == d {
            val
        } else {
            before.has(w, x, y)
        } by {
            if w == b {
                assert(first.has(x, y) == before.has(w, x, y));
                assert(node.has(x, y) == self.has(w, x, y));
            } else {
                assert(self.nodes@[w] == before.nodes@[w]);
            }
        }
        assert forall|w: int| 0 <= w < L1_SIZE implies match #[trigger] self.nodes@[w] {
            Some(node) => node.wf(),
            None => true,
        } by {
            if w != b {
                assert(self.nodes@[w] == before.nodes@[w]);
            }
        }
    }

    fn get(&self, b: usize, c: usize, d: usize) -> (r: bool)
        requires
            self.wf(),
            b < L1_SIZE,
            c < L2_SIZE,
            d < L3_SIZE,
        ensures
            r == self.has(b as int, c as int, d as int),
    {
        match &self.nodes[b] {
            Some(node) => node.get(c, d),
            None => false,
        }
    }
}

/// Four levels of tables over the pages of the address space.
pub struct Radix {
    l0: Vec<Option<Level1>>,
}

impl Radix {
    /// The tables exist.
    pub closed spec fn ready(&self) -> bool {
        self.l0@.len() == L0_SIZE
    }

    pub closed spec fn wf(&self) -> bool {
        &&& self.l0@.len() == 0 || self.l0@.len() == L0_SIZE
        &&& forall|a: int| 0 <= a < self.l0@.len() ==> match #[trigger] self.l0@[a] {
            Some(node) => node.wf(),
            None => true,
        }
    }

    /// The bit of a page is set.
    pub closed spec fn owns(&self, chunk: int) -> bool {
        &&& self.ready()
        &&& 0 <= chunk < RADIX_MAX_CHUNKS
        &&& match self.l0@[chunk / 0x10_0000_0000] {
            Some(node) => node.has(
                (chunk / 0x100_0000) % 4096,
                (chunk / 4096) % 4096,
                chunk % 4096,
            ),
            None => false,
        }
    }

    /// Tables in which no page is set.
    pub fn new() -> (r: Self)
        ensures
            r.wf(),
            r.ready(),
            forall|chunk: int| !#[trigger] r.owns(chunk),
    {
        let mut l0: Vec<Option<Level1>> = Vec::new();
        while l0.len() < L0_SIZE
            invariant
                l0@.len() <= L0_SIZE,
                forall|a: int| 0 <= a < l0@.len() ==> l0@[a] is None,
            decreases L0_SIZE - l0@.len(),
        {
            l0.push(None);
        }
        Radix { l0 }
    }

    /// Splits the number of a page into an index for each level.
    pub fn split(idx: u64) -> (r: (usize, usize, usize, usize))
        ensures
            r.0 == (idx / 0x10_0000_0000) % 256,
            r.1 == (idx / 0x100_0000) % 4096,
            r.2 == (idx / 4096) % 4096,
            r.3 == idx % 4096,
    {
        (
            ((idx / 0x10_0000_0000) % 256) as usize,
            ((idx / 0x100_0000) % 4096) as usize,
            ((idx / 4096) % 4096) as usize,
            (idx % 4096) as usize,
        )
    }

    /// Sets or clears the bit of a page; pages beyond the tables are ignored.
    pub fn set(&mut self, chunk_idx: u64, val: bool)
        requires
            old(self).wf(),
            old(self).ready(),
        ensures
            final(self).wf(),
            final(self).ready(),
            forall|chunk: int| #[trigger]
                final(self).owns(chunk) == if chunk == chunk_idx && chunk < RADIX_MAX_CHUNKS {
                    val
                } else {
                    old(self).owns(chunk)
                },
    {
        if chunk_idx >= RADIX_MAX_CHUNKS {
            return;
        }
        let ghost before = *self;
        let (a, b, c, d) = Self::split(chunk_idx);
        assert(before.l0@[a as int] matches Some(node) ==> node.wf());
        let mut node = match self.l0[a].take() {
            Some(node) => node,
            None => Level1::new(),
        };
        let ghost first = node;
        node.set(b, c, d, val);
        self.l0[a] = Some(node);
        assert forall|chunk: int| #[trigger] self.owns(chunk) == if chunk == chunk_idx && chunk
            < RADIX_MAX_CHUNKS {
            val
        } else {
            before.owns(chunk)
        } by {
            if 0 <= chunk < RADIX_MAX_CHUNKS {
                let w = (chunk / 0x100_0000) % 4096;
                let x = (chunk / 4096) % 4096;
                let y = chunk % 4096;
                lemma_split(chunk);
                lemma_split(chunk_idx as int);
                if chunk / 0x10_0000_0000 == a {
                    assert(node.has(w, x, y) == self.owns(chunk));
                    assert(first.has(w, x, y) == before.owns(chunk));
                } else {
                    assert(self.l0@[chunk / 0x10_0000_0000] == before.l0@[chunk
                        / 0x10_0000_0000]);
                }
            }
        }
        assert forall|w: int| 0 <= w < L0_SIZE implies match #[trigger] self.l0@[w] {
            Some(node) => node.wf(),
            None => true,
        } by {
            if w != a {
                assert(self.l0@[w] == before.l0@[w]);
            }
        }
    }

    /// Whether the bit of a page is set.
    pub fn get(&self, chunk_idx: u64) -> (r: bool)
        requires
            self.wf(),
            self.ready(),
        ensures
            r == self.owns(chunk_idx as int),
    {
        if chunk_idx >= RADIX_MAX_CHUNKS {
            return false;
        }
        let (a, b, c, d) = Self::split(chunk_idx);
        match &self.l0[a] {
            Some(node) => node.get(b, c, d),
            None => false,
        }
    }
}

/// The number of a page follows from its indices.
proof fn lemma_split(chunk: int)
    requires
        0 <= chunk < RADIX_MAX_CHUNKS,
    ensures
        chunk / 0x10_0000_0000 < 256,
        chunk == (chunk / 0x10_0000_0000) * 0x10_0000_0000 + ((chunk / 0x100_0000) % 4096)
            * 0x100_0000 + ((chunk / 4096) % 4096) * 4096 + chunk % 4096,
{
}

/// Addresses below the limit can be registered.
pub open spec fn spec_valid_user_addr(addr: int) -> bool {
    0 <= addr < MAX_ADDR
}

/// The page of an address.
pub open spec fn page_of(addr: int) -> int {
    addr / (CHUNK_SIZE as int)
}

/// Every byte of the range can be registered.
pub open spec fn valid_range(addr: int, size: int) -> bool {
    &&& size > 0
    &&& spec_valid_user_addr(addr)
    &&& addr + size - 1 <= usize::MAX
    &&& spec_valid_user_addr(addr + size - 1)
}

/// Which pages belong to the allocator.
pub struct RadixTree {
    nodes: Radix,
}

impl RadixTree {
    pub closed spec fn wf(&self) -> bool {
        self.nodes.wf()
    }

    /// The tables exist.
    pub closed spec fn ready(&self) -> bool {
        self.nodes.ready()
    }

    /// The page belongs to the allocator.
    pub closed spec fn owns(&self, chunk: int) -> bool {
        self.nodes.owns(chunk)
    }

    /// A tree without tables, which owns nothing.
    pub fn new_const() -> (r: Self)
        ensures
            r.wf(),
            !r.ready(),
            forall|chunk: int| !#[trigger] r.owns(chunk),
    {
        RadixTree { nodes: Radix { l0: Vec::new() } }
    }

    /// A tree with tables in which nothing is owned.
    pub fn new() -> (r: Self)
        ensures
            r.wf(),
            r.ready(),
            forall|chunk: int| !#[trigger] r.owns(chunk),
    {
        RadixTree { nodes: Radix::new() }
    }

    fn valid_user_addr(addr: usize) -> (r: bool)
        ensures
            r == spec_valid_user_addr(addr as int),
    {
        (addr as u64) < MAX_ADDR
    }

    /// Registers or drops the page of an address; addresses beyond the limit are ignored.
    pub fn set_single_big(&mut self, addr: usize, val: bool)
        requires
            old(self).wf(),
            old(self).ready(),
        ensures
            final(self).wf(),
            final(self).ready(),
            forall|chunk: int| #[trigger]
                final(self).owns(chunk) == if spec_valid_user_addr(addr as int) && chunk
                    == page_of(addr as int) {
                    val
                } else {
                    old(self).owns(chunk)
                },
    {
        if !Self::valid_user_addr(addr) {
            return;
        }
        self.nodes.set((addr / CHUNK_SIZE) as u64, val);
    }

    /// Registers or drops every page that the range touches. A range that is empty, wraps around or
    /// reaches beyond the limit is ignored as a whole.
    pub fn set_range(&mut self, addr: usize, size: usize, val: bool)
        requires
            old(self).wf(),
            old(self).ready(),
        ensures
            final(self).wf(),
            final(self).ready(),
            forall|chunk: int| #[trigger]
                final(self).owns(chunk) == if valid_range(addr as int, size as int) && page_of(
                    addr as int,
                ) <= chunk <= page_of(addr + size - 1) {
                    val
                } else {
                    old(self).owns(chunk)
                },
    {
        if size == 0 || !Self::valid_user_addr(addr) {
            return;
        }
        let end_addr: usize = match addr.checked_add(size - 1) {
            Some(end) => end,
            None => {
                return;
            },
        };
        if !Self::valid_user_addr(end_addr) {
            return;
        }
        let start_idx: u64 = (addr / CHUNK_SIZE) as u64;
        let end_idx: u64 = (end_addr / CHUNK_SIZE) as u64;
        let mut i: u64 = start_idx;
        while i <= end_idx
            invariant
                self.wf(),
                self.ready(),
                start_idx <= i <= end_idx + 1,
                end_idx < RADIX_MAX_CHUNKS,
                forall|chunk: int| #[trigger]
                    self.owns(chunk) == if start_idx <= chunk < i {
                        val
                    } else {
                        old(self).owns(chunk)
                    },
            decreases end_idx + 1 - i,
        {
            let ghost before = *self;
            self.nodes.set(i, val);
            assert forall|chunk: int| #[trigger] self.owns(chunk) == if start_idx <= chunk < i + 1 {
                val
            } else {
                old(self).owns(chunk)
            } by {
                assert(before.owns(chunk) == if start_idx <= chunk < i {
                    val
                } else {
                    old(self).owns(chunk)
                });
            }
            i = i + 1;
        }
    }

    /// Whether the page of an address belongs to the allocator.
    pub fn is_owned(&self, addr: usize) -> (r: bool)
        requires
            self.wf(),
        ensures
            r == (spec_valid_user_addr(addr as int) && self.owns(page_of(addr as int))),
    {
        if self.nodes.l0.len() == 0 || !Self::valid_user_addr(addr) {
            return false;
        }
        self.nodes.get((addr / CHUNK_SIZE) as u64)
    }
}

/// What was registered is owned, and is no longer once it is dropped; nothing outside the range
/// changes hands.
pub proof fn law_range_registration(
    before: RadixTree,
    during: RadixTree,
    after: RadixTree,
    addr: usize,
    size: usize,
    at: usize,
)
    requires
        valid_range(addr as int, size as int),
        forall|chunk: int| #[trigger]
            during.owns(chunk) == if valid_range(addr as int, size as int) && page_of(addr as int)
                <= chunk <= page_of(addr + size - 1) {
                true
            } else {
                before.owns(chunk)
            },
        forall|chunk: int| #[trigger]
            after.owns(chunk) == if valid_range(addr as int, size as int) && page_of(addr as int)
                <= chunk <= page_of(addr + size - 1) {
                false
            } else {
                during.owns(chunk)
            },
    ensures
        addr <= at < addr + size ==> during.owns(page_of(at as int)) && !after.owns(
            page_of(at as int),
        ),
        page_of(at as int) < page_of(addr as int) || page_of(addr + size - 1) < page_of(at as int)
            ==> after.owns(page_of(at as int)) == before.owns(page_of(at as int)),
{
}

/// A page is a run of `CHUNK_SIZE` addresses: each address lies in exactly one, and neighbours in the
/// same or the next one.
pub proof fn law_pages_part_the_addresses(addr: int, page: int)
    requires
        0 <= addr,
    ensures
        page_of(addr) == page <==> page * CHUNK_SIZE <= addr < (page + 1) * CHUNK_SIZE,
        page_of(addr + CHUNK_SIZE) == page_of(addr) + 1,
{
}

/// A range can be registered exactly where all its addresses can and there are any.
pub proof fn law_valid_ranges(addr: int, size: int)
    ensures
        valid_range(addr, size) <==> size > 0 && addr + size - 1 <= usize::MAX && forall|a: int|
            addr <= a < addr + size ==> #[trigger] spec_valid_user_addr(a),
        forall|a: int| #[trigger] spec_valid_user_addr(a) <==> 0 <= a < MAX_ADDR,
{
    if size > 0 && addr + size - 1 <= usize::MAX && (forall|a: int|
        addr <= a < addr + size ==> #[trigger] spec_valid_user_addr(a)) {
        assert(spec_valid_user_addr(addr));
        assert(spec_valid_user_addr(addr + size - 1));
    }
}

} // verus!
