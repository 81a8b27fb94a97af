//! Growing and shrinking allocations without losing what they hold.

use crate::big_allocation;
use crate::big_allocations::big_allocation::estimate_and_align_2mb;
use crate::big_allocations::big_allocation::BigHeap;
use crate::big_allocations::buddy::BuddyAllocator;
use crate::big_allocations::segment;
use crate::big_allocations::segment::BIG_BUDDY_MAX_ORDER;
use crate::big_allocations::segment::BIG_BUDDY_MIN_ORDER;
use crate::big_allocations::segment::SEGMENT_BYTES;
use crate::big_allocations::segment::SLOT_BYTES;
use crate::inner::align;
use crate::inner::align::NATURAL_ALIGNMENT;
use crate::internals::l3_main_radix;
use crate::internals::l3_main_radix::RadixTree;
use crate::utility;
use crate::utility::PAGE_SIZE;
use crate::BigAllocMeta;
use crate::OFFSET_SIZE;
use crate::TAG_SIZE;
use vstd::arithmetic::power2;
use vstd::prelude::*;

verus! {

/// Small blocks above this size may be remapped.
pub const REMAP_LIMIT: usize = 0x2_0000;

/// A size class: its number and the bytes of its payloads.
#[derive(Clone, Copy, Debug, PartialEq, Eq, Structural)]
pub struct Class {
    pub index: usize,
    pub size: usize,
}

/// Relocation of a payload: `size` bytes are allocated, `bytes` of them are copied from `from`, and
/// then `from` is freed.
#[derive(Clone, Copy, Debug, PartialEq, Eq, Structural)]
pub struct Move {
    pub from: usize,
    pub bytes: usize,
    pub size: usize,
    /// The new payload is a large allocation.
    pub big: bool,
    /// The new payload lies at a multiple of this; one stands for the alignment that every payload
    /// has.
    pub align: usize,
}

/// One effect on memory.
#[derive(Clone, Copy, Debug, PartialEq, Eq, Structural)]
pub enum Effect {
    Copy { from: usize, to: usize, bytes: usize },
    Free(usize),
}

/// What happens first with a request to resize.
#[derive(Clone, Copy, Debug, PartialEq, Eq, Structural)]
pub enum ReallocStart {
    /// A new payload of this size is the result.
    Allocate(usize),
    /// The payload is freed and the result is null.
    Free,
    /// What lies at the address decides.
    Inspect,
    /// Another allocator owns the address.
    Foreign,
}

/// What lies at an address that is to be resized.
#[derive(Clone, Copy, Debug, PartialEq, Eq, Structural)]
pub enum Route {
    /// An address inside a payload.
    Shifted,
    Big,
    Small,
}

/// What happens next with a request to resize.
#[derive(Clone, Copy, Debug, PartialEq, Eq, Structural)]
pub enum ReallocStep {
    /// The result is known; zero stands for null.
    Done(usize),
    /// The result is this payload, whose header now belongs to another class.
    Reclassed { ptr: usize, class: usize },
    /// This mapping has to be resized, wherever it ends up.
    Remap { base: usize, old_total: usize, new_total: usize },
    /// The payload has to move.
    Relocate(Move),
}

/// Memory after one effect; a freed payload of `usable` bytes is no longer accessible.
pub open spec fn affected(mem: Map<int, u8>, usable: int, e: Effect) -> Map<int, u8> {
    match e {
        Effect::Copy { from, to, bytes } => Map::new(
            |a: int| mem.dom().contains(a),
            |a: int|
                if to <= a < to + bytes {
                    mem[from + (a - to)]
                } else {
                    mem[a]
                },
        ),
        Effect::Free(p) => mem.remove_keys(Set::new(|a: int| p <= a < p + usable)),
    }
}

/// Memory after some effects.
pub open spec fn affected_by(mem: Map<int, u8>, usable: int, effects: Seq<Effect>) -> Map<int, u8>
    decreases effects.len(),
{
    if effects.len() == 0 {
        mem
    } else {
        affected(affected_by(mem, usable, effects.drop_last()), usable, effects.last())
    }
}

/// `n` bytes from `at` on are accessible.
pub open spec fn accessible(mem: Map<int, u8>, at: int, n: int) -> bool {
    forall|a: int| at <= a < at + n ==> #[trigger] mem.dom().contains(a)
}

impl Move {
    /// The effects of the relocation to `new`; none when there is no new payload.
    pub open spec fn spec_effects(&self, new: usize) -> Seq<Effect> {
        if new == 0 {
            Seq::empty()
        } else {
            seq![
                Effect::Copy { from: self.from, to: new, bytes: self.bytes },
                Effect::Free(self.from),
            ]
        }
    }

    /// The effects of the relocation to `new`, in order. Without a new payload nothing happens, so
    /// that the old one stays as it is.
    pub fn effects(&self, new: usize) -> (r: Vec<Effect>)
        ensures
            r@ == self.spec_effects(new),
    {
        let mut r: Vec<Effect> = Vec::new();
        if new != 0 {
            r.push(Effect::Copy { from: self.from, to: new, bytes: self.bytes });
            r.push(Effect::Free(self.from));
        }
        r
    }
}

/// What a request to resize the payload at `ptr` starts with, where `owned` tells that the address
/// belongs to this allocator.
pub open spec fn start_of(owned: bool, ptr: usize, new_size: usize) -> ReallocStart {
    if ptr == 0 {
        ReallocStart::Allocate(
            if new_size == 0 {
                1
            } else {
                new_size
            },
        )
    } else if new_size == 0 {
        ReallocStart::Free
    } else if owned {
        ReallocStart::Inspect
    } else {
        ReallocStart::Foreign
    }
}

/// What a request to resize the payload at `ptr` starts with.
pub fn rs_realloc(radix: &RadixTree, ptr: usize, new_size: usize) -> (r: ReallocStart)
    requires
        radix.wf(),
    ensures
        r == start_of(
            l3_main_radix::spec_valid_user_addr(ptr as int) && radix.owns(
                l3_main_radix::page_of(ptr as int),
            ),
            ptr,
            new_size,
        ),
{
    if ptr == 0 {
        return ReallocStart::Allocate(
            if new_size == 0 {
                1
            } else {
                new_size
            },
        );
    }
    if new_size == 0 {
        return ReallocStart::Free;
    }
    if radix.is_owned(ptr) {
        ReallocStart::Inspect
    } else {
        ReallocStart::Foreign
    }
}

/// How the payload at `ptr` is resized, once its allocation was found to start at `original` and
/// its header read. A payload that has to end up at more than the natural alignment is treated like
/// one at an aligned address.
pub fn realloc_route(ptr: usize, original: usize, is_big: bool, alignment: Option<usize>) -> (r:
    Route)
    ensures
        r == (if original != ptr || (alignment matches Some(a) && a > NATURAL_ALIGNMENT) {
            Route::Shifted
        } else if is_big {
            Route::Big
        } else {
            Route::Small
        }),
{
    let asked: bool = match alignment {
        Some(a) => a > NATURAL_ALIGNMENT,
        None => false,
    };
    if original != ptr || asked {
        Route::Shifted
    } else if is_big {
        Route::Big
    } else {
        Route::Small
    }
}

/// `n` is the largest power of two up to `block` that divides the address.
pub open spec fn own_alignment(ptr: int, block: int, n: int) -> bool {
    &&& align::is_power(n)
    &&& ptr % n == 0
    &&& n == 1 || n <= block
    &&& forall|e: nat|
        (#[trigger] power2::pow2(e)) <= block && ptr % (power2::pow2(e) as int) == 0
            ==> power2::pow2(e) <= n
}

/// `n` is the alignment that a payload at `ptr` is resized with: the one that is asked for, or the
/// one that it has. What lies in a block of `block` bytes was not aligned to more than those.
pub open spec fn keeps_alignment(ptr: int, block: int, asked: Option<usize>, n: int) -> bool {
    match asked {
        Some(a) => n == a,
        None => own_alignment(ptr, block, n),
    }
}

/// The alignment that the payload at `ptr`, inside an allocation of `block` bytes, is resized with.
pub fn kept_alignment(ptr: usize, block: usize, asked: Option<usize>) -> (r: usize)
    ensures
        keeps_alignment(ptr as int, block as int, asked, r as int),
        asked is None ==> r > 0,
{
    if let Some(a) = asked {
        return a;
    }
    let mut n: usize = 1;
    let ghost mut e: nat = 0;
    proof {
        power2::lemma2_to64();
    }
    while n <= block / 2 && ptr % (2 * n) == 0
        invariant
            1 <= n,
            n == power2::pow2(e),
            n == 1 || n <= block,
            ptr % n == 0,
        decreases block - n,
    {
        n = 2 * n;
        proof {
            power2::lemma_pow2_unfold(e + 1);
            e = e + 1;
        }
    }
    proof {
        assert forall|x: nat|
            (#[trigger] power2::pow2(x)) <= block && ptr as int % (power2::pow2(x) as int)
                == 0 implies power2::pow2(x) <= n by {
            if x > e {
                power2::lemma_pow2_unfold(e + 1);
                lemma_powers_divide(e + 1, x, ptr as int);
                if e + 1 < x {
                    power2::lemma_pow2_strictly_increases(e + 1, x);
                }
            } else if x < e {
                power2::lemma_pow2_strictly_increases(x, e);
            }
        }
    }
    n
}

/// What a power of two divides, a smaller one divides too.
proof fn lemma_powers_divide(small: nat, large: nat, n: int)
    requires
        small <= large,
        n % (power2::pow2(large) as int) == 0,
    ensures
        n % (power2::pow2(small) as int) == 0,
{
    let rest = (large - small) as nat;
    power2::lemma_pow2_adds(small, rest);
    power2::lemma_pow2_pos(small);
    power2::lemma_pow2_pos(rest);
    power2::lemma_pow2_pos(large);
    let a = power2::pow2(small) as int;
    let b = power2::pow2(rest) as int;
    let q = n / (a * b);
    vstd::arithmetic::div_mod::lemma_fundamental_div_mod(n, a * b);
    assert(n == (b * q) * a) by (nonlinear_arith)
        requires
            n == (a * b) * q,
    ;
    vstd::arithmetic::div_mod::lemma_mod_multiples_basic(b * q, a);
}

/// The relocation of a payload with `usable` bytes.
pub open spec fn move_of(
    ptr: usize,
    usable: usize,
    new_size: usize,
    big: bool,
    align: usize,
) -> Move {
    Move {
        from: ptr,
        bytes: if usable < new_size {
            usable
        } else {
            new_size
        },
        size: new_size,
        big,
        align,
    }
}

/// A step that a request to resize the payload at `ptr` may ask for, which has `usable` bytes and
/// starts `header` bytes behind its mapping: the payload stays, where `room` bytes belong to it
/// afterwards and those are enough; a mapping that holds the payload is resized to one that holds
/// the new size; or what both sizes have in common is copied.
pub open spec fn step_ok(
    ptr: usize,
    usable: usize,
    room: usize,
    new_size: usize,
    header: usize,
    step: ReallocStep,
) -> bool {
    match step {
        ReallocStep::Done(q) => q == 0 || (q == ptr && new_size <= room),
        ReallocStep::Reclassed { .. } => false,
        ReallocStep::Remap { base, old_total, new_total } => {
            &&& base + header == ptr
            &&& header + usable <= old_total
            &&& header + new_size <= new_total
        },
        ReallocStep::Relocate(m) => m == move_of(ptr, usable, new_size, m.big, m.align),
    }
}

/// The step that follows once the mapping was resized to `mapped`, or could not be.
pub open spec fn remap_answered(
    ptr: usize,
    usable: usize,
    new_size: usize,
    header: usize,
    mapped: Option<usize>,
    step: ReallocStep,
) -> bool {
    match mapped {
        None => step is Relocate && step_ok(ptr, usable, 0, new_size, header, step),
        Some(base) => match step {
            ReallocStep::Done(q) => q == base + header,
            ReallocStep::Reclassed { ptr: q, .. } => q == base + header,
            _ => false,
        },
    }
}

fn relocation(ptr: usize, usable: usize, new_size: usize, big: bool, align: usize) -> (r:
    ReallocStep)
    ensures
        r == ReallocStep::Relocate(move_of(ptr, usable, new_size, big, align)),
{
    let bytes: usize = if usable < new_size {
        usable
    } else {
        new_size
    };
    ReallocStep::Relocate(Move { from: ptr, bytes, size: new_size, big, align })
}

/// How a payload at an aligned address is resized, behind which `usable` bytes of its allocation
/// lie: it ends up at a multiple of `alignment`.
pub open spec fn shifted_step(
    ptr: usize,
    usable: usize,
    new_size: usize,
    alignment: usize,
) -> ReallocStep {
    if new_size <= usable && ptr as int % alignment as int == 0 {
        ReallocStep::Done(ptr)
    } else {
        ReallocStep::Relocate(move_of(ptr, usable, new_size, false, alignment))
    }
}

/// Resizes a payload at an aligned address inside an allocation, of which `usable` bytes lie behind
/// the address. It stays where there is room and the address is a multiple of `alignment`.
pub fn realloc_shifted(ptr: usize, usable: usize, new_size: usize, alignment: usize) -> (r:
    ReallocStep)
    requires
        alignment > 0,
    ensures
        r == shifted_step(ptr, usable, new_size, alignment),
        forall|header: usize| #[trigger] step_ok(ptr, usable, usable, new_size, header, r),
{
    if new_size <= usable && ptr % alignment == 0 {
        return ReallocStep::Done(ptr);
    }
    relocation(ptr, usable, new_size, false, alignment)
}

/// Bytes of the pages that a block of a size class covers with its header.
pub open spec fn class_total(size: int, header: int) -> int {
    utility::round_up(size + header, PAGE_SIZE as int)
}

/// A small block can change its class by being remapped.
pub open spec fn remappable(ptr: int, header: int, old_class: Class, new_class: Class) -> bool {
    &&& old_class.size > REMAP_LIMIT
    &&& new_class.size > REMAP_LIMIT
    &&& (ptr - header) % (PAGE_SIZE as int) == 0
}

/// Resizes a small payload behind a header of `header` bytes; `class` is the class of the new size,
/// when there is one.
pub fn small_realloc(
    ptr: usize,
    header: usize,
    old_class: Class,
    new_size: usize,
    class: Option<Class>,
) -> (r: ReallocStep)
    requires
        header <= ptr,
        old_class.size + header + PAGE_SIZE <= usize::MAX,
        class matches Some(c) ==> new_size <= c.size && c.size + header + PAGE_SIZE <= usize::MAX,
    ensures
        step_ok(
            ptr,
            old_class.size,
            match class {
                Some(c) => if c.index == old_class.index && c.size > old_class.size {
                    c.size
                } else {
                    old_class.size
                },
                None => old_class.size,
            },
            new_size,
            header,
            r,
        ),
        new_size <= old_class.size ==> r == ReallocStep::Done(ptr),
        new_size > old_class.size && class is None ==> r == ReallocStep::Relocate(
            move_of(ptr, old_class.size, new_size, true, 1),
        ),
        new_size > old_class.size ==> (class matches Some(c) ==> r == (if c.index
            == old_class.index {
            ReallocStep::Done(ptr)
        } else if remappable(ptr as int, header as int, old_class, c) {
            ReallocStep::Remap {
                base: (ptr - header) as usize,
                old_total: class_total(old_class.size as int, header as int) as usize,
                new_total: class_total(c.size as int, header as int) as usize,
            }
        } else {
            ReallocStep::Relocate(move_of(ptr, old_class.size, new_size, false, 1))
        })),
{
    if new_size <= old_class.size {
        return ReallocStep::Done(ptr);
    }
    proof {
        utility::lemma_round_up(old_class.size + header, PAGE_SIZE as int);
    }
    match class {
        None => relocation(ptr, old_class.size, new_size, true, 1),
        Some(c) => {
            if c.index == old_class.index {
                return ReallocStep::Done(ptr);
            }
            let base: usize = ptr - header;
            if old_class.size > REMAP_LIMIT && c.size > REMAP_LIMIT && base % PAGE_SIZE == 0 {
                proof {
                    utility::lemma_round_up(c.size + header, PAGE_SIZE as int);
                }
                return ReallocStep::Remap {
                    base,
                    old_total: utility::align_to(old_class.size + header, PAGE_SIZE),
                    new_total: utility::align_to(c.size + header, PAGE_SIZE),
                };
            }
            relocation(ptr, old_class.size, new_size, false, 1)
        },
    }
}

/// `after` owns `new_total` bytes at `new_base`, and no longer `old_total` bytes at `old_base` when
/// that is another place.
pub open spec fn range_moved(
    before: RadixTree,
    after: RadixTree,
    old_base: int,
    old_total: int,
    new_base: int,
    new_total: int,
) -> bool {
    forall|chunk: int| #[trigger]
        after.owns(chunk) == if l3_main_radix::valid_range(new_base, new_total)
            && l3_main_radix::page_of(new_base) <= chunk <= l3_main_radix::page_of(
            new_base + new_total - 1,
        ) {
            true
        } else if new_base != old_base && l3_main_radix::valid_range(old_base, old_total)
            && l3_main_radix::page_of(old_base) <= chunk <= l3_main_radix::page_of(
            old_base + old_total - 1,
        ) {
            false
        } else {
            before.owns(chunk)
        }
}

fn move_range(
    radix: &mut RadixTree,
    old_base: usize,
    old_total: usize,
    new_base: usize,
    new_total: usize,
)
    requires
        old(radix).wf(),
        old(radix).ready(),
    ensures
        final(radix).wf(),
        final(radix).ready(),
        range_moved(
            *old(radix),
            *final(radix),
            old_base as int,
            old_total as int,
            new_base as int,
            new_total as int,
        ),
{
    if new_base != old_base {
        radix.set_range(old_base, old_total, false);
    }
    let ghost mid = *radix;
    radix.set_range(new_base, new_total, true);
    assert(forall|chunk: int| #[trigger] radix.owns(chunk) ==> mid.owns(chunk) == mid.owns(chunk));
}

/// Continues after the pages of a small block were remapped to `result`, or could not be.
pub fn small_remapped(
    radix: &mut RadixTree,
    ptr: usize,
    header: usize,
    old_class: Class,
    new_size: usize,
    class: Class,
    result: Option<usize>,
) -> (r: ReallocStep)
    requires
        old(radix).wf(),
        old(radix).ready(),
        header <= ptr,
        old_class.size + header + PAGE_SIZE <= usize::MAX,
        class.size + header + PAGE_SIZE <= usize::MAX,
        result matches Some(base) ==> base + header <= usize::MAX,
    ensures
        final(radix).wf(),
        final(radix).ready(),
        remap_answered(ptr, old_class.size, new_size, header, result, r),
        result is None ==> *final(radix) == *old(radix) && r == ReallocStep::Relocate(
            move_of(ptr, old_class.size, new_size, false, 1),
        ),
        result matches Some(base) ==> r == (ReallocStep::Reclassed {
            ptr: (base + header) as usize,
            class: class.index,
        }) && range_moved(
            *old(radix),
            *final(radix),
            ptr - header,
            class_total(old_class.size as int, header as int),
            base as int,
            class_total(class.size as int, header as int),
        ),
{
    match result {
        None => relocation(ptr, old_class.size, new_size, false, 1),
        Some(base) => {
            let old_total: usize = utility::align_to(old_class.size + header, PAGE_SIZE);
            let new_total: usize = utility::align_to(class.size + header, PAGE_SIZE);
            move_range(radix, ptr - header, old_total, base, new_total);
            ReallocStep::Reclassed { ptr: base + header, class: class.index }
        },
    }
}

/// Bytes of a block of the buddy allocator whose size has the given base-two logarithm.
pub open spec fn pooled_bytes(order: int) -> int {
    segment::block_bytes(order - BIG_BUDDY_MIN_ORDER)
}

/// What doubling a block of the buddy allocator in place until it holds `target` bytes does, and
/// the order that it reaches if it gets there. A block that cannot get there may still have
/// doubled some times.
pub open spec fn pool_grown(
    before: BuddyAllocator,
    after: BuddyAllocator,
    region: int,
    addr: usize,
    order: usize,
    target: int,
    reached: Option<usize>,
) -> bool
    decreases BIG_BUDDY_MAX_ORDER - order,
{
    if order >= BIG_BUDDY_MAX_ORDER || target > SEGMENT_BYTES {
        reached is None && before == after
    } else {
        exists|mid: BuddyAllocator, res: Option<(usize, usize)>|
            {
                &&& #[trigger] before.grown(&mid, region, addr, order, res)
                &&& mid.wf()
                &&& match res {
                    None => reached is None && mid == after,
                    Some(_) => if pooled_bytes(order + 1) >= target {
                        reached == Some((order + 1) as usize) && mid == after
                    } else {
                        pool_grown(mid, after, region, addr, (order + 1) as usize, target, reached)
                    },
                }
            }
    }
}

fn grow_in_pool(
    buddy: &mut BuddyAllocator,
    region: usize,
    addr: usize,
    order: usize,
    target: usize,
) -> (reached: Option<usize>)
    requires
        old(buddy).wf(),
    ensures
        final(buddy).wf(),
        reached matches Some(o) ==> o <= BIG_BUDDY_MAX_ORDER,
        pool_grown(
            *old(buddy),
            *final(buddy),
            region as int,
            addr,
            order,
            target as int,
            reached,
        ),
    decreases BIG_BUDDY_MAX_ORDER - order,
{
    if order >= BIG_BUDDY_MAX_ORDER || target > SEGMENT_BYTES {
        return None;
    }
    let ghost before = *buddy;
    let res = buddy.try_grow_inplace(region, addr, order);
    let ghost mid = *buddy;
    assert(before.grown(&mid, region as int, addr, order, res));
    match res {
        None => None,
        Some((_, grown)) => {
            assert(grown == order + 1);
            assert(order >= BIG_BUDDY_MIN_ORDER);
            let bytes: usize = SLOT_BYTES << (grown - BIG_BUDDY_MIN_ORDER);
            proof {
                lemma_pooled_bytes(grown as int);
            }
            if bytes >= target {
                return Some(grown);
            }
            grow_in_pool(buddy, region, addr, grown, target)
        },
    }
}

proof fn lemma_pooled_bytes(order: int)
    requires
        BIG_BUDDY_MIN_ORDER <= order <= BIG_BUDDY_MAX_ORDER,
    ensures
        pooled_bytes(order) == SLOT_BYTES << ((order - BIG_BUDDY_MIN_ORDER) as usize),
{
    assert(0x40_0000usize << 0usize == 0x40_0000 && 0x40_0000usize << 1usize == 0x80_0000
        && 0x40_0000usize << 2usize == 0x100_0000 && 0x40_0000usize << 3usize == 0x200_0000
        && 0x40_0000usize << 4usize == 0x400_0000) by (bit_vector);
}

/// What a request to resize the large payload at `ptr` finds out without moving it; `None` when it
/// has to move. A mapping is resized as one of the bytes that it was made with, and no more: other
/// allocations that lie behind it stay valid.
pub open spec fn big_settled(heap: &BigHeap, ptr: usize, new_size: usize, has_class: bool) -> Option<
    ReallocStep,
> {
    let meta = heap.map@[ptr];
    if !heap.map@.dom().contains(ptr) {
        Some(ReallocStep::Done(0))
    } else if new_size <= meta.size {
        Some(ReallocStep::Done(ptr))
    } else if has_class {
        Some(ReallocStep::Relocate(move_of(ptr, meta.size, new_size, false, 1)))
    } else if !heap.fits(new_size as int) {
        Some(ReallocStep::Done(0))
    } else if meta.buddy_region == 0 {
        Some(
            ReallocStep::Remap {
                base: (ptr - heap.header) as usize,
                old_total: heap.total(meta.size as int) as usize,
                new_total: heap.total(new_size as int) as usize,
            },
        )
    } else {
        None
    }
}

/// What becomes of the large payload at `ptr` once the block under it reached an order that holds
/// the new size, or did not.
pub open spec fn pool_answer(
    before: &BigHeap,
    after: &BigHeap,
    ptr: usize,
    new_size: usize,
    reached: Option<usize>,
    r: ReallocStep,
) -> bool {
    let meta = before.map@[ptr];
    match reached {
        Some(order) => {
            &&& r == ReallocStep::Done(ptr)
            &&& after.map@ == before.map@.insert(
                ptr,
                BigAllocMeta {
                    size: new_size,
                    order,
                    buddy_region: meta.buddy_region,
                    aligned: meta.aligned,
                },
            )
        },
        None => {
            &&& r == ReallocStep::Relocate(move_of(ptr, meta.size, new_size, true, 1))
            &&& after.map@ == before.map@
        },
    }
}

/// Resizes a large payload; `has_class` tells that a size class holds the new size.
pub fn big_realloc(heap: &mut BigHeap, ptr: usize, new_size: usize, has_class: bool) -> (r:
    ReallocStep)
    requires
        old(heap).wf(),
    ensures
        final(heap).wf(),
        old(heap).same_settings(final(heap)),
        final(heap).radix == old(heap).radix,
        step_ok(
            ptr,
            old(heap).map@[ptr].size,
            final(heap).map@[ptr].size,
            new_size,
            old(heap).header,
            r,
        ),
        big_settled(old(heap), ptr, new_size, has_class) matches Some(step) ==> r == step
            && *final(heap) == *old(heap),
        big_settled(old(heap), ptr, new_size, has_class) is None ==> {
            let meta = old(heap).map@[ptr];
            exists|reached: Option<usize>|
                {
                    &&& #[trigger] pool_grown(
                        old(heap).buddy,
                        final(heap).buddy,
                        meta.buddy_region as int,
                        (ptr - old(heap).header) as usize,
                        meta.order,
                        old(heap).total(new_size as int),
                        reached,
                    )
                    &&& pool_answer(old(heap), final(heap), ptr, new_size, reached, r)
                }
        },
{
    let meta: BigAllocMeta = match heap.map.get(ptr) {
        Some(meta) => meta,
        None => {
            return ReallocStep::Done(0);
        },
    };
    assert(heap.meta_ok(ptr, meta));
    if new_size <= meta.size {
        return ReallocStep::Done(ptr);
    }
    if has_class {
        return relocation(ptr, meta.size, new_size, false, 1);
    }
    if new_size > usize::MAX - big_allocation::TWO_MB - heap.header {
        return ReallocStep::Done(0);
    }
    let base: usize = ptr - heap.header;
    let target: usize = estimate_and_align_2mb(new_size + heap.header, heap.disable_thp);
    if meta.buddy_region == 0 {
        return ReallocStep::Remap {
            base,
            old_total: estimate_and_align_2mb(meta.size + heap.header, heap.disable_thp),
            new_total: target,
        };
    }
    let ghost before = *heap;
    let reached = grow_in_pool(&mut heap.buddy, meta.buddy_region, base, meta.order, target);
    assert(pool_grown(
        before.buddy,
        heap.buddy,
        meta.buddy_region as int,
        (ptr - before.header) as usize,
        meta.order,
        before.total(new_size as int),
        reached,
    ));
    match reached {
        Some(order) => {
            let _ = heap.map.replace(
                ptr,
                BigAllocMeta {
                    size: new_size,
                    order,
                    buddy_region: meta.buddy_region,
                    aligned: meta.aligned,
                },
            );
            assert(pool_answer(&before, heap, ptr, new_size, reached, ReallocStep::Done(ptr)));
            assert(pool_grown(
                before.buddy,
                heap.buddy,
                meta.buddy_region as int,
                (ptr - before.header) as usize,
                meta.order,
                before.total(new_size as int),
                reached,
            ));
            ReallocStep::Done(ptr)
        },
        None => relocation(ptr, meta.size, new_size, true, 1),
    }
}

/// Continues after the mapping of a large payload was resized and ended up at `result`, or could
/// not be resized.
pub fn big_remapped(heap: &mut BigHeap, ptr: usize, new_size: usize, result: Option<usize>) -> (r:
    ReallocStep)
    requires
        old(heap).wf(),
        old(heap).map@.dom().contains(ptr),
        old(heap).fits(new_size as int),
        result matches Some(base) ==> old(heap).total(new_size as int) <= isize::MAX && base + old(
            heap).header <= usize::MAX,
    ensures
        final(heap).wf(),
        old(heap).same_settings(final(heap)),
        final(heap).buddy == old(heap).buddy,
        remap_answered(
            ptr,
            old(heap).map@[ptr].size,
            new_size,
            old(heap).header,
            result,
            r,
        ),
        result is None ==> *final(heap) == *old(heap) && r == ReallocStep::Relocate(
            move_of(ptr, old(heap).map@[ptr].size, new_size, true, 1),
        ),
        result matches Some(base) ==> {
            let new_ptr = (base + old(heap).header) as usize;
            &&& r == ReallocStep::Done(new_ptr)
            &&& range_moved(
                old(heap).radix,
                final(heap).radix,
                ptr - old(heap).header,
                old(heap).total(old(heap).map@[ptr].size as int),
                base as int,
                old(heap).total(new_size as int),
            )
            &&& exists|order: usize|
                {
                    &&& #[trigger] utility::ceil_log2(
                        old(heap).total(new_size as int),
                        order as nat,
                    )
                    &&& final(heap).map@ == old(heap).map@.remove(ptr).insert(
                        new_ptr,
                        BigAllocMeta { size: new_size, order, buddy_region: 0, aligned: true },
                    )
                }
        },
{
    let ghost before = *heap;
    match heap.map.get(ptr) {
        None => ReallocStep::Done(0),
        Some(meta) => {
            assert(heap.meta_ok(ptr, meta));
            match result {
                None => relocation(ptr, meta.size, new_size, true, 1),
                Some(base) => {
                    let target: usize = estimate_and_align_2mb(
                        new_size + heap.header,
                        heap.disable_thp,
                    );
                    let order: usize = utility::order_of(target);
                    proof {
                        utility::lemma_order_bits(target as int, order as nat);
                    }
                    let new_ptr: usize = base + heap.header;
                    let new_meta = BigAllocMeta {
                        size: new_size,
                        order,
                        buddy_region: 0,
                        aligned: true,
                    };
                    if new_ptr == ptr {
                        let _ = heap.map.replace(ptr, new_meta);
                    } else {
                        let _ = heap.map.remove(ptr);
                        heap.map.insert(new_ptr, new_meta);
                    }
                    assert(heap.map@ =~= before.map@.remove(ptr).insert(new_ptr, new_meta));
                    move_range(
                        &mut heap.radix,
                        ptr - heap.header,
                        estimate_and_align_2mb(meta.size + heap.header, heap.disable_thp),
                        base,
                        target,
                    );
                    ReallocStep::Done(new_ptr)
                },
            }
        },
    }
}

/// Relocating a payload keeps as much of its start as both sizes have in common, and touches
/// nothing outside the two payloads: what is copied was still accessible when it was.
pub proof fn law_relocation_keeps_the_prefix(
    mem: Map<int, u8>,
    ptr: usize,
    usable: usize,
    new_size: usize,
    big: bool,
    align: usize,
    new: usize,
)
    requires
        new != 0,
        accessible(mem, ptr as int, usable as int),
        accessible(mem, new as int, new_size as int),
        ptr + usable <= new || new + new_size <= ptr,
    ensures
        ({
            let after = affected_by(
                mem,
                usable as int,
                move_of(ptr, usable, new_size, big, align).spec_effects(new),
            );
            &&& accessible(after, new as int, new_size as int)
            &&& forall|i: int|
                0 <= i < usable && i < new_size ==> #[trigger] after[new + i] == mem[ptr + i]
            &&& forall|a: int|
                !(ptr <= a < ptr + usable) && !(new <= a < new + new_size) ==> {
                    &&& #[trigger] after.dom().contains(a) == mem.dom().contains(a)
                    &&& mem.dom().contains(a) ==> after[a] == mem[a]
                }
        }),
{
    let m = move_of(ptr, usable, new_size, big, align);
    let effects = m.spec_effects(new);
    let copy = Effect::Copy { from: ptr, to: new, bytes: m.bytes };
    assert(effects.drop_last() =~= seq![copy]);
    assert(seq![copy].drop_last() =~= Seq::<Effect>::empty());
    let mid = affected(mem, usable as int, copy);
    assert(affected_by(mem, usable as int, Seq::<Effect>::empty()) == mem);
    assert(affected_by(mem, usable as int, seq![copy]) == mid);
    let after = affected(mid, usable as int, Effect::Free(ptr));
    assert(affected_by(mem, usable as int, effects) == after);
    assert forall|a: int| new <= a < new + new_size implies #[trigger] after.dom().contains(a) by {
        assert(mem.dom().contains(a));
        assert(mid.dom().contains(a));
    }
    assert forall|i: int| 0 <= i < usable && i < new_size implies #[trigger] after[new + i]
        == mem[ptr + i] by {
        assert(mem.dom().contains(new + i));
        assert(mid.dom().contains(new + i));
        assert(mid[new + i] == mem[ptr + i]);
    }
}

/// A relocation for which no memory could be had changes nothing.
pub proof fn law_failed_relocation_keeps_the_payload(mem: Map<int, u8>, usable: int, m: Move)
    ensures
        affected_by(mem, usable, m.spec_effects(0)) == mem,
{
}

/// Memory after the mapping of `old_total` bytes at `base` was resized to `new_total` bytes and
/// ended up at `to`. What is new reads as zero.
pub open spec fn remapped(
    mem: Map<int, u8>,
    base: int,
    old_total: int,
    to: int,
    new_total: int,
) -> Map<int, u8> {
    Map::new(
        |a: int|
            to <= a < to + new_total || (mem.dom().contains(a) && !(base <= a < base + old_total)),
        |a: int|
            if to <= a < to + new_total {
                if a - to < old_total {
                    mem[base + (a - to)]
                } else {
                    0
                }
            } else {
                mem[a]
            },
    )
}

/// One request to resize, from its start to its end.
pub struct Resize {
    pub start: ReallocStart,
    /// What was asked for first, where the address is inspected.
    pub first: ReallocStep,
    /// Where a mapping that had to be resized ended up.
    pub mapped: Option<usize>,
    /// What was asked for after that; the same as `first` where nothing was mapped.
    pub last: ReallocStep,
    /// The payload that was allocated; zero for none.
    pub new: usize,
}

impl Resize {
    /// The request is one to resize the payload at `ptr`, with `usable` bytes, and `room` bytes
    /// where its block was enlarged in place, to `new_size` bytes,
    /// each step being one that the contracts of this module allow, and what is newly allocated
    /// being accessible and apart from the payload.
    pub open spec fn possible(
        &self,
        mem: Map<int, u8>,
        owned: bool,
        ptr: usize,
        usable: usize,
        room: usize,
        new_size: usize,
        header: usize,
    ) -> bool {
        &&& self.start == start_of(owned, ptr, new_size)
        &&& self.start is Inspect ==> {
            &&& step_ok(ptr, usable, room, new_size, header, self.first)
            &&& if self.first is Remap {
                &&& self.mapped != Some(0usize)
                &&& remap_answered(ptr, usable, new_size, header, self.mapped, self.last)
            } else {
                self.last == self.first
            }
            &&& self.last is Relocate && self.new != 0 ==> {
                &&& accessible(mem, self.new as int, new_size as int)
                &&& ptr + usable <= self.new || self.new + new_size <= ptr
            }
        }
    }

    /// What the caller gets.
    pub open spec fn answer(&self) -> usize {
        match self.start {
            ReallocStart::Allocate(_) => self.new,
            ReallocStart::Free => 0,
            ReallocStart::Foreign => 0,
            ReallocStart::Inspect => match self.last {
                ReallocStep::Done(q) => q,
                ReallocStep::Reclassed { ptr, .. } => ptr,
                ReallocStep::Relocate(_) => self.new,
                ReallocStep::Remap { .. } => 0,
            },
        }
    }

    /// Memory at the end of the request.
    pub open spec fn memory(&self, mem: Map<int, u8>, ptr: usize, usable: usize) -> Map<int, u8> {
        match self.start {
            ReallocStart::Free => affected(mem, usable as int, Effect::Free(ptr)),
            ReallocStart::Inspect => match (self.first, self.mapped, self.last) {
                (ReallocStep::Remap { base, old_total, new_total }, Some(to), _) => remapped(
                    mem,
                    base as int,
                    old_total as int,
                    to as int,
                    new_total as int,
                ),
                (_, _, ReallocStep::Relocate(m)) => affected_by(
                    mem,
                    usable as int,
                    m.spec_effects(self.new),
                ),
                _ => mem,
            },
            _ => mem,
        }
    }
}

/// A whole request to resize: without a payload it allocates at least one byte; a size of zero frees
/// the payload and answers null; otherwise null leaves memory as it was, and any other answer has
/// as much of the start of the payload as both sizes have in common, and all bytes of the new size
/// are accessible there.
pub proof fn law_resize(
    resize: Resize,
    mem: Map<int, u8>,
    owned: bool,
    ptr: usize,
    usable: usize,
    room: usize,
    new_size: usize,
    header: usize,
)
    requires
        resize.possible(mem, owned, ptr, usable, room, new_size, header),
        accessible(mem, ptr as int, usable as int),
        accessible(mem, ptr as int, room as int),
        owned || ptr == 0 || new_size == 0,
    ensures
        ({
            let after = resize.memory(mem, ptr, usable);
            let q = resize.answer();
            &&& ptr == 0 ==> resize.start == ReallocStart::Allocate(
                if new_size == 0 {
                    1
                } else {
                    new_size
                },
            ) && q == resize.new && after == mem
            &&& ptr != 0 && new_size == 0 ==> {
                &&& q == 0
                &&& forall|a: int|
                    !(ptr <= a < ptr + usable) ==> #[trigger] after.dom().contains(a)
                        == mem.dom().contains(a)
                &&& forall|a: int|
                    ptr <= a < ptr + usable ==> !#[trigger] after.dom().contains(a)
            }
            &&& ptr != 0 && new_size != 0 && q == 0 ==> after == mem
            &&& ptr != 0 && new_size != 0 && q != 0 ==> {
                &&& forall|i: int|
                    0 <= i < usable && i < new_size ==> #[trigger] after[q + i] == mem[ptr + i]
                &&& accessible(after, q as int, new_size as int)
            }
        }),
{
    let after = resize.memory(mem, ptr, usable);
    let q = resize.answer();
    if resize.start is Inspect {
        if resize.first is Remap && resize.mapped is Some {
            if q != 0 {
                assert forall|i: int| 0 <= i < usable && i < new_size implies #[trigger] after[q
                    + i] == mem[ptr + i] by {
                    assert(after.dom().contains(q + i));
                }
            }
        } else if let ReallocStep::Relocate(m) = resize.last {
            if resize.new != 0 {
                law_relocation_keeps_the_prefix(
                    mem,
                    ptr,
                    usable,
                    new_size,
                    m.big,
                    m.align,
                    resize.new,
                );
            }
        }
    }
}

/// Resizing a payload keeps its alignment: where the payload, inside an allocation of `block` bytes,
/// lies at a multiple of `a`, which is no more than those bytes, or where `a` is asked for, it ends
/// up at a multiple of `a`, whether it stays or moves into an allocation at `raw`.
pub proof fn law_resize_keeps_the_alignment(
    ptr: usize,
    usable: usize,
    new_size: usize,
    block: usize,
    asked: Option<usize>,
    alignment: usize,
    a: int,
    raw: int,
)
    requires
        keeps_alignment(ptr as int, block as int, asked, alignment as int),
        align::is_power(a),
        asked matches Some(n) ==> a == n,
        asked is None ==> a <= block && ptr as int % a == 0,
        raw > 0,
        raw + new_size + alignment + OFFSET_SIZE + TAG_SIZE <= usize::MAX,
    ensures
        match shifted_step(ptr, usable, new_size, alignment) {
            ReallocStep::Done(q) => q as int % a == 0,
            ReallocStep::Relocate(m) => align::place(
                raw,
                if m.align < OFFSET_SIZE {
                    OFFSET_SIZE as int
                } else {
                    m.align as int
                },
            ).aligned as int % a == 0,
            _ => false,
        },
{
    let e = choose|e: nat| a == #[trigger] power2::pow2(e);
    let n = if alignment < OFFSET_SIZE {
        OFFSET_SIZE as int
    } else {
        alignment as int
    };
    power2::lemma_pow2_pos(e);
    power2::lemma2_to64();
    align::law_aligned_payload_fits(raw, n, new_size as int);
    assert(a <= alignment);
    assert(align::is_power(n)) by {
        if alignment < OFFSET_SIZE {
            assert(n == power2::pow2(3));
        }
    }
    let x = choose|x: nat| n == #[trigger] power2::pow2(x);
    if e > x {
        power2::lemma_pow2_strictly_increases(x, e);
    }
    let p = align::place(raw, n).aligned as int;
    lemma_powers_divide(e, x, p);
}

/// A mapping that is resized keeps the alignment of the payload in it, up to that of pages, where
/// `header` bytes stand in front of the payload and mappings start at pages.
pub proof fn law_remap_keeps_the_alignment(base: int, to: int, header: int, a: int)
    requires
        align::is_power(a),
        a <= PAGE_SIZE,
        base % (PAGE_SIZE as int) == 0,
        to % (PAGE_SIZE as int) == 0,
    ensures
        (to + header) % a == (base + header) % a,
{
    let e = choose|e: nat| a == #[trigger] power2::pow2(e);
    power2::lemma2_to64();
    power2::lemma_pow2_pos(e);
    assert(power2::pow2(12) == PAGE_SIZE);
    if e > 12 {
        power2::lemma_pow2_strictly_increases(12, e);
    }
    lemma_powers_divide(e, 12, base);
    lemma_powers_divide(e, 12, to);
    vstd::arithmetic::div_mod::lemma_add_mod_noop(to, header, a);
    vstd::arithmetic::div_mod::lemma_add_mod_noop(base, header, a);
}

/// A large payload that is left where it is has the new size recorded, or had as many bytes before.
/// Only a block of the pool is ever enlarged in place, and then it holds the new size with what
/// stands in front of it.
pub proof fn law_big_resize_in_place_has_room(
    before: &BigHeap,
    after: &BigHeap,
    ptr: usize,
    new_size: usize,
    has_class: bool,
)
    requires
        before.wf(),
        before.map@.dom().contains(ptr),
    ensures
        big_settled(before, ptr, new_size, has_class) == Some(ReallocStep::Done(ptr)) && ptr != 0
            ==> new_size <= before.map@[ptr].size,
        new_size <= before.map@[ptr].size ==> big_settled(before, ptr, new_size, has_class)
            == Some(ReallocStep::Done(ptr)),
        big_settled(before, ptr, new_size, has_class) is None ==> before.map@[ptr].buddy_region
            != 0,
        big_settled(before, ptr, new_size, has_class) matches Some(ReallocStep::Remap {
            base,
            old_total,
            new_total,
        }) ==> {
            &&& before.map@[ptr].buddy_region == 0
            &&& base + before.header == ptr
            &&& old_total >= before.header + before.map@[ptr].size
            &&& new_total >= before.header + new_size
        },
        forall|reached: Option<usize>, r: ReallocStep|
            #[trigger] pool_answer(before, after, ptr, new_size, reached, r) && pool_grown(
                before.buddy,
                after.buddy,
                before.map@[ptr].buddy_region as int,
                (ptr - before.header) as usize,
                before.map@[ptr].order,
                before.total(new_size as int),
                reached,
            ) && !(r is Relocate) ==> {
                &&& r == ReallocStep::Done(ptr)
                &&& after.map@[ptr].size == new_size
                &&& after.map@[ptr].order > before.map@[ptr].order
                &&& pooled_bytes(after.map@[ptr].order as int) >= before.header + new_size
            },
{
    assert(before.meta_ok(ptr, before.map@[ptr]));
    let old_size = before.map@[ptr].size as int;
    lemma_total_holds(before, old_size);
    if before.fits(new_size as int) {
        lemma_total_holds(before, new_size as int);
    }
    assert forall|reached: Option<usize>, r: ReallocStep|
        #[trigger] pool_answer(before, after, ptr, new_size, reached, r) && pool_grown(
            before.buddy,
            after.buddy,
            before.map@[ptr].buddy_region as int,
            (ptr - before.header) as usize,
            before.map@[ptr].order,
            before.total(new_size as int),
            reached,
        ) && !(r is Relocate) implies r == ReallocStep::Done(ptr) && after.map@[ptr].size
        == new_size && after.map@[ptr].order > before.map@[ptr].order && pooled_bytes(
        after.map@[ptr].order as int,
    ) >= before.header + new_size by {
        lemma_reached_holds(
            before.buddy,
            after.buddy,
            before.map@[ptr].buddy_region as int,
            (ptr - before.header) as usize,
            before.map@[ptr].order,
            before.total(new_size as int),
            reached,
        );
        utility::lemma_round_up(new_size + before.header, PAGE_SIZE as int);
        utility::lemma_round_up(new_size + before.header, big_allocation::TWO_MB as int);
    }
}

proof fn lemma_total_holds(heap: &BigHeap, size: int)
    requires
        heap.fits(size),
        0 <= size,
    ensures
        size + heap.header <= heap.total(size) <= usize::MAX,
{
    utility::lemma_round_up(size + heap.header, PAGE_SIZE as int);
    utility::lemma_round_up(size + heap.header, big_allocation::TWO_MB as int);
}

/// A block that reached an order holds what it was enlarged for.
proof fn lemma_reached_holds(
    before: BuddyAllocator,
    after: BuddyAllocator,
    region: int,
    addr: usize,
    order: usize,
    target: int,
    reached: Option<usize>,
)
    requires
        pool_grown(before, after, region, addr, order, target, reached),
    ensures
        reached matches Some(o) ==> o > order && pooled_bytes(o as int) >= target,
    decreases BIG_BUDDY_MAX_ORDER - order,
{
    if order < BIG_BUDDY_MAX_ORDER && target <= SEGMENT_BYTES {
        let (mid, res) = choose|mid: BuddyAllocator, res: Option<(usize, usize)>|
            {
                &&& #[trigger] before.grown(&mid, region, addr, order, res)
                &&& mid.wf()
                &&& match res {
                    None => reached is None && mid == after,
                    Some(_) => if pooled_bytes(order + 1) >= target {
                        reached == Some((order + 1) as usize) && mid == after
                    } else {
                        pool_grown(mid, after, region, addr, (order + 1) as usize, target, reached)
                    },
                }
            };
        if res is Some && pooled_bytes(order + 1) < target {
            lemma_reached_holds(mid, after, region, addr, (order + 1) as usize, target, reached);
        }
    }
}

/// A payload at an aligned address stays only where it has the new size, and otherwise moves with
/// the new size asked for and everything copied that both sizes have.
pub proof fn law_shifted_resize_has_room(
    ptr: usize,
    usable: usize,
    new_size: usize,
    alignment: usize,
)
    requires
        alignment > 0,
        ptr != 0,
    ensures
        match shifted_step(ptr, usable, new_size, alignment) {
            ReallocStep::Done(q) => q == ptr && new_size <= usable && ptr as int
                % alignment as int == 0,
            ReallocStep::Relocate(m) => {
                &&& m.from == ptr
                &&& m.size == new_size
                &&& m.bytes <= usable && m.bytes <= new_size
                &&& m.bytes == usable || m.bytes == new_size
                &&& new_size > usable || ptr as int % alignment as int != 0
            },
            _ => false,
        },
{
}

/// The pages of a block of a size class hold it with its header, and are no more than they have to
/// be.
pub proof fn law_class_pages_hold_the_block(size: int, header: int)
    requires
        0 <= size,
        0 <= header,
    ensures
        class_total(size, header) % (PAGE_SIZE as int) == 0,
        size + header <= class_total(size, header) < size + header + PAGE_SIZE,
{
    utility::lemma_round_up(size + header, PAGE_SIZE as int);
}

/// Where a request to resize starts: only an address that is neither null nor foreign is looked at,
/// and only for a size that is not zero.
pub proof fn law_resize_start(owned: bool, ptr: usize, new_size: usize)
    ensures
        start_of(owned, ptr, new_size) is Inspect <==> owned && ptr != 0 && new_size != 0,
        start_of(owned, ptr, new_size) is Free <==> ptr != 0 && new_size == 0,
        start_of(owned, ptr, new_size) is Allocate <==> ptr == 0,
        start_of(owned, ptr, new_size) matches ReallocStart::Allocate(n) ==> n >= 1 && n >= new_size
            && (new_size > 0 ==> n == new_size),
{
}

/// A block changes its class by being remapped only when both classes have more than 128 kibibytes
/// and it starts at a page.
pub proof fn law_remapped_blocks_are_whole_pages(
    ptr: int,
    header: int,
    old_class: Class,
    new_class: Class,
)
    ensures
        remappable(ptr, header, old_class, new_class) <==> old_class.size > 0x2_0000
            && new_class.size > 0x2_0000 && (ptr - header) % 4096 == 0,
        remappable(ptr, header, old_class, new_class) == remappable(
            ptr,
            header,
            new_class,
            old_class,
        ),
{
}

} // verus!
