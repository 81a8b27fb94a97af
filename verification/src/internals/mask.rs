//! Sixteen-bit masks read as sets of slots.

use vstd::prelude::*;

verus! {

/// Slot `i` is a member of the mask `m`.
pub open spec fn bit(m: u16, i: int) -> bool {
    0 <= i < 16 && (m >> (i as u16)) & 1u16 == 1u16
}

proof fn lemma_bits(a: u16, b: u16, i: u16)
    by (bit_vector)
    requires
        i < 16,
    ensures
        ((a | b) >> i) & 1u16 == 1u16 <==> (a >> i) & 1u16 == 1u16 || (b >> i) & 1u16 == 1u16,
        ((a & b) >> i) & 1u16 == 1u16 <==> (a >> i) & 1u16 == 1u16 && (b >> i) & 1u16 == 1u16,
        ((a ^ b) >> i) & 1u16 == 1u16 <==> ((a >> i) & 1u16 == 1u16) != ((b >> i) & 1u16 == 1u16),
        ((!a) >> i) & 1u16 == 1u16 <==> !((a >> i) & 1u16 == 1u16),
        (0u16 >> i) & 1u16 == 0u16,
        (0xffffu16 >> i) & 1u16 == 1u16,
{
}

proof fn lemma_bits_extensional(a: u16, b: u16)
    by (bit_vector)
    requires
        (a >> 0u16) & 1u16 == (b >> 0u16) & 1u16,
        (a >> 1u16) & 1u16 == (b >> 1u16) & 1u16,
        (a >> 2u16) & 1u16 == (b >> 2u16) & 1u16,
        (a >> 3u16) & 1u16 == (b >> 3u16) & 1u16,
        (a >> 4u16) & 1u16 == (b >> 4u16) & 1u16,
        (a >> 5u16) & 1u16 == (b >> 5u16) & 1u16,
        (a >> 6u16) & 1u16 == (b >> 6u16) & 1u16,
        (a >> 7u16) & 1u16 == (b >> 7u16) & 1u16,
        (a >> 8u16) & 1u16 == (b >> 8u16) & 1u16,
        (a >> 9u16) & 1u16 == (b >> 9u16) & 1u16,
        (a >> 10u16) & 1u16 == (b >> 10u16) & 1u16,
        (a >> 11u16) & 1u16 == (b >> 11u16) & 1u16,
        (a >> 12u16) & 1u16 == (b >> 12u16) & 1u16,
        (a >> 13u16) & 1u16 == (b >> 13u16) & 1u16,
        (a >> 14u16) & 1u16 == (b >> 14u16) & 1u16,
        (a >> 15u16) & 1u16 == (b >> 15u16) & 1u16,
    ensures
        a == b,
{
}

pub broadcast proof fn lemma_bit_or(a: u16, b: u16, i: int)
    ensures
        #[trigger] bit(a | b, i) == (bit(a, i) || bit(b, i)),
{
    if 0 <= i < 16 {
        lemma_bits(a, b, i as u16);
    }
}

pub broadcast proof fn lemma_bit_and(a: u16, b: u16, i: int)
    ensures
        #[trigger] bit(a & b, i) == (bit(a, i) && bit(b, i)),
{
    if 0 <= i < 16 {
        lemma_bits(a, b, i as u16);
    }
}

pub broadcast proof fn lemma_bit_xor(a: u16, b: u16, i: int)
    ensures
        #[trigger] bit(a ^ b, i) == (bit(a, i) != bit(b, i)),
{
    if 0 <= i < 16 {
        lemma_bits(a, b, i as u16);
    }
}

pub broadcast proof fn lemma_bit_not(a: u16, i: int)
    ensures
        #[trigger] bit(!a, i) == (0 <= i < 16 && !bit(a, i)),
{
    if 0 <= i < 16 {
        lemma_bits(a, 0, i as u16);
    }
}

pub broadcast proof fn lemma_bit_zero(i: int)
    ensures
        !#[trigger] bit(0u16, i),
{
    if 0 <= i < 16 {
        lemma_bits(0, 0, i as u16);
    }
}

/// How membership behaves under the operators on masks.
pub broadcast group group_bits {
    lemma_bit_or,
    lemma_bit_and,
    lemma_bit_xor,
    lemma_bit_not,
    lemma_bit_zero,
}

/// A mask is determined by its members.
pub proof fn lemma_same_bits(a: u16, b: u16)
    requires
        forall|i: int| 0 <= i < 16 ==> bit(a, i) == #[trigger] bit(b, i),
    ensures
        a == b,
{
    assert forall|i: int| 0 <= i < 16 implies #[trigger] ((a >> (i as u16)) & 1u16) == (b >> (
    i as u16)) & 1u16 by {
        assert(bit(a, i) == bit(b, i));
        let j = i as u16;
        assert((a >> j) & 1u16 < 2 && (b >> j) & 1u16 < 2) by (bit_vector);
    }
    assert((a >> (0int as u16)) & 1u16 == (b >> (0int as u16)) & 1u16);
    assert((a >> (1int as u16)) & 1u16 == (b >> (1int as u16)) & 1u16);
    assert((a >> (2int as u16)) & 1u16 == (b >> (2int as u16)) & 1u16);
    assert((a >> (3int as u16)) & 1u16 == (b >> (3int as u16)) & 1u16);
    assert((a >> (4int as u16)) & 1u16 == (b >> (4int as u16)) & 1u16);
    assert((a >> (5int as u16)) & 1u16 == (b >> (5int as u16)) & 1u16);
    assert((a >> (6int as u16)) & 1u16 == (b >> (6int as u16)) & 1u16);
    assert((a >> (7int as u16)) & 1u16 == (b >> (7int as u16)) & 1u16);
    assert((a >> (8int as u16)) & 1u16 == (b >> (8int as u16)) & 1u16);
    assert((a >> (9int as u16)) & 1u16 == (b >> (9int as u16)) & 1u16);
    assert((a >> (10int as u16)) & 1u16 == (b >> (10int as u16)) & 1u16);
    assert((a >> (11int as u16)) & 1u16 == (b >> (11int as u16)) & 1u16);
    assert((a >> (12int as u16)) & 1u16 == (b >> (12int as u16)) & 1u16);
    assert((a >> (13int as u16)) & 1u16 == (b >> (13int as u16)) & 1u16);
    assert((a >> (14int as u16)) & 1u16 == (b >> (14int as u16)) & 1u16);
    assert((a >> (15int as u16)) & 1u16 == (b >> (15int as u16)) & 1u16);
    lemma_bits_extensional(a, b);
}

/// A mask other than zero has a member.
pub proof fn lemma_member(m: u16) -> (i: int)
    requires
        m != 0,
    ensures
        bit(m, i),
{
    broadcast use group_bits;

    if forall|i: int| 0 <= i < 16 ==> bit(m, i) == #[trigger] bit(0, i) {
        lemma_same_bits(m, 0);
    }
    choose|i: int| bit(m, i)
}

/// The lowest member of a mask.
pub fn lowest(m: u16) -> (r: usize)
    requires
        m != 0,
    ensures
        r < 16,
        bit(m, r as int),
        forall|i: int| 0 <= i < r ==> !#[trigger] bit(m, i),
{
    broadcast use vstd::std_specs::bits::axiom_u16_trailing_zeros;

    let r: u32 = m.trailing_zeros();
    assert forall|i: int| 0 <= i < r implies !#[trigger] bit(m, i) by {
        let j = i as u16;
        assert((m >> j) & 1u16 == 0u16);
    }
    r as usize
}

/// How many consecutive members a mask has from `start` on.
pub fn run_length(m: u16, start: usize) -> (r: usize)
    requires
        start < 16,
        bit(m, start as int),
    ensures
        1 <= r <= 16 - start,
        forall|i: int| start <= i < start + r ==> #[trigger] bit(m, i),
        !bit(m, start + r),
{
    broadcast use vstd::std_specs::bits::axiom_u16_trailing_ones;

    let s: u16 = start as u16;
    let shifted: u16 = m >> s;
    let r: u32 = shifted.trailing_ones();
    proof {
        lemma_shifted(m, s);
        assert((shifted >> 0u16) & 1u16 == (m >> s) & 1u16);
        assert(r >= 1);
        if r > 16 - start {
            let j = (16 - start) as u16;
            assert((shifted >> j) & 1u16 == 1u16);
        }
        assert forall|i: int| start <= i < start + r implies #[trigger] bit(m, i) by {
            let j = (i - start) as u16;
            assert((shifted >> j) & 1u16 == 1u16);
            assert((m >> ((s + j) as u16)) & 1u16 == 1u16);
            assert(((s + j) as u16) == i as u16);
        }
        if r < 16 - start {
            let j = r as u16;
            assert((shifted >> j) & 1u16 == 0u16);
            assert(((s + j) as u16) == (start + r) as u16);
        }
    }
    r as usize
}

proof fn lemma_shifted(m: u16, s: u16)
    by (bit_vector)
    requires
        s < 16,
    ensures
        forall|j: u16|
            j < 16 - s ==> #[trigger] (((m >> s) >> j) & 1u16) == (m >> ((s + j) as u16)) & 1u16,
        forall|j: u16| 16 - s <= j ==> #[trigger] (((m >> s) >> j) & 1u16) == 0u16,
{
}

} // verus!
