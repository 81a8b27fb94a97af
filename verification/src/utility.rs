//! Rounding sizes to alignments and powers of two.

use vstd::arithmetic::power2;
use vstd::prelude::*;

verus! {

/// Bytes of a page.
pub const PAGE_SIZE: usize = 4096;

/// The least multiple of `align` that is no less than `n`.
pub open spec fn round_up(n: int, align: int) -> int {
    (n + align - 1) / align * align
}

/// What rounding up means: a multiple, not below `n`, and by less than one `align` above it.
pub proof fn lemma_round_up(n: int, align: int)
    requires
        align > 0,
    ensures
        round_up(n, align) % align == 0,
        n <= round_up(n, align) < n + align,
        n % align == 0 ==> round_up(n, align) == n,
{
    let q = (n + align - 1) / align;
    vstd::arithmetic::div_mod::lemma_fundamental_div_mod(n + align - 1, align);
    vstd::arithmetic::mul::lemma_mul_is_commutative(q, align);
    vstd::arithmetic::div_mod::lemma_mod_multiples_basic(q, align);
    vstd::arithmetic::div_mod::lemma_mod_bound(n + align - 1, align);
    if n % align == 0 {
        vstd::arithmetic::div_mod::lemma_fundamental_div_mod(n, align);
        let k = n / align;
        assert(q == k) by {
            vstd::arithmetic::div_mod::lemma_fundamental_div_mod_converse(
                n + align - 1,
                align,
                k,
                align - 1,
            );
        }
    }
}

/// Rounds up, or tells that the result does not fit.
pub fn checked_align_to(n: usize, align: usize) -> (r: Option<usize>)
    requires
        align > 0,
    ensures
        r == (if round_up(n as int, align as int) <= usize::MAX {
            Some(round_up(n as int, align as int) as usize)
        } else {
            None
        }),
{
    proof {
        lemma_round_up(n as int, align as int);
        vstd::arithmetic::div_mod::lemma_fundamental_div_mod(n as int, align as int);
    }
    let rest: usize = n % align;
    if rest == 0 {
        return Some(n);
    }
    proof {
        lemma_round_up_gap(n as int, align as int);
    }
    n.checked_add(align - rest)
}

proof fn lemma_round_up_gap(n: int, align: int)
    requires
        n >= 0,
        align > 0,
        n % align != 0,
    ensures
        round_up(n, align) == n + (align - n % align),
{
    let q = n / align;
    let m = n % align;
    vstd::arithmetic::div_mod::lemma_fundamental_div_mod(n, align);
    vstd::arithmetic::div_mod::lemma_mod_bound(n, align);
    assert(n + align - 1 == align * (q + 1) + (m - 1)) by (nonlinear_arith)
        requires
            n == align * q + m,
    ;
    vstd::arithmetic::div_mod::lemma_fundamental_div_mod_converse(
        n + align - 1,
        align,
        q + 1,
        m - 1,
    );
    assert((q + 1) * align == n + (align - m)) by (nonlinear_arith)
        requires
            n == align * q + m,
    ;
}

/// Rounds up a size that leaves room for it.
pub fn align_to(n: usize, align: usize) -> (r: usize)
    requires
        align > 0,
        n + align - 1 <= usize::MAX,
    ensures
        r == round_up(n as int, align as int),
{
    proof {
        lemma_round_up(n as int, align as int);
    }
    match checked_align_to(n, align) {
        Some(r) => r,
        None => n,
    }
}

/// The least power of two that is no less than `n` is `2^e`.
pub open spec fn ceil_log2(n: int, e: nat) -> bool {
    &&& n <= power2::pow2(e)
    &&& e > 0 ==> power2::pow2((e - 1) as nat) < n
}

/// The least exponent whose power of two is no less than `n`.
pub fn order_of(n: usize) -> (e: usize)
    ensures
        e <= 64,
        ceil_log2(n as int, e as nat),
{
    let mut e: usize = 0;
    let mut p: usize = 1;
    proof {
        power2::lemma2_to64();
        power2::lemma2_to64_rest();
    }
    while p < n
        invariant
            e < 64,
            p == power2::pow2(e as nat),
            e > 0 ==> power2::pow2((e - 1) as nat) < n,
        decreases usize::MAX - p,
    {
        proof {
            power2::lemma_pow2_unfold((e + 1) as nat);
            power2::lemma2_to64();
            power2::lemma2_to64_rest();
        }
        if p > usize::MAX / 2 {
            return e + 1;
        }
        assert(power2::pow2((e + 1) as nat) == 2 * p);
        assert(e + 1 < 64) by {
            if e + 1 >= 64 {
                assert(e == 63);
                assert(power2::pow2(63) == 0x8000_0000_0000_0000);
            }
        }
        p = p * 2;
        e = e + 1;
    }
    e
}

/// A size of at most half the address space has an order below the word size.
pub proof fn lemma_order_bits(n: int, e: nat)
    requires
        n <= isize::MAX,
        ceil_log2(n, e),
    ensures
        e < usize::BITS,
{
    power2::lemma2_to64();
    power2::lemma2_to64_rest();
    assert(usize::BITS == 32 || usize::BITS == 64);
    if e >= usize::BITS {
        let top = (usize::BITS - 1) as nat;
        if (e - 1) as nat > top {
            power2::lemma_pow2_strictly_increases(top, (e - 1) as nat);
        }
    }
}

/// The least power of two that is no less than `n`, when it fits.
pub fn checked_next_power_of_two(n: usize) -> (r: Option<usize>)
    ensures
        r matches Some(p) ==> exists|e: nat| p == power2::pow2(e) && #[trigger] ceil_log2(n as int, e),
        r matches Some(p) ==> n <= p,
        r is None <==> forall|e: nat| #[trigger] power2::pow2(e) <= usize::MAX ==> power2::pow2(e) < n,
{
    let mut p: usize = 1;
    let ghost mut e: nat = 0;
    proof {
        power2::lemma2_to64();
    }
    while p < n
        invariant
            p == power2::pow2(e),
            p >= 1,
            e > 0 ==> power2::pow2((e - 1) as nat) < n,
        decreases usize::MAX - p,
    {
        proof {
            power2::lemma_pow2_unfold((e + 1) as nat);
        }
        if p > usize::MAX / 2 {
            assert forall|x: nat| #[trigger] power2::pow2(x) <= usize::MAX implies power2::pow2(x)
                < n by {
                if x < e {
                    power2::lemma_pow2_strictly_increases(x, e);
                } else if x > e + 1 {
                    power2::lemma_pow2_strictly_increases((e + 1) as nat, x);
                }
            }
            return None;
        }
        p = p * 2;
        proof {
            e = (e + 1) as nat;
        }
    }
    assert(ceil_log2(n as int, e));
    Some(p)
}

/// Rounding up gives the least multiple that is no less: no other multiple lies in between.
pub proof fn law_round_up_is_least(n: int, align: int, other: int)
    requires
        align > 0,
        other % align == 0,
        n <= other,
    ensures
        round_up(n, align) <= other,
        n <= round_up(n, align),
        round_up(n, align) % align == 0,
{
    lemma_round_up(n, align);
    let r = round_up(n, align);
    let a = r / align;
    let b = other / align;
    vstd::arithmetic::div_mod::lemma_fundamental_div_mod(r, align);
    vstd::arithmetic::div_mod::lemma_fundamental_div_mod(other, align);
    if b < a {
        assert(align * b <= align * (a - 1)) by (nonlinear_arith)
            requires
                align > 0,
                b <= a - 1,
        ;
        assert(align * (a - 1) == align * a - align) by (nonlinear_arith);
    } else {
        assert(align * a <= align * b) by (nonlinear_arith)
            requires
                align > 0,
                a <= b,
        ;
    }
}

/// A power of two that is the least one for a number is below twice it.
pub proof fn law_least_power_is_near(n: int, e: nat)
    requires
        n >= 1,
        ceil_log2(n, e),
    ensures
        n <= power2::pow2(e) < 2 * n,
        forall|x: nat| n <= #[trigger] power2::pow2(x) ==> power2::pow2(e) <= power2::pow2(x),
{
    power2::lemma2_to64();
    if e > 0 {
        power2::lemma_pow2_unfold(e);
    }
    assert forall|x: nat| n <= #[trigger] power2::pow2(x) implies power2::pow2(e)
        <= power2::pow2(x) by {
        if x < e {
            if x < e - 1 {
                power2::lemma_pow2_strictly_increases(x, (e - 1) as nat);
            }
        } else if x > e {
            power2::lemma_pow2_strictly_increases(e, x);
        }
    }
}

} // verus!
