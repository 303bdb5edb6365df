//! Powers of two and wrapping arithmetic.

use vstd::arithmetic::power2::{lemma2_to64, lemma2_to64_rest, lemma_pow2_strictly_increases, lemma_pow2_pos, pow2};
use vstd::bits::lemma_u64_shl_is_mul;
use vstd::prelude::*;
use vstd::set_lib::{lemma_int_range, lemma_len_subset, lemma_map_size_bound, set_int_range};

verus! {

/// One more than the largest 64-bit number.
pub const WRAP: u128 = 0x1_0000_0000_0000_0000;

/// What is left of `n` in 64 bits.
pub open spec fn wrapped(n: int) -> u64 {
    (n % WRAP as int) as u64
}

/// 2 to the power `n`.
pub fn power(n: u8) -> (r: u64)
    requires
        n < 64,
    ensures
        r == pow2(n as nat),
        r > 0,
{
    proof {
        lemma_power_fits(n as nat);
        lemma_u64_shl_is_mul(1, n as u64);
    }
    1u64 << n
}

/// A power of two below 2 to the 64 fits in 64 bits.
pub proof fn lemma_power_fits(n: nat)
    requires
        n < 64,
    ensures
        0 < pow2(n) <= 0x8000_0000_0000_0000,
        n <= 31 ==> pow2(n) <= 0x8000_0000,
{
    lemma2_to64();
    lemma2_to64_rest();
    lemma_pow2_pos(n);
    if n < 63 {
        lemma_pow2_strictly_increases(n, 63);
    }
    if n < 31 {
        lemma_pow2_strictly_increases(n, 31);
    }
}

/// `a * b + c`, keeping what fits in 64 bits.
pub fn mul_add(a: u64, b: u64, c: u64) -> (r: u64)
    ensures
        r == wrapped(a * b + c),
{
    let m: u64 = a.wrapping_mul(b);
    proof {
        let w: int = WRAP as int;
        let p: int = a * b;
        assert(0 <= p) by (nonlinear_arith)
            requires
                p == a * b,
                0 <= a,
                0 <= b,
        ;
        assert(m == p % w);
        vstd::arithmetic::div_mod::lemma_add_mod_noop(p, c as int, w);
        assert((m + c) % w == (p + c) % w) by {
            assert(c as int % w == c);
        }
    }
    m.wrapping_add(c)
}

/// Wrapping a part of a sum early makes no difference.
pub proof fn lemma_wrapped_sum(a: int, b: int)
    requires
        0 <= a,
        0 <= b,
    ensures
        wrapped(wrapped(a) + b) == wrapped(a + b),
        wrapped(wrapped(a) * 1 + b) == wrapped(a + b),
{
    let w = WRAP as int;
    vstd::arithmetic::div_mod::lemma_add_mod_noop(a, b, w);
    vstd::arithmetic::div_mod::lemma_add_mod_noop(a % w, b, w);
    vstd::arithmetic::div_mod::lemma_mod_twice(a, w);
}

/// There are no more 64-bit numbers than 64 bits can tell apart.
pub proof fn lemma_numbers_are_few(s: Set<u64>)
    ensures
        s.finite(),
        s.len() <= WRAP,
{
    let ints = set_int_range(0, WRAP as int);
    let f = |i: int| i as u64;
    let all = ints.map(f);
    lemma_int_range(0, WRAP as int);
    lemma_map_size_bound(ints, all, f);
    assert forall|x: u64| s.contains(x) implies all.contains(x) by {
        assert(ints.contains(x as int));
        assert(f(x as int) == x);
    }
    lemma_len_subset(s, all);
}

} // verus!
