//! Powers of two: the spec function `exp2`, the facts about it that the
//! allocator's proofs need, and a few executable helpers.

use vstd::prelude::*;

verus! {

/// `2^k`.
pub open spec fn exp2(k: nat) -> nat
    decreases k,
{
    if k == 0 {
        1
    } else {
        2 * exp2((k - 1) as nat)
    }
}

/// `n` is a power of two.
pub open spec fn is_pow2(n: int) -> bool {
    exists|k: nat| exp2(k) == n
}

pub proof fn lemma_exp2_pos(k: nat)
    ensures
        exp2(k) >= 1,
    decreases k,
{
    if k > 0 {
        lemma_exp2_pos((k - 1) as nat);
    }
}

/// `2^b == 2^a * 2^(b - a)` for `a <= b`.
pub proof fn lemma_exp2_split(a: nat, b: nat)
    requires
        a <= b,
    ensures
        exp2(b) == exp2(a) * exp2((b - a) as nat),
    decreases b,
{
    if a == b {
        assert((b - a) as nat == 0);
        assert(exp2(0) == 1);
        assert(exp2(a) * 1 == exp2(a)) by (nonlinear_arith);
    } else {
        let d = (b - a) as nat;
        let d1 = (b - 1 - a) as nat;
        lemma_exp2_split(a, (b - 1) as nat);
        assert(exp2(b) == 2 * exp2((b - 1) as nat));
        assert(exp2(d) == 2 * exp2(d1));
        let x = exp2(a);
        let y = exp2(d1);
        assert(x * (2 * y) == 2 * (x * y)) by (nonlinear_arith);
    }
}

pub proof fn lemma_exp2_le(a: nat, b: nat)
    requires
        a <= b,
    ensures
        exp2(a) <= exp2(b),
    decreases b,
{
    if a < b {
        lemma_exp2_le(a, (b - 1) as nat);
        lemma_exp2_pos((b - 1) as nat);
    }
}

pub proof fn lemma_exp2_lt(a: nat, b: nat)
    requires
        a < b,
    ensures
        exp2(a) < exp2(b),
{
    lemma_exp2_le(a, (b - 1) as nat);
    lemma_exp2_pos((b - 1) as nat);
}

/// The exponent is determined by the power: `2^a <= 2^b` only when `a <= b`.
pub proof fn lemma_exp2_le_inv(a: nat, b: nat)
    requires
        exp2(a) <= exp2(b),
    ensures
        a <= b,
{
    if a > b {
        lemma_exp2_lt(b, a);
    }
}

/// Concrete values used by the allocator.
pub proof fn lemma_exp2_values()
    ensures
        exp2(0) == 1,
        exp2(1) == 2,
        exp2(3) == 8,
        exp2(31) == 0x8000_0000,
        exp2(32) == 0x1_0000_0000,
        exp2(63) == 0x8000_0000_0000_0000,
        exp2(64) == 0x1_0000_0000_0000_0000,
{
    reveal_with_fuel(exp2, 65);
}

/// A multiple of `2^b` is a multiple of every smaller power of two.
pub proof fn lemma_aligned_weaken(x: int, a: nat, b: nat)
    requires
        a <= b,
        x % (exp2(b) as int) == 0,
    ensures
        x % (exp2(a) as int) == 0,
{
    lemma_exp2_split(a, b);
    lemma_exp2_pos(a);
    lemma_exp2_pos((b - a) as nat);
    vstd::arithmetic::div_mod::lemma_mod_mod(x, exp2(a) as int, exp2((b - a) as nat) as int);
}

/// No power of two lies strictly between `2^k` and `2^(k+1)`, and none is below 1.
pub proof fn lemma_not_pow2_between(n: int, k: nat)
    requires
        n < 1 || (exp2(k) < n < exp2(k + 1)),
    ensures
        !is_pow2(n),
{
    if is_pow2(n) {
        let m = choose|m: nat| exp2(m) == n;
        lemma_exp2_pos(m);
        if n >= 1 {
            if m <= k {
                lemma_exp2_le(m, k);
            } else {
                lemma_exp2_le(k + 1, m);
            }
        }
    }
}

/// `2^k` as a `u64`.
pub fn pow2_u64(k: u32) -> (p: u64)
    requires
        k < 64,
    ensures
        p == exp2(k as nat),
{
    let mut p: u64 = 1;
    let mut i: u32 = 0;
    while i < k
        invariant
            i <= k < 64,
            p == exp2(i as nat),
        decreases k - i,
    {
        proof {
            lemma_exp2_le((i + 1) as nat, 63);
            lemma_exp2_values();
        }
        p = p * 2;
        i = i + 1;
    }
    p
}

/// Whether `n` is a power of two.
pub fn is_power_of_two(n: usize) -> (r: bool)
    ensures
        r == is_pow2(n as int),
{
    let mut p: u64 = 1;
    let mut k: u32 = 0;
    proof {
        lemma_exp2_values();
    }
    while p < n as u64 && k < 63
        invariant
            k <= 63,
            p == exp2(k as nat),
            k > 0 ==> exp2((k - 1) as nat) < n,
        decreases 63 - k,
    {
        proof {
            lemma_exp2_le((k + 1) as nat, 63);
            lemma_exp2_values();
        }
        p = p * 2;
        k = k + 1;
    }
    if p == n as u64 {
        true
    } else {
        proof {
            if n < 1 {
                lemma_not_pow2_between(n as int, 0);
            } else if p > n as u64 {
                assert(k > 0);
                assert(exp2(k as nat) == 2 * exp2((k - 1) as nat));
                lemma_not_pow2_between(n as int, (k - 1) as nat);
            } else {
                assert(k == 63);
                assert(n <= 0xffff_ffff_ffff_ffffu64);
                lemma_not_pow2_between(n as int, 63);
            }
        }
        false
    }
}

} // verus!
