use vstd::prelude::*;

verus! {

/// Two to the power `e`.
pub open spec fn two_pow(e: nat) -> nat
    decreases e,
{
    if e == 0 {
        1
    } else {
        2 * two_pow((e - 1) as nat)
    }
}

/// The integer part of the base-2 logarithm of `n` (0 for `n <= 1`).
pub open spec fn floor_log2(n: nat) -> nat
    decreases n,
{
    if n <= 1 {
        0
    } else {
        1 + floor_log2(n / 2)
    }
}

pub proof fn lemma_two_pow_positive(e: nat)
    ensures
        two_pow(e) >= 1,
    decreases e,
{
    if e > 0 {
        lemma_two_pow_positive((e - 1) as nat);
    }
}

pub proof fn lemma_two_pow_monotone(a: nat, b: nat)
    requires
        a <= b,
    ensures
        two_pow(a) <= two_pow(b),
    decreases b,
{
    if a < b {
        lemma_two_pow_monotone(a, (b - 1) as nat);
        lemma_two_pow_positive((b - 1) as nat);
    }
}

pub proof fn lemma_two_pow_32()
    ensures
        two_pow(31) == 0x8000_0000,
        two_pow(32) == 0x1_0000_0000,
{
    reveal_with_fuel(two_pow, 33);
}

/// `floor_log2(n)` is the exponent of the largest power of two not above `n`.
pub proof fn lemma_floor_log2_bounds(n: nat)
    requires
        n >= 1,
    ensures
        two_pow(floor_log2(n)) <= n < two_pow(floor_log2(n) + 1),
    decreases n,
{
    if n > 1 {
        lemma_floor_log2_bounds(n / 2);
    }
}

/// A power of two pins down the logarithm.
pub proof fn lemma_floor_log2_unique(n: nat, k: nat)
    requires
        two_pow(k) <= n < two_pow(k + 1),
    ensures
        floor_log2(n) == k,
{
    lemma_two_pow_positive(k);
    lemma_floor_log2_bounds(n);
    let j = floor_log2(n);
    if j < k {
        lemma_two_pow_monotone(j + 1, k);
    } else if j > k {
        lemma_two_pow_monotone(k + 1, j);
    }
}

/// The logarithm of a 32-bit value is below 32.
pub proof fn lemma_floor_log2_u32(n: nat)
    requires
        1 <= n < 0x1_0000_0000,
    ensures
        floor_log2(n) <= 31,
{
    lemma_floor_log2_bounds(n);
    lemma_two_pow_32();
    if floor_log2(n) > 31 {
        lemma_two_pow_monotone(32, floor_log2(n));
    }
}

/// Below `2^(k+1)` the logarithm is at most `k`.
pub proof fn lemma_floor_log2_le(n: nat, k: nat)
    requires
        1 <= n < two_pow(k + 1),
    ensures
        floor_log2(n) <= k,
{
    lemma_floor_log2_bounds(n);
    if floor_log2(n) > k {
        lemma_two_pow_monotone(k + 1, floor_log2(n));
    }
}

/// Integer base-2 logarithm of a positive 32-bit value.
pub fn ilog2_u32(x: u32) -> (r: u32)
    requires
        x >= 1,
    ensures
        r == floor_log2(x as nat),
        r <= 31,
{
    proof {
        lemma_floor_log2_u32(x as nat);
    }
    let mut y: u32 = x;
    let mut k: u32 = 0;
    while y > 1
        invariant
            y >= 1,
            k + floor_log2(y as nat) == floor_log2(x as nat),
            floor_log2(x as nat) <= 31,
        decreases y,
    {
        y = y / 2;
        k = k + 1;
    }
    k
}

} // verus!
