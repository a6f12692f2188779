use vstd::prelude::*;
use vstd::arithmetic::power2::{lemma_pow2_unfold, pow2};

verus! {

/// The whole part of the binary logarithm of `n`; zero for zero.
pub open spec fn spec_log2(n: nat) -> nat
    decreases n,
{
    if n <= 1 {
        0
    } else {
        1 + spec_log2(n / 2)
    }
}

/// A number lies below the power of two that its logarithm falls short of.
pub proof fn lemma_log2_bound(n: nat, k: nat)
    requires
        spec_log2(n) < k,
    ensures
        n < pow2(k),
    decreases k,
{
    lemma_pow2_unfold(k);
    if n <= 1 {
        vstd::arithmetic::power2::lemma_pow2_pos((k - 1) as nat);
    } else {
        lemma_log2_bound(n / 2, (k - 1) as nat);
    }
}

/// The whole part of the binary logarithm of `n`; zero for zero.
pub fn log2_64(n: u64) -> (r: u64)
    ensures
        r == spec_log2(n as nat),
        r < 64,
{
    let mut v: u64 = n;
    let mut r: u64 = 0;
    while v > 1
        invariant
            r + spec_log2(v as nat) == spec_log2(n as nat),
            r < 64,
            r == 0 || v < 0x8000_0000_0000_0000u64 >> ((r - 1) as u64),
        decreases v,
    {
        proof {
            let s = r;
            if s > 0 {
                assert(v < 0x8000_0000_0000_0000u64 >> ((s - 1) as u64) && v > 1 ==> s < 63 && v / 2
                    < 0x8000_0000_0000_0000u64 >> (s as u64)) by (bit_vector)
                    requires
                        0 < s < 64,
                ;
            } else {
                assert(v / 2 < 0x8000_0000_0000_0000u64 >> 0u64) by (bit_vector);
            }
        }
        v = v / 2;
        r = r + 1;
    }
    r
}

/// Whether `p` is the smallest power of two that is at least `v`.
pub open spec fn is_upper_power_of_two(v: nat, p: nat) -> bool {
    &&& exists|e: nat| p == pow2(e)
    &&& p >= v
    &&& forall|k: nat| v <= #[trigger] pow2(k) ==> p <= pow2(k)
}

/// Powers of two grow with their exponent.
pub proof fn lemma_pow2_monotone(a: nat, b: nat)
    ensures
        a <= b ==> pow2(a) <= pow2(b),
        pow2(a) < pow2(b) ==> a < b,
{
    if a < b {
        vstd::arithmetic::power2::lemma_pow2_strictly_increases(a, b);
    }
    if b < a {
        vstd::arithmetic::power2::lemma_pow2_strictly_increases(b, a);
    }
}

/// The smallest power of two that is at least `v`; one for zero.
pub fn upper_power_of_two(v: u64) -> (p: u64)
    requires
        v <= 0x8000_0000_0000_0000,
    ensures
        is_upper_power_of_two(v as nat, p as nat),
{
    let mut p: u64 = 1;
    let ghost mut e: nat = 0;
    proof {
        vstd::arithmetic::power2::lemma2_to64();
        assert forall|k: nat| v <= #[trigger] pow2(k) implies 1 <= pow2(k) by {
            vstd::arithmetic::power2::lemma_pow2_pos(k);
        }
    }
    while p < v
        invariant
            p == pow2(e),
            e <= 63,
            p >= 1,
            forall|k: nat| v <= #[trigger] pow2(k) ==> p <= pow2(k),
            v <= 0x8000_0000_0000_0000,
            p <= 0x8000_0000_0000_0000,
        decreases 64 - e,
    {
        proof {
            vstd::arithmetic::power2::lemma2_to64();
            vstd::arithmetic::power2::lemma2_to64_rest();
            assert(e < 63);
            lemma_pow2_unfold(e + 1);
            if e + 1 < 63 {
                vstd::arithmetic::power2::lemma_pow2_strictly_increases(e + 1, 63);
            }
            assert forall|k: nat| v <= #[trigger] pow2(k) implies 2 * p <= pow2(k) by {
                lemma_pow2_monotone(e, k);
                lemma_pow2_monotone(e + 1, k);
            }
            e = e + 1;
        }
        p = 2 * p;
    }
    p
}

/// The whole part of the square root of `n`.
pub fn isqrt(n: u64) -> (r: u64)
    ensures
        r * r <= n < (r + 1) * (r + 1),
{
    let mut lo: u64 = 0;
    let mut hi: u64 = 0x1_0000_0000;
    assert(0x1_0000_0000u64 * 0x1_0000_0000u64 > n) by (nonlinear_arith)
        requires
            n <= 0xffff_ffff_ffff_ffff,
    ;
    while hi - lo > 1
        invariant
            lo < hi <= 0x1_0000_0000,
            lo * lo <= n < hi * hi,
        decreases hi - lo,
    {
        let mid: u64 = lo + (hi - lo) / 2;
        assert(mid * mid <= 0xffff_ffff * 0xffff_ffff) by (nonlinear_arith)
            requires
                mid <= 0xffff_ffff,
        ;
        if mid * mid <= n {
            lo = mid;
        } else {
            hi = mid;
        }
    }
    lo
}

} // verus!
