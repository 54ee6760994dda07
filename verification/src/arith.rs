//! Small verified integer helpers: the floor of the base-2 logarithm and the
//! floor of the square root. The UCT score is computed in fixed-point
//! integer arithmetic, and these two functions supply its logarithm and
//! square-root pieces exactly as the score's specification states them.

use vstd::arithmetic::power2::{lemma2_to64, lemma_pow2_unfold, pow2};
use vstd::prelude::*;

verus! {

/// The floor of the base-2 logarithm; zero for inputs below two.
pub open spec fn spec_ilog2(x: nat) -> nat
    decreases x,
{
    if x < 2 {
        0
    } else {
        1 + spec_ilog2(x / 2)
    }
}

/// The floor of the square root.
pub open spec fn spec_isqrt(x: nat) -> nat
    decreases x,
{
    if x == 0 {
        0
    } else {
        let r = spec_isqrt((x - 1) as nat);
        if (r + 1) * (r + 1) <= x {
            r + 1
        } else {
            r
        }
    }
}

/// The logarithm of a value below `pow2(n)` is below `n`.
pub proof fn lemma_ilog2_below(x: nat, n: nat)
    requires
        x < pow2(n),
        n >= 1,
    ensures
        spec_ilog2(x) < n,
    decreases n,
{
    if x < 2 {
    } else {
        lemma_pow2_unfold(n);
        assert(x / 2 < pow2((n - 1) as nat));
        if n == 1 {
            assert(pow2(0) == 1) by {
                lemma2_to64();
            }
        } else {
            lemma_ilog2_below(x / 2, (n - 1) as nat);
        }
    }
}

/// The square-root floor is bracketed by the neighbouring squares.
pub proof fn lemma_isqrt_bounds(x: nat)
    ensures
        spec_isqrt(x) * spec_isqrt(x) <= x,
        x < (spec_isqrt(x) + 1) * (spec_isqrt(x) + 1),
    decreases x,
{
    if x == 0 {
        assert(spec_isqrt(x) == 0);
        assert(spec_isqrt(x) * spec_isqrt(x) <= x);
        assert((spec_isqrt(x) + 1) * (spec_isqrt(x) + 1) == 1) by (nonlinear_arith)
            requires
                spec_isqrt(x) == 0,
        {
        }
    } else {
        lemma_isqrt_bounds((x - 1) as nat);
        let r = spec_isqrt((x - 1) as nat);
        assert(r * r <= x - 1);
        assert((x - 1) < (r + 1) * (r + 1));
        if (r + 1) * (r + 1) <= x {
            assert(spec_isqrt(x) == r + 1);
            assert(x < (r + 2) * (r + 2)) by (nonlinear_arith)
                requires
                    (x - 1) < (r + 1) * (r + 1),
                    x >= 1,
                    r >= 0,
            {
            }
            assert((spec_isqrt(x) + 1) * (spec_isqrt(x) + 1) == (r + 2) * (r + 2));
        } else {
            assert(spec_isqrt(x) == r);
        }
    }
}

/// Only one value satisfies the square-root bracket.
pub proof fn lemma_isqrt_unique(x: nat, r: nat)
    requires
        r * r <= x,
        x < (r + 1) * (r + 1),
    ensures
        r == spec_isqrt(x),
{
    let s = spec_isqrt(x);
    lemma_isqrt_bounds(x);
    if r < s {
        assert((r + 1) * (r + 1) <= s * s) by (nonlinear_arith)
            requires
                r + 1 <= s,
        {
        }
    }
    if s < r {
        assert((s + 1) * (s + 1) <= r * r) by (nonlinear_arith)
            requires
                s + 1 <= r,
        {
        }
    }
}

/// The floor of the base-2 logarithm of a 32-bit value; zero for inputs
/// below two.
pub fn ilog2(x: u32) -> (r: u32)
    ensures
        r == spec_ilog2(x as nat),
        r < 32,
    {
    proof {
        assert(x < pow2(32)) by {
            lemma2_to64();
        }
        lemma_ilog2_below(x as nat, 32);
    }
    let mut v: u32 = x;
    let mut r: u32 = 0;
    while v >= 2
        invariant
            spec_ilog2(x as nat) == r + spec_ilog2(v as nat),
            spec_ilog2(x as nat) < 32,
        decreases v,
    {
        v = v / 2;
        r = r + 1;
    }
    r
}

/// The floor of the square root of a 64-bit value, by bisection.
pub fn isqrt(x: u64) -> (r: u64)
    ensures
        r == spec_isqrt(x as nat),
    {
    let mut lo: u64 = 0;
    let mut hi: u64 = 0xFFFF_FFFF;
    proof {
        assert((hi + 1) * (hi + 1) > x as nat) by (nonlinear_arith)
            requires
                hi == 0xFFFF_FFFFu64,
                x <= u64::MAX,
        {
        }
    }
    while lo < hi
        invariant
            lo <= hi <= 0xFFFF_FFFF,
            (lo as nat) * (lo as nat) <= x as nat,
            (x as nat) < (hi as nat + 1) * (hi as nat + 1),
        decreases hi - lo,
    {
        let mid: u64 = lo + (hi - lo + 1) / 2;
        proof {
            assert((mid as nat) * (mid as nat) < 0x1_0000_0000_0000_0000) by (nonlinear_arith)
                requires
                    mid <= 0xFFFF_FFFFu64,
            {
            }
        }
        if mid * mid <= x {
            lo = mid;
        } else {
            hi = mid - 1;
        }
    }
    proof {
        lemma_isqrt_unique(x as nat, lo as nat);
    }
    lo
}

} // verus!
