//! Integer square and fifth roots, used for the fixed-point error and
//! priority arithmetic.

use vstd::prelude::*;

verus! {

/// The integer square root: the largest r with r * r <= n.
pub open spec fn isqrt_spec(n: nat) -> nat
    decreases n,
{
    if n == 0 {
        0
    } else {
        let r = isqrt_spec((n - 1) as nat);
        if (r + 1) * (r + 1) <= n {
            r + 1
        } else {
            r
        }
    }
}

/// The integer square root is the unique r with r^2 <= n < (r+1)^2.
pub proof fn lemma_isqrt_bounds(n: nat)
    ensures
        isqrt_spec(n) * isqrt_spec(n) <= n,
        (isqrt_spec(n) + 1) * (isqrt_spec(n) + 1) > n,
    decreases n,
{
    if n == 0 {
        assert(isqrt_spec(0) == 0);
        assert((0nat + 1) * (0nat + 1) > 0) by (nonlinear_arith);
    } else {
        lemma_isqrt_bounds((n - 1) as nat);
        let r = isqrt_spec((n - 1) as nat);
        if (r + 1) * (r + 1) <= n {
            assert(isqrt_spec(n) == r + 1);
            assert((r + 1) * (r + 1) == n);
            assert((r + 2) * (r + 2) > (r + 1) * (r + 1)) by (nonlinear_arith)
                requires r >= 0;
        } else {
            assert(isqrt_spec(n) == r);
        }
    }
}

/// Any r with r^2 <= n < (r+1)^2 is the integer square root.
pub proof fn lemma_isqrt_unique(n: nat, r: nat)
    requires
        r * r <= n,
        (r + 1) * (r + 1) > n,
    ensures
        r == isqrt_spec(n),
{
    lemma_isqrt_bounds(n);
    let s = isqrt_spec(n);
    if r < s {
        assert((r + 1) * (r + 1) <= s * s) by (nonlinear_arith)
            requires r + 1 <= s;
    }
    if s < r {
        assert((s + 1) * (s + 1) <= r * r) by (nonlinear_arith)
            requires s + 1 <= r;
    }
}

/// Integer square root by binary search.
pub fn isqrt(n: u128) -> (r: u128)
    ensures
        r == isqrt_spec(n as nat),
{
    let mut lo: u128 = 0;
    let mut hi: u128 = 0x1_0000_0000_0000_0000;
    proof {
        assert((lo as int) * (lo as int) <= n as int) by (nonlinear_arith)
            requires lo == 0u128;
        assert((hi as int) * (hi as int) > n as int) by (nonlinear_arith)
            requires hi == 0x1_0000_0000_0000_0000u128 && n <= u128::MAX;
    }
    while lo + 1 < hi
        invariant
            lo < hi <= 0x1_0000_0000_0000_0000,
            (lo as int) * (lo as int) <= n as int,
            (hi as int) * (hi as int) > n as int,
        decreases hi - lo,
    {
        let mid: u128 = lo + (hi - lo) / 2;
        proof {
            assert((mid as int) * (mid as int) < 0x1_0000_0000_0000_0000i128 * 0x1_0000_0000_0000_0000i128)
                by (nonlinear_arith)
                requires mid < 0x1_0000_0000_0000_0000u128;
        }
        if mid * mid <= n {
            lo = mid;
        } else {
            hi = mid;
        }
    }
    proof {
        assert(hi == lo + 1);
        assert(((lo as nat) + 1) * ((lo as nat) + 1) == (hi as int) * (hi as int));
        lemma_isqrt_unique(n as nat, lo as nat);
    }
    lo
}

/// The fifth power.
pub open spec fn pow5(r: int) -> int {
    r * r * r * r * r
}

/// The integer fifth root: the largest r with r^5 <= n.
pub open spec fn iroot5_spec(n: nat) -> nat
    decreases n,
{
    if n == 0 {
        0
    } else {
        let r = iroot5_spec((n - 1) as nat);
        if pow5(r as int + 1) <= n {
            (r + 1) as nat
        } else {
            r
        }
    }
}

/// The fifth power is monotonic over the non-negative integers.
pub proof fn lemma_pow5_monotonic(a: int, b: int)
    requires
        0 <= a <= b,
    ensures
        pow5(a) <= pow5(b),
{
    assert(a * a * a * a * a <= b * b * b * b * b) by (nonlinear_arith)
        requires 0 <= a <= b;
}

/// The fifth power is strictly monotonic over the non-negative integers.
pub proof fn lemma_pow5_strict(a: int, b: int)
    requires
        0 <= a < b,
    ensures
        pow5(a) < pow5(b),
{
    assert(a * a * a * a * a < b * b * b * b * b) by (nonlinear_arith)
        requires 0 <= a < b;
}

/// The integer fifth root is the unique r with r^5 <= n < (r+1)^5.
pub proof fn lemma_iroot5_bounds(n: nat)
    ensures
        pow5(iroot5_spec(n) as int) <= n,
        pow5(iroot5_spec(n) as int + 1) > n,
    decreases n,
{
    if n == 0 {
        assert(iroot5_spec(0) == 0);
        assert(0int * 0 * 0 * 0 * 0 == 0) by (nonlinear_arith);
        assert(1int * 1 * 1 * 1 * 1 == 1) by (nonlinear_arith);
        assert(pow5(0) == 0);
        assert(pow5(1) == 1);
    } else {
        lemma_iroot5_bounds((n - 1) as nat);
        let r = iroot5_spec((n - 1) as nat);
        if pow5(r as int + 1) <= n {
            assert(iroot5_spec(n) == r + 1);
            assert(pow5(r as int + 1) == n);
            lemma_pow5_strict(r as int + 1, r as int + 2);
        } else {
            assert(iroot5_spec(n) == r);
        }
    }
}

/// Any r with r^5 <= n < (r+1)^5 is the integer fifth root.
pub proof fn lemma_iroot5_unique(n: nat, r: nat)
    requires
        pow5(r as int) <= n,
        pow5(r as int + 1) > n,
    ensures
        r == iroot5_spec(n),
{
    lemma_iroot5_bounds(n);
    let s = iroot5_spec(n);
    if r < s {
        lemma_pow5_monotonic(r as int + 1, s as int);
    }
    if s < r {
        lemma_pow5_monotonic(s as int + 1, r as int);
    }
}

/// Integer fifth root by binary search, for arguments below 2^75.
pub fn iroot5(n: u128) -> (r: u128)
    requires
        n < pow5(0x8000),
    ensures
        r == iroot5_spec(n as nat),
{
    let mut lo: u128 = 0;
    let mut hi: u128 = 0x8000;
    proof {
        assert(0int * 0 * 0 * 0 * 0 == 0) by (nonlinear_arith);
        assert(pow5(lo as int) == 0);
    }
    while lo + 1 < hi
        invariant
            lo < hi <= 0x8000,
            n < pow5(0x8000),
            pow5(lo as int) <= n as int,
            pow5(hi as int) > n as int,
        decreases hi - lo,
    {
        let mid: u128 = lo + (hi - lo) / 2;
        proof {
            assert(mid * mid < 0x40000000) by (nonlinear_arith)
                requires mid < 0x8000u128;
            assert((mid * mid) * (mid * mid) < 0x1000000000000000) by (nonlinear_arith)
                requires mid * mid < 0x40000000u128;
            assert(((mid * mid) * (mid * mid)) * mid < 0x8000000000000000000) by (nonlinear_arith)
                requires (mid * mid) * (mid * mid) < 0x1000000000000000u128 && mid < 0x8000u128;
            assert((mid as int) * (mid as int) * (mid as int) * (mid as int) * (mid as int)
                == ((mid as int) * (mid as int)) * ((mid as int) * (mid as int)) * (mid as int))
                by (nonlinear_arith);
            assert(pow5(mid as int)
                == ((mid as int) * (mid as int)) * ((mid as int) * (mid as int)) * (mid as int));
        }
        let m2: u128 = mid * mid;
        let m4: u128 = m2 * m2;
        let m5: u128 = m4 * mid;
        if m5 <= n {
            lo = mid;
        } else {
            hi = mid;
        }
    }
    proof {
        assert(hi == lo + 1);
        assert(pow5((lo as nat) as int + 1) == pow5(hi as int));
        lemma_iroot5_unique(n as nat, lo as nat);
    }
    lo
}

} // verus!
