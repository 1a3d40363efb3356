use vstd::prelude::*;

verus! {

/// Floor of the square root of `n` (zero for negative `n`).
pub open spec fn floor_sqrt(n: int) -> int
    decreases n,
{
    if n <= 0 {
        0
    } else {
        let r = floor_sqrt(n - 1);
        if (r + 1) * (r + 1) <= n {
            r + 1
        } else {
            r
        }
    }
}

/// `r` is the floor of the square root of `n`.
pub open spec fn is_floor_sqrt(r: int, n: int) -> bool {
    0 <= r && r * r <= n && n < (r + 1) * (r + 1)
}

proof fn lemma_square_monotone(a: int, b: int)
    requires
        0 <= a <= b,
    ensures
        a * a <= b * b,
{
    assert(a * a <= b * b) by (nonlinear_arith)
        requires
            0 <= a <= b,
    ;
}

/// `floor_sqrt` meets its defining bounds.
pub proof fn lemma_floor_sqrt(n: int)
    requires
        n >= 0,
    ensures
        is_floor_sqrt(floor_sqrt(n), n),
    decreases n,
{
    if n > 0 {
        lemma_floor_sqrt(n - 1);
        let r = floor_sqrt(n - 1);
        if (r + 1) * (r + 1) <= n {
            assert(n < (r + 2) * (r + 2)) by (nonlinear_arith)
                requires
                    n - 1 < (r + 1) * (r + 1),
                    r >= 0,
            ;
        }
    }
}

/// Only one integer meets the bounds of a floor square root.
pub proof fn lemma_floor_sqrt_unique(r: int, n: int)
    requires
        is_floor_sqrt(r, n),
    ensures
        r == floor_sqrt(n),
{
    lemma_floor_sqrt(n);
    let s = floor_sqrt(n);
    if r < s {
        lemma_square_monotone(r + 1, s);
    } else if s < r {
        lemma_square_monotone(s + 1, r);
    }
}

/// Largest argument that `isqrt` accepts.
pub const SQRT_ARG_MAX: u128 = 0x4000_0000_0000_0000_0000_0000_0000_0000;

/// Floor of the square root, by bisection.
pub fn isqrt(n: u128) -> (r: u128)
    requires
        n <= SQRT_ARG_MAX,
    ensures
        r == floor_sqrt(n as int),
        is_floor_sqrt(r as int, n as int),
{
    let mut lo: u128 = 0;
    let mut hi: u128 = 0x8000_0000_0000_0001;
    assert(n < hi * hi) by (nonlinear_arith)
        requires
            n <= SQRT_ARG_MAX,
            hi == 0x8000_0000_0000_0001u128,
    ;
    while hi - lo > 1
        invariant
            lo < hi <= 0x8000_0000_0000_0001u128,
            lo * lo <= n,
            n < hi * hi,
        decreases hi - lo,
    {
        let mid: u128 = lo + (hi - lo) / 2;
        assert(mid * mid <= 0x8000_0000_0000_0001u128 * 0x8000_0000_0000_0001u128) by (nonlinear_arith)
            requires
                mid < 0x8000_0000_0000_0001u128,
        ;
        if mid * mid <= n {
            lo = mid;
        } else {
            hi = mid;
        }
    }
    assert(hi == lo + 1);
    proof {
        lemma_floor_sqrt_unique(lo as int, n as int);
    }
    lo
}

/// Floor division by a positive divisor, rounding towards negative infinity.
pub fn div_floor(n: i128, d: i128) -> (q: i128)
    requires
        d > 0,
        n > i128::MIN,
    ensures
        q == n / d,
{
    if n >= 0 {
        ((n as u128) / (d as u128)) as i128
    } else {
        let m: u128 = (-(n + 1)) as u128;
        let k: u128 = m / (d as u128);
        proof {
            let r = (m as int) % (d as int);
            vstd::arithmetic::div_mod::lemma_fundamental_div_mod(m as int, d as int);
            assert((-(k as int) - 1) * (d as int) == -((k as int) * (d as int)) - d)
                by (nonlinear_arith);
            assert((d as int) * (k as int) == (k as int) * (d as int)) by (nonlinear_arith);
            vstd::arithmetic::div_mod::lemma_fundamental_div_mod_converse(
                n as int,
                d as int,
                -(k as int) - 1,
                d - r - 1,
            );
        }
        -(k as i128) - 1
    }
}

} // verus!
