//! Integer square roots, used to compare and print standard deviations
//! without leaving exact arithmetic.
use vstd::prelude::*;

verus! {

/// `r` is the integer square root of `n`: `r² ≤ n < (r + 1)²`.
pub open spec fn is_root(n: nat, r: nat) -> bool {
    r * r <= n && n < (r + 1) * (r + 1)
}

/// The integer square root of `n`.
pub open spec fn floor_sqrt(n: nat) -> nat {
    choose|r: nat| #[trigger] is_root(n, r)
}

/// Every natural number has an integer square root.
pub proof fn lemma_root_exists(n: nat)
    ensures
        exists|r: nat| #[trigger] is_root(n, r),
    decreases n,
{
    if n == 0 {
        assert(is_root(0, 0)) by (nonlinear_arith);
    } else {
        lemma_root_exists((n - 1) as nat);
        let r = choose|r: nat| #[trigger] is_root((n - 1) as nat, r);
        if (r + 1) * (r + 1) <= n {
            assert((r + 1) * (r + 1) == n);
            assert((r + 2) * (r + 2) == (r + 1) * (r + 1) + 2 * r + 3) by (nonlinear_arith);
            assert(is_root(n, r + 1));
        } else {
            assert(is_root(n, r));
        }
    }
}

/// The integer square root is unique.
pub proof fn lemma_root_unique(n: nat, a: nat, b: nat)
    requires
        is_root(n, a),
        is_root(n, b),
    ensures
        a == b,
{
    if a < b {
        assert((a + 1) * (a + 1) <= b * b) by (nonlinear_arith)
            requires
                a + 1 <= b,
        ;
    } else if b < a {
        assert((b + 1) * (b + 1) <= a * a) by (nonlinear_arith)
            requires
                b + 1 <= a,
        ;
    }
}

/// `floor_sqrt` is the unique integer square root.
pub proof fn lemma_floor_sqrt(n: nat, r: nat)
    requires
        is_root(n, r),
    ensures
        floor_sqrt(n) == r,
{
    lemma_root_exists(n);
    lemma_root_unique(n, floor_sqrt(n), r);
}

/// The integer square root of a 128-bit number.
pub fn isqrt(n: u128) -> (r: u64)
    ensures
        is_root(n as nat, r as nat),
        r as nat == floor_sqrt(n as nat),
{
    let mut lo: u128 = 0;
    let mut hi: u128 = 0x1_0000_0000_0000_0000;
    assert(hi * hi == 0x1_0000_0000_0000_0000_0000_0000_0000_0000);
    while hi - lo > 1
        invariant
            lo < hi <= 0x1_0000_0000_0000_0000,
            lo * lo <= n,
            n < hi * hi,
        decreases hi - lo,
    {
        let mid = lo + (hi - lo) / 2;
        assert(mid * mid <= hi * hi) by (nonlinear_arith)
            requires
                mid <= hi,
        ;
        assert(mid < 0x1_0000_0000_0000_0000);
        assert(mid * mid < 0x1_0000_0000_0000_0000_0000_0000_0000_0000) by (nonlinear_arith)
            requires
                mid < 0x1_0000_0000_0000_0000,
        ;
        if mid * mid <= n {
            lo = mid;
        } else {
            hi = mid;
        }
    }
    assert(hi == lo + 1);
    proof {
        lemma_floor_sqrt(n as nat, lo as nat);
    }
    lo as u64
}

/// `sqrt(n) > t` decided from the integer square root `s` of `n`.
pub proof fn lemma_root_exceeds(n: nat, s: nat, t: nat)
    requires
        is_root(n, s),
    ensures
        n > t * t <==> (s > t || (s == t && n > s * s)),
{
    if s > t {
        assert(t * t < s * s) by (nonlinear_arith)
            requires
                t < s,
        ;
    } else if s < t {
        assert((s + 1) * (s + 1) <= t * t) by (nonlinear_arith)
            requires
                s + 1 <= t,
        ;
    }
}

/// Two 64-bit factors have a 128-bit product.
pub proof fn lemma_product_fits(a: nat, b: nat)
    requires
        a <= u64::MAX,
        b <= u64::MAX,
    ensures
        a * b <= u64::MAX * u64::MAX,
        u64::MAX * u64::MAX < u128::MAX,
{
    assert(a * b <= u64::MAX * u64::MAX) by (nonlinear_arith)
        requires
            a <= u64::MAX,
            b <= u64::MAX,
    ;
}

} // verus!
