//! Small numeric helpers: integer square root, clamping and random integers.
use vstd::prelude::*;

verus! {

/// `s` is the integer square root of `n`.
pub open spec fn is_isqrt(s: int, n: int) -> bool {
    0 <= s && s * s <= n < (s + 1) * (s + 1)
}

/// The integer square root of `n >= 0`: the largest `s` with `s * s <= n`.
pub open spec fn isqrt_spec(n: int) -> int {
    choose|s: int| is_isqrt(s, n)
}

/// Largest argument accepted by [`isqrt`].
pub const ISQRT_LIMIT: u128 = 0x100_0000_0000_0000_0000_0000_0000;

/// Two integer square roots of the same number are equal.
pub proof fn lemma_isqrt_unique(s1: int, s2: int, n: int)
    requires
        is_isqrt(s1, n),
        is_isqrt(s2, n),
    ensures
        s1 == s2,
{
    if s1 < s2 {
        assert((s1 + 1) * (s1 + 1) <= s2 * s2) by (nonlinear_arith)
            requires
                0 <= s1 < s2,
        ;
    } else if s2 < s1 {
        assert((s2 + 1) * (s2 + 1) <= s1 * s1) by (nonlinear_arith)
            requires
                0 <= s2 < s1,
        ;
    }
}

/// Every number `n >= 0` has an integer square root.
pub proof fn lemma_isqrt_exists(n: int)
    requires
        n >= 0,
    ensures
        is_isqrt(isqrt_spec(n), n),
    decreases n,
{
    if n == 0 {
        assert(is_isqrt(0, 0));
    } else {
        lemma_isqrt_exists(n - 1);
        let s = isqrt_spec(n - 1);
        if (s + 1) * (s + 1) <= n {
            assert((s + 1) * (s + 1) < (s + 2) * (s + 2)) by (nonlinear_arith)
                requires
                    s >= 0,
            ;
            assert(is_isqrt(s + 1, n));
        } else {
            assert(is_isqrt(s, n));
        }
    }
}

/// Integer square root by bisection.
pub fn isqrt(n: u128) -> (s: u128)
    requires
        n < ISQRT_LIMIT,
    ensures
        is_isqrt(s as int, n as int),
        s == isqrt_spec(n as int),
        s < 0x10_0000_0000_0000,
{
    let mut lo: u128 = 0;
    let mut hi: u128 = 0x10_0000_0000_0000;
    assert(hi * hi == ISQRT_LIMIT);
    while hi - lo > 1
        invariant
            lo < hi <= 0x10_0000_0000_0000,
            lo * lo <= n < hi * hi,
        decreases hi - lo,
    {
        let mid = lo + (hi - lo) / 2;
        assert(mid * mid <= 0x10_0000_0000_0000 * 0x10_0000_0000_0000) by (nonlinear_arith)
            requires
                mid < 0x10_0000_0000_0000,
        ;
        if mid * mid <= n {
            lo = mid;
        } else {
            hi = mid;
        }
    }
    proof {
        assert(hi == lo + 1);
        lemma_isqrt_unique(lo as int, isqrt_spec(n as int), n as int);
    }
    lo
}

/// `x` limited to `[lo, hi]`.
pub fn clamp(x: i64, lo: i64, hi: i64) -> (r: i64)
    requires
        lo <= hi,
    ensures
        r == (if x < lo {
            lo
        } else if x > hi {
            hi
        } else {
            x
        }),
        lo <= r <= hi,
{
    if x < lo {
        lo
    } else if x > hi {
        hi
    } else {
        x
    }
}

/// A uniformly drawn integer in `[min, max]`.
///
/// Relies on `rand::Rng::gen_range` over an inclusive range on the thread's
/// generator, which returns a value inside the range and panics only on an
/// empty range.
#[verifier::external_body]
pub fn random_int(min: isize, max: isize) -> (r: isize)
    requires
        min <= max,
    ensures
        min <= r <= max,
{
    rand::Rng::gen_range(&mut rand::thread_rng(), min..=max)
}

} // verus!
