//! Primality by trial division.

use vstd::prelude::*;

verus! {

/// A prime is a whole number above one that nothing between one and itself
/// divides.
pub open spec fn prime(n: int) -> bool {
    &&& n >= 2
    &&& forall|d: int| 2 <= d < n ==> #[trigger] (n % d) != 0
}

/// What an even number divides is even.
proof fn lemma_even_divisor(n: int, d: int)
    requires
        n >= 0,
        d > 0,
        d % 2 == 0,
        n % d == 0,
    ensures
        n % 2 == 0,
{
    let q = n / d;
    let h = d / 2;
    assert(n == d * q) by (nonlinear_arith)
        requires
            d > 0,
            n % d == 0,
            q == n / d,
    ;
    assert(n == 2 * (h * q)) by (nonlinear_arith)
        requires
            n == d * q,
            d == 2 * h,
    ;
    assert((2 * (h * q)) % 2 == 0) by (nonlinear_arith);
}

/// A divisor of `n` from `d` upwards, with `d * d > n`, has a partner below
/// `d` that divides `n` too.
proof fn lemma_small_partner(n: int, d: int, k: int) -> (q: int)
    requires
        n >= 2,
        d >= 2,
        d * d > n,
        d <= k < n,
        n % k == 0,
    ensures
        2 <= q < d,
        n % q == 0,
{
    let q = n / k;
    assert(n == k * q) by (nonlinear_arith)
        requires
            k > 0,
            n % k == 0,
            q == n / k,
    ;
    assert(q >= 2) by (nonlinear_arith)
        requires
            n == k * q,
            0 < k < n,
    ;
    assert(q < d) by (nonlinear_arith)
        requires
            n == k * q,
            d * d > n,
            2 <= d <= k,
    ;
    assert(n % q == 0) by (nonlinear_arith)
        requires
            n == k * q,
            q > 0,
    ;
    q
}

/// Comparing `d` with `n / d` is comparing `d * d` with `n`.
proof fn lemma_square_test(n: int, d: int)
    requires
        n >= 0,
        d > 0,
    ensures
        d <= n / d <==> d * d <= n,
{
    assert(d <= n / d <==> d * d <= n) by (nonlinear_arith)
        requires
            n >= 0,
            d > 0,
    ;
}

/// Tells whether `n` is prime. No number below two is, so none that is
/// negative.
pub fn is_prime(n: i64) -> (r: bool)
    ensures
        r == prime(n as int),
{
    if n <= 1 {
        return false;
    }
    if n == 2 {
        return true;
    }
    if n % 2 == 0 {
        return false;
    }
    let mut divisor: i64 = 3;
    while divisor <= n / divisor
        invariant
            n >= 3,
            n % 2 != 0,
            3 <= divisor <= n,
            divisor % 2 == 1,
            forall|d: int| 2 <= d < divisor ==> #[trigger] (n as int % d) != 0,
        decreases n - divisor,
    {
        proof {
            lemma_square_test(n as int, divisor as int);
            assert(divisor < n) by (nonlinear_arith)
                requires
                    divisor * divisor <= n,
                    divisor >= 3,
            ;
        }
        if n % divisor == 0 {
            return false;
        }
        proof {
            assert(divisor + 2 <= n) by (nonlinear_arith)
                requires
                    divisor * divisor <= n,
                    divisor >= 3,
            ;
            if n as int % (divisor + 1) == 0 {
                lemma_even_divisor(n as int, divisor + 1);
            }
        }
        divisor = divisor + 2;
    }
    proof {
        lemma_square_test(n as int, divisor as int);
        assert forall|k: int| 2 <= k < n implies #[trigger] (n as int % k) != 0 by {
            if k >= divisor && n as int % k == 0 {
                let q = lemma_small_partner(n as int, divisor as int, k);
                assert(n as int % q != 0);
            }
        }
    }
    true
}

} // verus!
