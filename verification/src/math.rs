//! Combinatorial counting.

use vstd::prelude::*;

verus! {

/// The falling factorial `n * (n-1) * ... * (n-r+1)`.
pub open spec fn falling(n: int, r: nat) -> int
    decreases r,
{
    if r == 0 {
        1
    } else {
        n * falling(n - 1, (r - 1) as nat)
    }
}

/// `r!`, as the falling factorial of `r` over all of its `r` factors.
pub open spec fn factorial(r: nat) -> int {
    falling(r as int, r)
}

/// The number of `r`-combinations of `n` items, as this crate computes it:
/// the falling factorial divided by `r!`.
pub open spec fn spec_ncr(n: int, r: nat) -> int {
    if n > r {
        falling(n, r) / factorial(r)
    } else if n == r {
        1
    } else {
        0
    }
}

/// `falling(n, r + 1)` extends `falling(n, r)` by the factor `n - r`.
pub proof fn lemma_falling_snoc(n: int, r: nat)
    ensures
        falling(n, (r + 1) as nat) == falling(n, r) * (n - r),
    decreases r,
{
    if r == 0 {
        assert(falling(n, 1) == n * falling(n - 1, 0));
    } else {
        lemma_falling_snoc(n - 1, (r - 1) as nat);
        assert(falling(n, (r + 1) as nat) == n * falling(n - 1, r));
        assert(n * (falling(n - 1, (r - 1) as nat) * (n - 1 - (r - 1))) == (n * falling(
            n - 1,
            (r - 1) as nat,
        )) * (n - r)) by (nonlinear_arith);
    }
}

/// A falling factorial with all factors positive is at least 1.
pub proof fn lemma_falling_pos(n: int, r: nat)
    requires
        n >= r,
    ensures
        falling(n, r) >= 1,
    decreases r,
{
    if r > 0 {
        lemma_falling_pos(n - 1, (r - 1) as nat);
        assert(n * falling(n - 1, (r - 1) as nat) >= 1) by (nonlinear_arith)
            requires
                n >= 1,
                falling(n - 1, (r - 1) as nat) >= 1,
        ;
    }
}

/// Falling factorials grow with the number of factors, while all factors
/// stay positive.
pub proof fn lemma_falling_mono_r(n: int, r1: nat, r2: nat)
    requires
        r1 <= r2,
        n >= r2,
    ensures
        falling(n, r1) <= falling(n, r2),
    decreases r2 - r1,
{
    if r1 < r2 {
        lemma_falling_mono_r(n, r1, (r2 - 1) as nat);
        lemma_falling_snoc(n, (r2 - 1) as nat);
        lemma_falling_pos(n, (r2 - 1) as nat);
        assert(falling(n, (r2 - 1) as nat) * (n - (r2 - 1)) >= falling(n, (r2 - 1) as nat))
            by (nonlinear_arith)
            requires
                falling(n, (r2 - 1) as nat) >= 1,
                n - (r2 - 1) >= 1,
        ;
    }
}

/// Falling factorials grow with their leading factor.
pub proof fn lemma_falling_mono_n(n1: int, n2: int, r: nat)
    requires
        r <= n1 <= n2,
    ensures
        falling(n1, r) <= falling(n2, r),
    decreases r,
{
    if r > 0 {
        lemma_falling_mono_n(n1 - 1, n2 - 1, (r - 1) as nat);
        lemma_falling_pos(n1 - 1, (r - 1) as nat);
        assert(n1 * falling(n1 - 1, (r - 1) as nat) <= n2 * falling(n2 - 1, (r - 1) as nat))
            by (nonlinear_arith)
            requires
                1 <= n1 <= n2,
                1 <= falling(n1 - 1, (r - 1) as nat) <= falling(n2 - 1, (r - 1) as nat),
        ;
    }
}

/// The number of ways to choose `r` items from `n`, computed as a product of
/// `r` falling factors divided by `r!`.
pub fn ncr(n: usize, r: usize) -> (result: usize)
    requires
        n > r ==> falling(n as int, r as nat) <= usize::MAX,
    ensures
        result == spec_ncr(n as int, r as nat),
{
    if n > r {
        let mut i: usize = 0;
        let mut num: usize = 1;
        let mut den: usize = 1;
        while i < r
            invariant
                i <= r < n <= usize::MAX,
                falling(n as int, r as nat) <= usize::MAX,
                num == falling(n as int, i as nat),
                den == factorial(i as nat),
            decreases r - i,
        {
            proof {
                lemma_falling_snoc(n as int, i as nat);
                lemma_falling_mono_r(n as int, (i + 1) as nat, r as nat);
                lemma_falling_pos(n as int, (i + 1) as nat);
                lemma_falling_mono_n((i + 1) as int, n as int, (i + 1) as nat);
                assert(((i + 1) as nat) as int == (i + 1) as int);
                assert((i as nat) as int == i as int);
                assert(falling(n as int, (i + 1) as nat) == falling(n as int, i as nat) * ((n
                    - i) as int));
                assert(falling((i + 1) as int, (i + 1) as nat) == ((i + 1) as int) * falling(
                    i as int,
                    i as nat,
                ));
                assert(factorial((i + 1) as nat) == ((i + 1) as int) * factorial(i as nat));
                assert(factorial((i + 1) as nat) <= falling(n as int, (i + 1) as nat));
                assert(factorial((i + 1) as nat) <= usize::MAX);
                assert(den * ((i + 1) as int) == ((i + 1) as int) * factorial(i as nat))
                    by (nonlinear_arith)
                    requires
                        den == factorial(i as nat),
                ;
                assert(den * ((i + 1) as int) <= usize::MAX);
                assert(num * ((n - i) as int) == falling(n as int, i as nat) * ((n - i) as int))
                    by (nonlinear_arith)
                    requires
                        num == falling(n as int, i as nat),
                ;
            }
            num = num * (n - i);
            den = den * (i + 1);
            i = i + 1;
        }
        proof {
            lemma_falling_pos(r as int, r as nat);
        }
        num / den
    } else if n == r {
        1
    } else {
        0
    }
}

} // verus!
