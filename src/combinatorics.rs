//! Binomial coefficients for two and three chosen items.
use vstd::prelude::*;

verus! {

/// The number of ways to choose 2 items out of `k`.
pub open spec fn choose2(k: int) -> nat
    decreases k,
{
    if k <= 1 {
        0
    } else {
        choose2(k - 1) + (k - 1) as nat
    }
}

/// The number of ways to choose 3 items out of `k`.
pub open spec fn choose3(k: int) -> nat
    decreases k,
{
    if k <= 2 {
        0
    } else {
        choose3(k - 1) + choose2(k - 1)
    }
}

/// Closed form of `choose2`.
pub proof fn lemma_choose2_closed(k: int)
    requires
        k >= 0,
    ensures
        2 * choose2(k) == k * (k - 1),
    decreases k,
{
    if k > 1 {
        lemma_choose2_closed(k - 1);
        assert(choose2(k) == choose2(k - 1) + (k - 1));
        assert(k * (k - 1) == (k - 1) * (k - 2) + 2 * (k - 1)) by (nonlinear_arith);
    } else {
        assert(choose2(k) == 0);
        assert(k * (k - 1) == 0) by (nonlinear_arith)
            requires
                0 <= k <= 1,
        ;
    }
}

/// Closed form of `choose3` in terms of `choose2`.
pub proof fn lemma_choose3_closed(k: int)
    requires
        k >= 0,
    ensures
        3 * choose3(k) == choose2(k) * (k - 2),
    decreases k,
{
    if k > 2 {
        lemma_choose3_closed(k - 1);
        lemma_choose2_closed(k);
        lemma_choose2_closed(k - 1);
        let c = choose2(k - 1);
        assert(choose3(k) == choose3(k - 1) + c);
        assert(choose2(k) == c + (k - 1));
        assert(3 * choose3(k) == c * (k - 3) + 3 * c);
        assert(c * (k - 3) + 3 * c == c * k) by (nonlinear_arith);
        assert(choose2(k) == c + (k - 1));
        assert(2 * c == (k - 1) * (k - 2));
        assert((c + (k - 1)) * (k - 2) == c * k) by (nonlinear_arith)
            requires
                2 * c == (k - 1) * (k - 2),
        ;
    } else {
        assert(choose3(k) == 0);
        reveal_with_fuel(choose2, 3);
        assert(choose2(k) * (k - 2) == 0) by (nonlinear_arith)
            requires
                0 <= k <= 2,
                k == 2 ==> choose2(k) == 1,
                k < 2 ==> choose2(k) == 0,
        ;
    }
}

/// `C(k, 2)`, for `k` below `2^32`.
pub fn pair_count(k: u64) -> (r: u64)
    requires
        k <= 0xFFFF_FFFF,
    ensures
        r == choose2(k as int),
{
    proof {
        lemma_choose2_closed(k as int);
    }
    if k == 0 {
        return 0;
    }
    assert(k * (k - 1) <= 0xFFFF_FFFF * 0xFFFF_FFFF) by (nonlinear_arith)
        requires
            1 <= k <= 0xFFFF_FFFF,
    ;
    let p: u64 = k * (k - 1);
    p / 2
}

/// `C(k, 3)`, for `k` below `2^32`.
pub fn triple_count(k: u64) -> (r: u128)
    requires
        k <= 0xFFFF_FFFF,
    ensures
        r == choose3(k as int),
{
    proof {
        lemma_choose3_closed(k as int);
        lemma_choose2_closed(k as int);
    }
    if k < 3 {
        proof {
            assert(choose3(k as int) == 0) by {
                reveal_with_fuel(choose3, 3);
            }
        }
        return 0;
    }
    let c: u64 = pair_count(k);
    assert(c * (k - 2) <= 0xFFFF_FFFF * 0xFFFF_FFFF * 0xFFFF_FFFF) by (nonlinear_arith)
        requires
            2 * c == k * (k - 1),
            3 <= k <= 0xFFFF_FFFF,
    ;
    let p: u128 = (c as u128) * ((k - 2) as u128);
    assert(p == 3 * choose3(k as int));
    p / 3
}

/// `x`, or `u64::MAX` where `x` exceeds it.
pub open spec fn capped(x: int) -> int {
    if x > u64::MAX {
        u64::MAX as int
    } else {
        x
    }
}

/// `count + c`, or `u64::MAX` where that does not fit.
pub fn add_capped(count: u64, c: u128) -> (r: u64)
    ensures
        r == capped(count + c),
{
    if c > (u64::MAX - count) as u128 {
        u64::MAX
    } else {
        count + c as u64
    }
}

} // verus!
